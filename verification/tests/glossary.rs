use wezterm_glyph_protocol::parse::RegisterError;
use wezterm_glyph_protocol::{Glossary, RegisteredGlyph, SizingParams, GLOSSARY_CAPACITY};

fn glyf(tag: u8) -> RegisteredGlyph {
    RegisteredGlyph::Glyf {
        glyf: vec![tag],
        upm: 1000,
        sizing: SizingParams::defaults_for_upm(1000),
    }
}

#[test]
fn insert_then_get_returns_glyph() {
    let mut g = Glossary::new();
    let glyph = RegisteredGlyph::Glyf {
        glyf: vec![1, 2, 3],
        upm: 1000,
        sizing: SizingParams::defaults_for_upm(1000),
    };
    g.insert(0xE000, glyph.clone());

    assert_eq!(g.get(0xE000), Some(&glyph));
    assert_eq!(g.get(0xE001), None);
    assert!(g.contains(0xE000));
    assert!(!g.contains(0xE001));
}

#[test]
fn version_bumps_on_each_insert_and_overwrite() {
    let mut g = Glossary::new();
    let v0 = g.insert(0xE000, glyf(1));
    let v1 = g.insert(0xE001, glyf(2));
    // Overwrite E000 with a different glyph; version must advance.
    let v2 = g.insert(0xE000, glyf(9));
    assert!(v1 > v0);
    assert!(v2 > v1, "overwrite must bump version");
    assert_eq!(g.version(0xE000), Some(v2));
    assert_eq!(g.get(0xE000), Some(&glyf(9)));
    // Overwrite does not change the eviction order (E000 stays oldest).
    assert_eq!(g.len(), 2);
}

#[test]
fn fifo_eviction_at_capacity() {
    let mut g = Glossary::new();
    // Fill to capacity with distinct PUA codepoints.
    for i in 0..GLOSSARY_CAPACITY as u32 {
        g.insert(0xE000 + i, glyf(0));
    }
    assert_eq!(g.len(), GLOSSARY_CAPACITY);
    assert!(g.contains(0xE000), "oldest still present at capacity");

    // The next distinct registration evicts the oldest (0xE000).
    g.insert(0xF000, glyf(0));
    assert_eq!(g.len(), GLOSSARY_CAPACITY);
    assert!(!g.contains(0xE000), "oldest must be evicted (FIFO)");
    assert!(g.contains(0xE001), "second-oldest survives");
    assert!(g.contains(0xF000), "newest present");
}

#[test]
fn overwrite_does_not_refresh_fifo_position() {
    let mut g = Glossary::new();
    for i in 0..GLOSSARY_CAPACITY as u32 {
        g.insert(0xE000 + i, glyf(0));
    }
    // Overwrite the oldest; it must remain the eviction target.
    g.insert(0xE000, glyf(7));
    g.insert(0xF000, glyf(0));
    assert!(!g.contains(0xE000), "overwrite must not save it from FIFO");
}

#[test]
fn clear_one_then_reinsert_gets_fresh_version() {
    let mut g = Glossary::new();
    let v0 = g.insert(0xE000, glyf(1));
    g.clear_one(0xE000);
    assert!(!g.contains(0xE000));
    let v1 = g.insert(0xE000, glyf(2));
    assert!(v1 > v0, "re-registration after clear gets a newer version");
}

#[test]
fn clear_all_empties_and_frees_slots() {
    let mut g = Glossary::new();
    for i in 0..10 {
        g.insert(0xE000 + i, glyf(0));
    }
    g.clear_all();
    assert!(g.is_empty());
    // Order is cleared too, so a fresh fill still evicts correctly.
    for i in 0..GLOSSARY_CAPACITY as u32 {
        g.insert(0xF000 + i, glyf(0));
    }
    g.insert(0x10_0000, glyf(0));
    assert!(!g.contains(0xF000));
}

#[test]
fn versions_count_from_zero_through_everything() {
    let mut g = Glossary::default();
    assert_eq!(g.insert(0xE000, glyf(1)), 0);
    assert_eq!(g.insert(0xE000, glyf(2)), 1);
    g.clear_all();
    g.clear_one(0xE000);
    assert_eq!(g.version(0xE000), None);
    assert_eq!(g.insert(0xE000, glyf(3)), 2);
    assert_eq!(g.version(0xE000), Some(2));
}

#[test]
fn clearing_an_empty_slot_is_a_no_op() {
    let mut g = Glossary::new();
    g.insert(0xE000, glyf(1));
    g.clear_one(0xE001);
    assert_eq!(g.len(), 1);
    assert_eq!(g.get(0xE000), Some(&glyf(1)));
}

#[test]
fn clearing_frees_one_slot_and_keeps_the_order() {
    let mut g = Glossary::new();
    for i in 0..GLOSSARY_CAPACITY as u32 {
        g.insert(0xE000 + i, glyf(0));
    }
    g.clear_one(0xE001);
    // There is room for one now.
    g.insert(0xF000, glyf(0));
    assert!(g.contains(0xE000));
    assert_eq!(g.len(), GLOSSARY_CAPACITY);
    // And then the oldest goes, and after it the oldest that was not cleared.
    g.insert(0xF001, glyf(0));
    assert!(!g.contains(0xE000) && g.contains(0xE002));
    g.insert(0xF002, glyf(0));
    assert!(!g.contains(0xE002) && g.contains(0xE003));
    assert_eq!(g.len(), GLOSSARY_CAPACITY);
}

#[test]
fn codepoints_and_snapshot_hold_every_registration() {
    let mut g = Glossary::new();
    for cp in [0xE003, 0xE001, 0xF0000, 0xE001] {
        g.insert(cp, glyf((cp % 256) as u8));
    }
    let mut cps = g.codepoints();
    cps.sort();
    assert_eq!(cps, vec![0xE001, 0xE003, 0xF0000]);

    let snapshot = g.snapshot();
    g.insert(0xE003, glyf(99));
    g.clear_one(0xE001);
    assert_eq!(snapshot.len(), 3);
    assert_eq!(snapshot[&0xE003].version, 0);
    assert_eq!(snapshot[&0xE003].glyph, glyf(3));
    assert_eq!(snapshot[&0xE001].version, 3);
    assert_eq!(snapshot[&0xE001].glyph, glyf(1));
}

#[test]
fn glyphs_say_what_they_are() {
    let mono = glyf(1);
    assert_eq!(mono.upm(), 1000);
    assert_eq!(mono.sizing().aw, 1000);
    assert!(!mono.uses_foreground());
    assert!(mono.color_plan([1, 2, 3, 4]).is_none());
    for uses_fg in [false, true] {
        let color = RegisteredGlyph::Color {
            container: vec![],
            upm: 12,
            sizing: SizingParams::defaults_for_upm(34),
            uses_fg,
        };
        assert_eq!(color.upm(), 12);
        assert_eq!(color.sizing().lh, 34);
        assert_eq!(color.uses_foreground(), uses_fg);
        assert!(color.mono_outline().is_none());
        assert!(color.color_plan([1, 2, 3, 4]).is_none());
    }
}

#[test]
fn validation_maps_every_fault() {
    let sizing = SizingParams::defaults_for_upm(1000);
    let check = |glyf: Vec<u8>| {
        RegisteredGlyph::Glyf {
            glyf,
            upm: 1000,
            sizing,
        }
        .validate()
    };
    assert_eq!(check(vec![0; 9]), Err(RegisterError::MalformedPayload));
    let mut composite = vec![0; 12];
    composite[0] = 0xFF;
    composite[1] = 0xFF;
    assert_eq!(check(composite), Err(RegisterError::CompositeUnsupported));
    let mut hinted = vec![0; 14];
    hinted[11] = 2;
    assert_eq!(check(hinted), Err(RegisterError::HintingUnsupported));
    // no contours at all: a blank, which is fine
    assert_eq!(check(vec![0; 12]), Ok(()));
    let color = RegisteredGlyph::Color {
        container: vec![7, 7],
        upm: 1000,
        sizing,
        uses_fg: true,
    };
    assert_eq!(color.validate(), Err(RegisterError::MalformedPayload));
}
