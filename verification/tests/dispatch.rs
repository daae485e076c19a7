use base64::engine::general_purpose::STANDARD;
use base64::Engine;
use wezterm_glyph_protocol::dispatch::{execute, glyph_protocol};
use wezterm_glyph_protocol::parse::{
    is_pua, parse, GlyphCommand, RegisterError, ReplyMode, MAX_PAYLOAD_BYTES,
};
use wezterm_glyph_protocol::raster::mask_plan;
use wezterm_glyph_protocol::{Glossary, RegisteredGlyph, SizingParams};

/// Build a bare simple-glyph record from on-curve polygon contours.
fn simple_glyph(contours: &[Vec<(i16, i16)>]) -> Vec<u8> {
    let mut pts: Vec<(i16, i16)> = Vec::new();
    let mut end_pts: Vec<u16> = Vec::new();
    for c in contours {
        pts.extend_from_slice(c);
        end_pts.push((pts.len() - 1) as u16);
    }
    let xs = || pts.iter().map(|p| p.0);
    let ys = || pts.iter().map(|p| p.1);
    let mut v = Vec::new();
    v.extend_from_slice(&(contours.len() as i16).to_be_bytes());
    v.extend_from_slice(&xs().min().unwrap().to_be_bytes());
    v.extend_from_slice(&ys().min().unwrap().to_be_bytes());
    v.extend_from_slice(&xs().max().unwrap().to_be_bytes());
    v.extend_from_slice(&ys().max().unwrap().to_be_bytes());
    for e in &end_pts {
        v.extend_from_slice(&e.to_be_bytes());
    }
    v.extend_from_slice(&0u16.to_be_bytes()); // instructionLength
    for _ in &pts {
        v.push(1); // on curve
    }
    let mut prev = 0i16;
    for x in xs() {
        v.extend_from_slice(&(x - prev).to_be_bytes());
        prev = x;
    }
    let mut prev = 0i16;
    for y in ys() {
        v.extend_from_slice(&(y - prev).to_be_bytes());
        prev = y;
    }
    v
}

/// A COLR v0 table: base glyph 0 → `layers` (glyphId, paletteIndex).
fn layer_table(layers: &[(u16, u16)]) -> Vec<u8> {
    let n = layers.len() as u16;
    let mut v = Vec::new();
    v.extend_from_slice(&[0, 0, 0, 1, 0, 0, 0, 14, 0, 0, 0, 20]);
    v.extend_from_slice(&n.to_be_bytes());
    v.extend_from_slice(&[0, 0, 0, 0]);
    v.extend_from_slice(&n.to_be_bytes());
    for (gid, pal) in layers {
        v.extend_from_slice(&gid.to_be_bytes());
        v.extend_from_slice(&pal.to_be_bytes());
    }
    v
}

/// A CPAL v0 table with one palette of RGBA colors.
fn palette(colors: &[[u8; 4]]) -> Vec<u8> {
    let n = (colors.len() as u16).to_be_bytes();
    let mut v = vec![0, 0, n[0], n[1], 0, 1, n[0], n[1], 0, 0, 0, 14, 0, 0];
    for c in colors {
        v.extend_from_slice(&[c[2], c[1], c[0], c[3]]);
    }
    v
}

/// Wrap outlines, COLR and CPAL into a colrv0 container.
fn wrap(glyphs: &[Vec<u8>], colr: Vec<u8>, cpal: Vec<u8>) -> Vec<u8> {
    let mut v = (glyphs.len() as u16).to_be_bytes().to_vec();
    for block in glyphs.iter().chain([&colr, &cpal]) {
        v.extend_from_slice(&(block.len() as u16).to_be_bytes());
        v.extend_from_slice(block);
    }
    v
}

fn triangle() -> Vec<u8> {
    simple_glyph(&[vec![(200, 100), (800, 100), (500, 850)]])
}

fn square() -> Vec<u8> {
    simple_glyph(&[vec![(100, 100), (900, 100), (900, 900), (100, 900)]])
}

fn diamond() -> Vec<u8> {
    simple_glyph(&[vec![(500, 80), (920, 500), (500, 920), (80, 500)]])
}

fn chevron() -> Vec<u8> {
    simple_glyph(&[vec![(200, 150), (800, 500), (200, 850), (380, 500)]])
}

fn ring() -> Vec<u8> {
    simple_glyph(&[
        vec![(100, 100), (900, 100), (900, 900), (100, 900)],
        vec![(350, 350), (350, 650), (650, 650), (650, 350)],
    ])
}

/// Codepoints, parameters and payloads of a varied set of registrations.
fn zoo() -> Vec<(u32, &'static str, Vec<u8>)> {
    let bar = |y0: i16, y1: i16| simple_glyph(&[vec![(80, y0), (920, y0), (920, y1), (80, y1)]]);
    let split = wrap(
        &[
            bar(100, 900),
            simple_glyph(&[vec![(500, 100), (920, 100), (920, 900), (500, 900)]]),
        ],
        layer_table(&[(0, 0), (1, 1)]),
        palette(&[[220, 40, 40, 255], [40, 80, 220, 255]]),
    );
    let inside = wrap(
        &[
            square(),
            simple_glyph(&[vec![(500, 300), (700, 500), (500, 700), (300, 500)]]),
        ],
        layer_table(&[(0, 0), (1, 1)]),
        palette(&[[210, 45, 45, 255], [250, 225, 70, 255]]),
    );
    let flag = wrap(
        &[bar(100, 366), bar(367, 633), bar(634, 900)],
        layer_table(&[(0, 0), (1, 1), (2, 2)]),
        palette(&[[40, 160, 70, 255], [240, 220, 60, 255], [200, 50, 50, 255]]),
    );
    let sentinel = wrap(
        &[
            ring(),
            simple_glyph(&[vec![(420, 420), (580, 420), (580, 580), (420, 580)]]),
        ],
        layer_table(&[(0, 0xFFFF), (1, 0)]),
        palette(&[[255, 140, 0, 255]]),
    );
    vec![
        (0xE000, "upm=1000", triangle()),
        (0xE001, "upm=1000;size=stretch", square()),
        (0xE002, "upm=1000;size=contain", diamond()),
        (0xE003, "upm=1000;size=contain", ring()),
        (0xE004, "upm=1000;size=contain", chevron()),
        (0xE010, "upm=1000;size=height", diamond()),
        (0xE011, "upm=1000;size=advance", diamond()),
        (0xE013, "upm=1000;size=cover", diamond()),
        (0xE020, "upm=1000;size=contain;align=start,start", triangle()),
        (0xE022, "upm=1000;size=contain;align=end,end", triangle()),
        (0xE023, "upm=1000;size=contain;align=center,baseline", triangle()),
        (0xE031, "upm=1000;size=stretch;pad=0.25,0.25,0.25,0.25", square()),
        (0xE032, "upm=1000;size=stretch;pad=0.4,0,0.4,0", square()),
        (0xE040, "upm=1000;width=2;size=contain", diamond()),
        (0xE041, "fmt=colrv0;upm=1000;width=2;size=stretch", split.clone()),
        (0xE050, "fmt=colrv0;upm=1000;size=stretch", split),
        (0xE051, "fmt=colrv0;upm=1000;size=stretch", flag),
        (0xE052, "fmt=colrv0;upm=1000;size=contain", inside),
        (0xE060, "fmt=colrv0;upm=1000;size=contain", sentinel),
    ]
}

fn register_body(cp: u32, params: &str, payload: &[u8]) -> String {
    format!("25a1;r;cp={cp:X};{params};{}", STANDARD.encode(payload))
}

fn send(g: &mut Glossary, body: &str) -> Option<String> {
    glyph_protocol(true, g, body.as_bytes())
}

#[test]
fn every_zoo_glyph_parses_and_has_something_to_paint() {
    for (cp, params, payload) in zoo() {
        let body = register_body(cp, params, &payload);
        let cmd = parse(body.as_bytes())
            .unwrap_or_else(|e| panic!("cp {cp:X} failed to parse: {e:?}"));
        let GlyphCommand::Register { glyph, .. } = cmd else {
            panic!("cp {cp:X} did not parse as a register");
        };
        glyph
            .validate()
            .unwrap_or_else(|e| panic!("cp {cp:X} failed validation: {e:?}"));
        let mono = glyph
            .mono_outline()
            .and_then(|o| mask_plan(&o, glyph.sizing(), 12, 24))
            .is_some();
        let color = glyph.color_plan([255, 255, 255, 255]).is_some();
        assert!(mono != color, "cp {cp:X} has nothing to paint");
        assert_eq!(color, params.starts_with("fmt=colrv0"));
        assert_eq!(glyph.uses_foreground(), cp == 0xE060);
    }
}

#[test]
fn zoo_registrations_are_stored_and_answered() {
    let mut g = Glossary::new();
    for (n, (cp, params, payload)) in zoo().into_iter().enumerate() {
        assert_eq!(
            send(&mut g, &register_body(cp, params, &payload)),
            Some(format!("\x1b_25a1;r;cp={cp:x};status=0\x1b\\"))
        );
        assert_eq!(g.version(cp), Some(n as u32));
        let stored = match g.get(cp).unwrap() {
            RegisteredGlyph::Glyf { glyf, .. } => glyf,
            RegisteredGlyph::Color { container, .. } => container,
        };
        assert_eq!(stored, &payload);
        assert_eq!(
            send(&mut g, &format!("25a1;q;cp={cp:x}")),
            Some(format!("\x1b_25a1;q;cp={cp:x};status=glossary\x1b\\"))
        );
    }
    assert_eq!(g.len(), zoo().len());
    assert!(g.codepoints().into_iter().all(is_pua));
}

#[test]
fn support_is_advertised() {
    let mut g = Glossary::new();
    assert_eq!(
        send(&mut g, "25a1;s"),
        Some("\x1b_25a1;s;fmt=glyf,colrv0\x1b\\".to_string())
    );
}

#[test]
fn nothing_happens_while_disabled() {
    let mut g = Glossary::new();
    let body = register_body(0xE000, "upm=1000", &triangle());
    send(&mut g, &body);
    for body in ["25a1;s", "25a1;q;cp=e000", "25a1;c", "25a1;c;cp=61", &body] {
        assert_eq!(glyph_protocol(false, &mut g, body.as_bytes()), None);
    }
    assert_eq!(g.version(0xE000), Some(0));
    assert_eq!(g.len(), 1);
}

#[test]
fn queries_report_glossary_coverage_only() {
    let mut g = Glossary::new();
    assert_eq!(
        send(&mut g, "25a1;q;cp=61"),
        Some("\x1b_25a1;q;cp=61;status=\x1b\\".to_string())
    );
}

#[test]
fn clearing_is_answered() {
    let mut g = Glossary::new();
    for cp in [0xE000, 0xE001, 0xE002] {
        send(&mut g, &register_body(cp, "upm=1000", &triangle()));
    }
    assert_eq!(
        send(&mut g, "25a1;c;cp=E001"),
        Some("\x1b_25a1;c;cp=e001;status=0\x1b\\".to_string())
    );
    assert!(g.contains(0xE000) && !g.contains(0xE001) && g.contains(0xE002));
    assert_eq!(
        send(&mut g, "25a1;c;cp=61"),
        Some("\x1b_25a1;c;status=1;reason=out_of_namespace\x1b\\".to_string())
    );
    assert_eq!(g.len(), 2);
    assert_eq!(
        send(&mut g, "25a1;c"),
        Some("\x1b_25a1;c;status=0\x1b\\".to_string())
    );
    assert!(g.is_empty());
}

#[test]
fn refusals_are_answered_and_change_nothing() {
    let mut g = Glossary::new();
    let mut composite = vec![0u8; 12];
    composite[0] = 0xFF;
    let mut hinted = triangle();
    hinted[13] = 1;
    let large = vec![0u8; MAX_PAYLOAD_BYTES + 1];
    let cases: [(u32, &str, &[u8], &str); 6] = [
        (0x41, "upm=1000", &triangle(), "out_of_namespace"),
        (0xE000, "fmt=colrv1", &triangle(), "malformed_payload"),
        (0xE000, "fmt=colrv0", &triangle(), "malformed_payload"),
        (0xE000, "upm=1000", &composite, "composite_unsupported"),
        (0xE000, "upm=1000", &hinted, "hinting_unsupported"),
        (0xE000, "upm=1000", &large, "payload_too_large"),
    ];
    for (cp, params, payload, reason) in cases {
        let body = register_body(cp, params, payload);
        let answer = format!("\x1b_25a1;r;cp={cp:x};status=1;reason={reason}\x1b\\");
        assert_eq!(send(&mut g, &body), Some(answer.clone()));
        // errors are still replied to at level 2, and not at level 0
        let body = register_body(cp, &format!("reply=2;{params}"), payload);
        assert_eq!(send(&mut g, &body), Some(answer));
        let body = register_body(cp, &format!("reply=0;{params}"), payload);
        assert_eq!(send(&mut g, &body), None);
    }
    assert!(g.is_empty());
}

#[test]
fn successes_are_answered_at_level_one_only() {
    let mut g = Glossary::new();
    for (level, answered) in [("0", false), ("1", true), ("2", false), ("x", true)] {
        let body = register_body(0xE000, &format!("reply={level}"), &triangle());
        assert_eq!(send(&mut g, &body).is_some(), answered);
    }
    assert_eq!(g.version(0xE000), Some(3));
}

#[test]
fn what_is_not_understood_is_dropped() {
    let mut g = Glossary::new();
    for body in ["", "G,a=1;x", "25a1", "25a1;x", "25a1;r;cp=zz;AA==", "25a1;q"] {
        assert_eq!(send(&mut g, body), None);
    }
    assert!(g.is_empty());
}

#[test]
fn commands_can_be_executed_directly() {
    let mut g = Glossary::new();
    let command = GlyphCommand::Register {
        cp: 0xE000,
        glyph: RegisteredGlyph::Glyf {
            glyf: vec![1],
            upm: 1000,
            sizing: SizingParams::defaults_for_upm(1000),
        },
        reply: ReplyMode::All,
    };
    let answer = execute(&mut g, command).unwrap();
    assert!(answer.ends_with(&format!(
        "reason={}\x1b\\",
        RegisterError::MalformedPayload.as_str()
    )));
    assert!(g.is_empty());
}
