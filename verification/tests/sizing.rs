use wezterm_glyph_protocol::fraction::{read_fraction, sum_reaches_one, ONE};
use wezterm_glyph_protocol::sizing::{
    parse_align, parse_pad, parse_width, HAlign, Padding, SizeMode, VAlign,
};
use wezterm_glyph_protocol::SizingParams;

/// The insets as numbers: top, right, bottom, left.
fn insets(p: Padding) -> (f32, f32, f32, f32) {
    (
        f32::from_bits(p.top),
        f32::from_bits(p.right),
        f32::from_bits(p.bottom),
        f32::from_bits(p.left),
    )
}

/// A fraction as the standard library reads it.
fn expected_fraction(text: &str) -> Option<f32> {
    let v: f32 = text.parse().ok()?;
    if !v.is_finite() {
        return None;
    }
    Some(v.clamp(0.0, 1.0))
}

fn check_fraction(text: &str) {
    assert_eq!(
        read_fraction(text.as_bytes()).map(f32::from_bits),
        expected_fraction(text),
        "{text}"
    );
}

/// A small generator of numbers without a pattern.
fn scrambled(seed: &mut u64) -> u64 {
    *seed ^= *seed << 13;
    *seed ^= *seed >> 7;
    *seed ^= *seed << 17;
    *seed
}

#[test]
fn size_mode_defaults_on_unknown() {
    assert_eq!(SizeMode::from_wire(b"advance"), SizeMode::Advance);
    assert_eq!(SizeMode::from_wire(b"stretch"), SizeMode::Stretch);
    assert_eq!(SizeMode::from_wire(b"bogus"), SizeMode::Height);
    assert_eq!(SizeMode::from_wire(b""), SizeMode::Height);
}

#[test]
fn align_pair_and_defaults() {
    assert_eq!(
        parse_align(b"start,baseline"),
        (HAlign::Start, VAlign::Baseline)
    );
    assert_eq!(parse_align(b"end"), (HAlign::End, VAlign::Center));
    // unknown h falls back to center, present v honored
    assert_eq!(parse_align(b"bogus,end"), (HAlign::Center, VAlign::End));
    assert_eq!(parse_align(b""), (HAlign::Center, VAlign::Center));
}

#[test]
fn width_only_one_or_two() {
    assert_eq!(parse_width(b"1"), 1);
    assert_eq!(parse_width(b"2"), 2);
    assert_eq!(parse_width(b"3"), 1);
    assert_eq!(parse_width(b"x"), 1);
}

#[test]
fn pad_parses_clamps_and_defaults() {
    let p = insets(parse_pad(b"0.1,0.2,0.3,0.4"));
    assert_eq!(p, (0.1, 0.2, 0.3, 0.4));
    // missing trailing components default to 0
    let p = insets(parse_pad(b"0.5"));
    assert_eq!(p, (0.5, 0.0, 0.0, 0.0));
    // out-of-range clamps; garbage component → 0
    let p = insets(parse_pad(b"2.0,x,-1,0.5"));
    assert_eq!(p, (1.0, 0.0, 0.0, 0.5));
}

#[test]
fn defaults_for_upm_uses_upm_for_aw_lh() {
    let s = SizingParams::defaults_for_upm(2048);
    assert_eq!(s.aw, 2048);
    assert_eq!(s.lh, 2048);
    assert_eq!(s.width, 1);
    assert_eq!(s.size, SizeMode::Height);
    assert_eq!((s.align_h, s.align_v), (HAlign::Center, VAlign::Center));
    assert_eq!(s.pad, Padding::default());
}

#[test]
fn every_name_has_its_meaning() {
    for (raw, mode) in [
        ("height", SizeMode::Height),
        ("advance", SizeMode::Advance),
        ("contain", SizeMode::Contain),
        ("cover", SizeMode::Cover),
        ("stretch", SizeMode::Stretch),
        ("Cover", SizeMode::Height),
    ] {
        assert_eq!(SizeMode::from_wire(raw.as_bytes()), mode);
    }
    for (raw, h, v) in [
        ("start", HAlign::Start, VAlign::Start),
        ("center", HAlign::Center, VAlign::Center),
        ("end", HAlign::End, VAlign::End),
        ("baseline", HAlign::Center, VAlign::Baseline),
    ] {
        assert_eq!(HAlign::from_wire(raw.as_bytes()), h);
        assert_eq!(VAlign::from_wire(raw.as_bytes()), v);
        assert_eq!(parse_align(format!("{raw},{raw},end").as_bytes()), (h, v));
    }
    assert_eq!(SizeMode::default(), SizeMode::Height);
    assert_eq!(HAlign::default(), HAlign::Center);
    assert_eq!(VAlign::default(), VAlign::Center);
}

#[test]
fn insets_may_stand_among_white_space() {
    assert_eq!(
        insets(parse_pad("\u{a0}0.25\u{3000}, .5\t,\u{85}1.\u{2028},+0.75".as_bytes())),
        (0.25, 0.5, 1.0, 0.75)
    );
    // a zero-width space is no white space; neither are bytes that are no text
    assert_eq!(
        insets(parse_pad("\u{200b}0.25,0.5".as_bytes())),
        (0.0, 0.5, 0.0, 0.0)
    );
    assert_eq!(
        insets(parse_pad(b"\xff0.25,0.5,,\xc2")),
        (0.0, 0.5, 0.0, 0.0)
    );
}

#[test]
fn fractions_read_as_the_standard_library_reads_them() {
    for text in [
        "0", "1", "1.", ".5", ".", "", "+", "-", "+.", "e5", "1e", "1e+", "1e-1", "1E-1", "1e+0",
        "0.1", "0.3", "0.99999997", "0.99999998", "0.999999970197678", "1.0000001", "2", "-0.5",
        "-0", "nan", "inf", "-inf", "infinity", "1e38", "3.4028235e38", "3.4028236e38", "1e39",
        "1e400", "-1e39", "1e-39", "1e-45", "7e-46", "7.1e-46", "1e-46", "1e-400", "1e-99999999999",
        "0e99999999999", "1e99999999999999999999999999999999999999999", "0.1f", "1_0", "0x1", " 1",
        "1 ", "--1", "+-1", "1e5.0", "5e-1", "500e-3", "0.0000005e6", "00000.5", "1..2",
        "0.5000000298023223876953125", "0.50000002980232238769531250000000001",
        "0.5000000298023223876953124999999999", "0.50000008940696716308593750",
        "1.1754942e-38", "1.1754943e-38", "1.17549429e-38",
    ] {
        check_fraction(text);
    }
    let mut seed: u64 = 0x2545_f491_4f6c_dd1d;
    for _ in 0..20000 {
        let a = scrambled(&mut seed);
        let b = scrambled(&mut seed);
        let whole = a % 3 * (a >> 8) % 1000;
        let text = match b % 4 {
            0 => format!("0.{:09}", a % 1_000_000_000),
            1 => format!("{whole}.{}e-{}", a % 100_000_007, (b >> 4) % 60),
            2 => format!("{}e-{}", a, (b >> 4) % 70),
            _ => format!(".{:019}{:019}", a, b),
        };
        check_fraction(&text);
    }
}

#[test]
fn every_short_fraction_rounds_to_nearest() {
    for i in 0..=10000u32 {
        check_fraction(&format!("{}.{:04}", i / 10000, i % 10000));
    }
}

#[test]
fn sums_are_rounded_before_they_are_held_against_one() {
    let mut seed: u64 = 0x9e37_79b9_7f4a_7c15;
    let mut cases: Vec<(u32, u32)> = vec![
        (0, 0),
        (ONE, 0),
        (0, ONE),
        (ONE - 1, 0),
        (ONE - 1, 1),
        (0x3f00_0000, 0x3f00_0000),
        (0x3f00_0000, 0x3eff_ffff),
        (0x3eff_ffff, 0x3eff_ffff),
        // one minus its last place, and half of that place, and less
        (ONE - 1, 0x3300_0000),
        (ONE - 1, 0x32ff_ffff),
        (ONE - 2, 0x33c0_0000),
        (ONE - 2, 0x33bf_ffff),
        (0x3f19_999a, 0x3ecc_cccd),
        (0x3f19_999a, 0x3ecc_cccc),
    ];
    for _ in 0..20000 {
        let a = (scrambled(&mut seed) % (ONE as u64 + 1)) as u32;
        let b = (1.0 - f32::from_bits(a)).to_bits();
        for c in [b, b.saturating_sub(1), (b + 1).min(ONE), a] {
            cases.push((a, c));
            cases.push((c, a));
        }
    }
    for (a, b) in cases {
        assert_eq!(
            sum_reaches_one(a, b),
            f32::from_bits(a) + f32::from_bits(b) >= 1.0,
            "{a:x} {b:x}"
        );
    }
}
