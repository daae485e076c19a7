use base64::engine::general_purpose::STANDARD as BASE64;
use base64::Engine;
use wezterm_glyph_protocol::parse::{
    format_clear_error_out_of_namespace, format_clear_ok, format_query_response,
    format_register_error, format_register_ok, format_support_response, is_pua, parse,
    GlyphCommand, ParseError, QueryStatus, RegisterError, ReplyMode, MAX_PAYLOAD_BYTES,
    SUPPORTED_FORMATS,
};
use wezterm_glyph_protocol::sizing::{HAlign, Padding, SizeMode, VAlign};
use wezterm_glyph_protocol::{RegisteredGlyph, SizingParams};

fn b64(data: &[u8]) -> String {
    BASE64.encode(data)
}

/// The sizing of the `glyf` registration that `params` make.
fn sizing_of(params: &str) -> SizingParams {
    let body = format!("25a1;r;cp=E000;{params};{}", b64(&[1]));
    match parse(body.as_bytes()) {
        Ok(GlyphCommand::Register {
            glyph: RegisteredGlyph::Glyf { sizing, .. },
            ..
        }) => sizing,
        other => panic!("expected glyf register, got {other:?}"),
    }
}

#[test]
fn rejects_non_glyph_protocol() {
    assert_eq!(parse(b"G,a=1;x"), Err(ParseError::NotGlyphProtocol));
    assert_eq!(parse(b""), Err(ParseError::NotGlyphProtocol));
}

#[test]
fn pua_ranges() {
    for cp in [
        0xE000, 0xE0A0, 0xF8FF, 0xF_0000, 0xF_FFFD, 0x10_0000, 0x10_FFFD,
    ] {
        assert!(is_pua(cp), "{cp:x} should be PUA");
    }
    for cp in [0x61, 0x2D, 0x1F600, 0xFFFE, 0xF_FFFE, 0x10_FFFF] {
        assert!(!is_pua(cp), "{cp:x} should not be PUA");
    }
}

#[test]
fn parses_support() {
    assert_eq!(parse(b"25a1;s").unwrap(), GlyphCommand::Support);
    // unknown params ignored
    assert_eq!(parse(b"25a1;s;future=1").unwrap(), GlyphCommand::Support);
}

#[test]
fn parses_query() {
    assert_eq!(
        parse(b"25a1;q;cp=E0A0").unwrap(),
        GlyphCommand::Query { cp: 0xE0A0 }
    );
    // query accepts non-PUA codepoints (probing system coverage)
    assert_eq!(
        parse(b"25a1;q;cp=61").unwrap(),
        GlyphCommand::Query { cp: 0x61 }
    );
}

#[test]
fn query_rejects_surrogate_and_sequence() {
    assert!(matches!(
        parse(b"25a1;q;cp=D800"),
        Err(ParseError::Malformed(_))
    ));
    assert!(matches!(
        parse(b"25a1;q;cp=E0A0,E0A1"),
        Err(ParseError::Malformed(_))
    ));
}

#[test]
fn parses_register_glyf_default() {
    let payload = b64(&[1, 2, 3]);
    let body = format!("25a1;r;cp=E000;upm=1000;{payload}");
    assert_eq!(
        parse(body.as_bytes()).unwrap(),
        GlyphCommand::Register {
            cp: 0xE000,
            glyph: RegisteredGlyph::Glyf {
                glyf: vec![1, 2, 3],
                upm: 1000,
                sizing: SizingParams::defaults_for_upm(1000),
            },
            reply: ReplyMode::All,
        }
    );
}

#[test]
fn register_defaults_upm_and_fmt() {
    let body = format!("25a1;r;cp=E000;{}", b64(&[9]));
    match parse(body.as_bytes()).unwrap() {
        GlyphCommand::Register {
            glyph: RegisteredGlyph::Glyf { upm, .. },
            ..
        } => assert_eq!(upm, 1000),
        other => panic!("expected glyf register, got {other:?}"),
    }
}

#[test]
fn register_color_fmt_makes_color_payload() {
    let body = format!("25a1;r;cp=E000;fmt=colrv0;upm=2048;{}", b64(&[7, 7]));
    match parse(body.as_bytes()).unwrap() {
        GlyphCommand::Register {
            glyph: RegisteredGlyph::Color { container, upm, .. },
            ..
        } => {
            assert_eq!(container, vec![7, 7]);
            assert_eq!(upm, 2048);
        }
        other => panic!("expected color register, got {other:?}"),
    }
}

#[test]
fn register_colrv1_is_rejected() {
    // colrv1 is recognised but not advertised/rendered yet; it must be
    // rejected as malformed payload, honouring the reply level.
    let body = format!("25a1;r;cp=E000;fmt=colrv1;upm=1000;{}", b64(&[1]));
    assert_eq!(
        parse(body.as_bytes()),
        Err(ParseError::RegisterFailed {
            cp: 0xE000,
            reason: RegisterError::MalformedPayload,
            reply: ReplyMode::All,
        })
    );
    // colrv1 is not in the advertised format set.
    assert!(!SUPPORTED_FORMATS.contains(&"colrv1"));
    assert_eq!(SUPPORTED_FORMATS, ["glyf", "colrv0"]);
}

#[test]
fn register_parses_sizing_params() {
    let body = format!(
        "25a1;r;cp=E000;upm=1000;aw=600;lh=1200;width=2;size=contain;align=start,baseline;pad=0.1,0.2,0.3,0.4;{}",
        b64(&[1])
    );
    match parse(body.as_bytes()).unwrap() {
        GlyphCommand::Register {
            glyph: RegisteredGlyph::Glyf { sizing, .. },
            ..
        } => {
            assert_eq!(sizing.aw, 600);
            assert_eq!(sizing.lh, 1200);
            assert_eq!(sizing.width, 2);
            assert_eq!(sizing.size, SizeMode::Contain);
            assert_eq!(sizing.align_h, HAlign::Start);
            assert_eq!(sizing.align_v, VAlign::Baseline);
            assert_eq!(
                (
                    f32::from_bits(sizing.pad.top),
                    f32::from_bits(sizing.pad.right),
                    f32::from_bits(sizing.pad.bottom),
                    f32::from_bits(sizing.pad.left)
                ),
                (0.1, 0.2, 0.3, 0.4)
            );
        }
        other => panic!("expected glyf register, got {other:?}"),
    }
}

#[test]
fn register_sizing_defaults_and_bad_values_fall_back() {
    // No sizing params: everything takes its default (aw=lh=upm).
    let body = format!("25a1;r;cp=E000;upm=2048;{}", b64(&[1]));
    let GlyphCommand::Register {
        glyph: RegisteredGlyph::Glyf { sizing, .. },
        ..
    } = parse(body.as_bytes()).unwrap()
    else {
        panic!("expected glyf register");
    };
    assert_eq!((sizing.aw, sizing.lh), (2048, 2048));
    assert_eq!(sizing.size, SizeMode::Height);
    assert_eq!(
        (sizing.align_h, sizing.align_v),
        (HAlign::Center, VAlign::Center)
    );

    // Recognised params with bad values fall back to defaults, they do not
    // fail the registration.
    let body = format!(
        "25a1;r;cp=E000;upm=1000;aw=0;width=9;size=bogus;align=bad,worse;pad=oops;{}",
        b64(&[1])
    );
    let GlyphCommand::Register {
        glyph: RegisteredGlyph::Glyf { sizing, .. },
        ..
    } = parse(body.as_bytes()).unwrap()
    else {
        panic!("expected glyf register");
    };
    assert_eq!(sizing.aw, 1000, "aw=0 ignored, defaults to upm");
    assert_eq!(sizing.width, 1, "width=9 falls back to 1");
    assert_eq!(sizing.size, SizeMode::Height);
    assert_eq!(
        (sizing.align_h, sizing.align_v),
        (HAlign::Center, VAlign::Center)
    );
    assert_eq!(sizing.pad, Padding::default());
}

#[test]
fn register_rejects_non_pua() {
    let body = format!("25a1;r;cp=61;upm=1000;{}", b64(&[1]));
    assert_eq!(
        parse(body.as_bytes()),
        Err(ParseError::RegisterFailed {
            cp: 0x61,
            reason: RegisterError::OutOfNamespace,
            reply: ReplyMode::All,
        })
    );
}

#[test]
fn register_propagates_reply_on_failure() {
    let body = format!("25a1;r;cp=61;reply=0;upm=1000;{}", b64(&[1]));
    assert_eq!(
        parse(body.as_bytes()),
        Err(ParseError::RegisterFailed {
            cp: 0x61,
            reason: RegisterError::OutOfNamespace,
            reply: ReplyMode::Silent,
        })
    );
}

#[test]
fn register_reply_levels() {
    for (raw, want) in [
        ("0", ReplyMode::Silent),
        ("1", ReplyMode::All),
        ("2", ReplyMode::ErrorsOnly),
    ] {
        let body = format!("25a1;r;cp=E000;reply={raw};upm=1000;{}", b64(&[1]));
        match parse(body.as_bytes()).unwrap() {
            GlyphCommand::Register { reply, .. } => assert_eq!(reply, want),
            other => panic!("got {other:?}"),
        }
    }
    // unknown reply value falls back to All
    let body = format!("25a1;r;cp=E000;reply=9;upm=1000;{}", b64(&[1]));
    match parse(body.as_bytes()).unwrap() {
        GlyphCommand::Register { reply, .. } => assert_eq!(reply, ReplyMode::All),
        other => panic!("got {other:?}"),
    }
}

#[test]
fn register_bad_base64_is_malformed() {
    let body = b"25a1;r;cp=E000;upm=1000;$$$notb64";
    assert!(matches!(
        parse(body),
        Err(ParseError::RegisterFailed {
            reason: RegisterError::MalformedPayload,
            ..
        })
    ));
}

#[test]
fn register_oversized_is_too_large() {
    let body = format!(
        "25a1;r;cp=E000;upm=1000;{}",
        b64(&vec![0u8; MAX_PAYLOAD_BYTES + 1])
    );
    assert!(matches!(
        parse(body.as_bytes()),
        Err(ParseError::RegisterFailed {
            reason: RegisterError::PayloadTooLarge,
            ..
        })
    ));
}

#[test]
fn register_empty_payload_is_malformed() {
    assert!(matches!(
        parse(b"25a1;r;cp=E000;upm=1000;"),
        Err(ParseError::RegisterFailed {
            reason: RegisterError::MalformedPayload,
            ..
        })
    ));
    // no payload separator at all
    assert!(matches!(
        parse(b"25a1;r;cp=E000"),
        Err(ParseError::RegisterFailed {
            reason: RegisterError::MalformedPayload,
            ..
        })
    ));
}

#[test]
fn register_zero_or_bad_upm_rejected() {
    let body = format!("25a1;r;cp=E000;upm=0;{}", b64(&[1]));
    assert!(matches!(
        parse(body.as_bytes()),
        Err(ParseError::Malformed(_))
    ));
}

#[test]
fn register_unknown_fmt_rejected() {
    let body = format!("25a1;r;cp=E000;fmt=svg;{}", b64(&[1]));
    assert!(matches!(
        parse(body.as_bytes()),
        Err(ParseError::Malformed(_))
    ));
}

#[test]
fn clear_one_all_and_non_pua() {
    assert_eq!(parse(b"25a1;c").unwrap(), GlyphCommand::Clear { cp: None });
    assert_eq!(
        parse(b"25a1;c;cp=E000").unwrap(),
        GlyphCommand::Clear { cp: Some(0xE000) }
    );
    assert_eq!(parse(b"25a1;c;cp=61"), Err(ParseError::ClearOutOfNamespace));
}

#[test]
fn parser_never_panics_on_arbitrary_input() {
    // A hostile or truncated stream must never panic the parser; it may
    // only return Ok or Err. Sweep a range of adversarial byte patterns.
    let mut cases: Vec<Vec<u8>> = vec![
        vec![],
        b"25a1".to_vec(),
        b"25a1;".to_vec(),
        b"25a1;;".to_vec(),
        b"25a1;r".to_vec(),
        b"25a1;r;".to_vec(),
        b"25a1;r;cp=".to_vec(),
        b"25a1;r;cp=;".to_vec(),
        b"25a1;r;cp=ZZZZ;AAAA".to_vec(),
        b"25a1;q".to_vec(),
        b"25a1;q;cp=".to_vec(),
        b"25a1;c;cp".to_vec(),
        b"25a1;\x00\xff;cp=E000".to_vec(),
        b"25a1;r;cp=E000;pad=,,,,,,,;AA==".to_vec(),
        b"25a1;r;cp=E000;align=,;AA==".to_vec(),
        b"25a1;r;cp=E000;size=;aw=;lh=;width=;AA==".to_vec(),
    ];
    // Truncations of a valid register at every length.
    let valid = format!("25a1;r;cp=E000;upm=1000;{}", b64(&[1, 2, 3, 4]));
    for i in 0..=valid.len() {
        cases.push(valid.as_bytes()[..i].to_vec());
    }
    // Repeated separators and long junk.
    cases.push(vec![b';'; 4096]);
    cases.push([b"25a1;r;cp=E000;".as_ref(), &vec![b'x'; 4096]].concat());
    for c in cases {
        let _ = parse(&c); // must not panic
    }
}

#[test]
fn reply_emit_matrix() {
    assert!(ReplyMode::All.emit_success() && ReplyMode::All.emit_error());
    assert!(!ReplyMode::ErrorsOnly.emit_success() && ReplyMode::ErrorsOnly.emit_error());
    assert!(!ReplyMode::Silent.emit_success() && !ReplyMode::Silent.emit_error());
}

#[test]
fn reply_formatters() {
    assert_eq!(
        format_support_response(&SUPPORTED_FORMATS),
        "\x1b_25a1;s;fmt=glyf,colrv0\x1b\\"
    );
    assert_eq!(
        format_query_response(0xE0A0, QueryStatus::Both),
        "\x1b_25a1;q;cp=e0a0;status=system,glossary\x1b\\"
    );
    assert_eq!(
        format_query_response(0xE0A0, QueryStatus::Free),
        "\x1b_25a1;q;cp=e0a0;status=\x1b\\"
    );
    assert_eq!(
        format_register_ok(0xE000),
        "\x1b_25a1;r;cp=e000;status=0\x1b\\"
    );
    assert_eq!(
        format_register_error(0x61, RegisterError::OutOfNamespace),
        "\x1b_25a1;r;cp=61;status=1;reason=out_of_namespace\x1b\\"
    );
    assert_eq!(format_clear_ok(None), "\x1b_25a1;c;status=0\x1b\\");
    assert_eq!(
        format_clear_ok(Some(0xE000)),
        "\x1b_25a1;c;cp=e000;status=0\x1b\\"
    );
}

#[test]
fn every_word_is_spelled_out() {
    let statuses = [
        (QueryStatus::Free, ""),
        (QueryStatus::System, "system"),
        (QueryStatus::Glossary, "glossary"),
        (QueryStatus::Both, "system,glossary"),
    ];
    for (status, word) in statuses {
        assert_eq!(status.as_str(), word);
        assert_eq!(
            format_query_response(0xF0000, status),
            format!("\x1b_25a1;q;cp=f0000;status={word}\x1b\\")
        );
    }
    let reasons = [
        (RegisterError::OutOfNamespace, "out_of_namespace"),
        (RegisterError::CompositeUnsupported, "composite_unsupported"),
        (RegisterError::HintingUnsupported, "hinting_unsupported"),
        (RegisterError::MalformedPayload, "malformed_payload"),
        (RegisterError::PayloadTooLarge, "payload_too_large"),
    ];
    for (reason, word) in reasons {
        assert_eq!(reason.as_str(), word);
        assert_eq!(
            format_register_error(0xE0A0, reason),
            format!("\x1b_25a1;r;cp=e0a0;status=1;reason={word}\x1b\\")
        );
    }
    assert_eq!(
        format_clear_error_out_of_namespace(),
        "\x1b_25a1;c;status=1;reason=out_of_namespace\x1b\\"
    );
    assert_eq!(format_support_response(&[]), "\x1b_25a1;s;fmt=\x1b\\");
    assert_eq!(
        format_support_response(&["a", "", "c"]),
        "\x1b_25a1;s;fmt=a,,c\x1b\\"
    );
}

#[test]
fn every_framing_fault_has_its_message() {
    let faults: [(&[u8], &str); 14] = [
        (b"25a1", "missing verb separator"),
        (b"25a1 ;s", "missing verb separator"),
        (b"25a1;", "verb must be a single byte"),
        (b"25a1;ss", "verb must be a single byte"),
        (b"25a1;x", "unknown verb"),
        (b"25a1;q", "query missing cp"),
        (b"25a1;q;cp=1234567", "query cp invalid"),
        (b"25a1;q;cp=e000,e001", "cp must be a single codepoint"),
        (b"25a1;r;AA==", "register missing cp"),
        (b"25a1;r;cp=110000;AA==", "register cp invalid"),
        (b"25a1;r;cp=e000;fmt=svg;AA==", "register fmt unknown"),
        (b"25a1;r;cp=e000;upm=65536;AA==", "register upm invalid"),
        (b"25a1;r;cp=e000;upm=0;AA==", "register upm must be non-zero"),
        (b"25a1;c;cp=g", "clear cp invalid"),
    ];
    for (body, message) in faults {
        assert_eq!(parse(body), Err(ParseError::Malformed(message)));
    }
}

#[test]
fn verb_and_parameters_may_stand_among_blanks() {
    assert_eq!(parse(b"25a1; s\t").unwrap(), GlyphCommand::Support);
    assert_eq!(
        parse(b"25a1;q; cp = e0a0 \r\n").unwrap(),
        GlyphCommand::Query { cp: 0xE0A0 }
    );
    assert_eq!(parse(b" 25a1;s"), Err(ParseError::NotGlyphProtocol));
}

#[test]
fn codepoints_are_one_to_six_hex_digits() {
    for (raw, cp) in [
        ("0", 0),
        ("00e000", 0xE000),
        ("d7ff", 0xD7FF),
        ("DfFf", 0),
        ("e000", 0xE000),
        ("10ffff", 0x10_FFFF),
        ("110000", 0),
        ("0e0000a", 0),
        ("+e000", 0),
        ("", 0),
    ] {
        let body = format!("25a1;q;cp={raw}");
        let want = if cp != 0 || raw == "0" {
            Ok(GlyphCommand::Query { cp })
        } else {
            Err(ParseError::Malformed("query cp invalid"))
        };
        assert_eq!(parse(body.as_bytes()), want);
    }
}

#[test]
fn the_last_value_of_a_parameter_wins() {
    assert_eq!(
        parse(b"25a1;q;cp=e000;cp=e001").unwrap(),
        GlyphCommand::Query { cp: 0xE001 }
    );
    assert_eq!(sizing_of("aw=5;aw=7;lh=3").aw, 7);
    // a part without `=` sets nothing
    assert_eq!(sizing_of("aw=5;aw").aw, 5);
    // the value is all that follows the first `=`
    assert_eq!(sizing_of("size==cover").size, SizeMode::Height);
}

#[test]
fn unknown_parameters_change_nothing() {
    let plain = format!("25a1;r;cp=E000;aw=5;{}", b64(&[1, 2]));
    let more = format!("25a1;r;x=1;cp=E000;Aw=9;aw=5;future=;=3;{}", b64(&[1, 2]));
    assert_eq!(parse(plain.as_bytes()), parse(more.as_bytes()));
    assert_eq!(
        parse(b"25a1;c;cp=E000;x=1").unwrap(),
        GlyphCommand::Clear { cp: Some(0xE000) }
    );
}

#[test]
fn extents_are_decimal_and_not_zero() {
    assert_eq!(sizing_of("upm=900;aw= 65535 ").aw, 65535);
    assert_eq!(sizing_of("upm=900;aw=65536").aw, 900);
    assert_eq!(sizing_of("upm=900;aw=99999999999999999999").aw, 900);
    assert_eq!(sizing_of("upm=900;lh=-1").lh, 900);
    assert_eq!(sizing_of("upm=900;lh=").lh, 900);
    assert_eq!(sizing_of("upm=900;lh=0012").lh, 12);
}

#[test]
fn namespace_is_checked_before_all_else() {
    // Format, units and payload are all bad, but the codepoint comes first.
    for rest in ["fmt=svg;upm=0;$$", "fmt=colrv1;$$", ";"] {
        let body = format!("25a1;r;cp=41;reply=2;{rest}");
        assert_eq!(
            parse(body.as_bytes()),
            Err(ParseError::RegisterFailed {
                cp: 0x41,
                reason: RegisterError::OutOfNamespace,
                reply: ReplyMode::ErrorsOnly,
            })
        );
    }
}

#[test]
fn payloads_come_back_byte_for_byte() {
    let mut data: Vec<u8> = Vec::new();
    for i in 0..600u32 {
        data.push((i * 7 % 256) as u8);
        let body = format!("25a1;r;cp=F0000;{}", b64(&data));
        match parse(body.as_bytes()) {
            Ok(GlyphCommand::Register {
                cp: 0xF0000,
                glyph: RegisteredGlyph::Glyf { glyf, .. },
                ..
            }) => assert_eq!(glyf, data),
            other => panic!("got {other:?}"),
        }
    }
}

#[test]
fn payloads_are_strict_base64() {
    // padding missing, in the wrong place, or too much; stray trailing bits;
    // a symbol of the URL-safe alphabet; a blank inside
    for text in ["AA", "AA=", "A===", "AA==AA==", "AB==", "AAB=", "A-A=", "AA =", "===="] {
        let body = format!("25a1;r;cp=E000;{text}");
        assert_eq!(
            parse(body.as_bytes()),
            Err(ParseError::RegisterFailed {
                cp: 0xE000,
                reason: RegisterError::MalformedPayload,
                reply: ReplyMode::All,
            }),
            "{text}"
        );
    }
    // blanks around it are ignored
    let body = "25a1;r;cp=E000; +/8= \n";
    match parse(body.as_bytes()) {
        Ok(GlyphCommand::Register {
            glyph: RegisteredGlyph::Glyf { glyf, .. },
            ..
        }) => assert_eq!(glyf, vec![0xfb, 0xff]),
        other => panic!("got {other:?}"),
    }
}

#[test]
fn the_largest_payload_is_accepted() {
    let body = format!("25a1;r;cp=E000;{}", b64(&vec![0u8; MAX_PAYLOAD_BYTES]));
    assert!(parse(body.as_bytes()).is_ok());
}

#[test]
fn reply_codepoints_read_back() {
    for cp in [0, 0xf, 0x10, 0xd7ff, 0xe000, 0xfffff, 0x10_fffd] {
        let reply = format_register_ok(cp);
        let digits = reply
            .strip_prefix("\x1b_25a1;r;cp=")
            .and_then(|r| r.strip_suffix(";status=0\x1b\\"))
            .unwrap();
        assert_eq!(digits, format!("{cp:x}"));
        let body = format!("25a1;q;cp={digits}");
        assert_eq!(parse(body.as_bytes()), Ok(GlyphCommand::Query { cp }));
    }
}

#[test]
fn query_replies_parse_as_the_query() {
    for cp in [0, 0x61, 0xd7ff, 0xe000, 0x10_ffff] {
        for status in [
            QueryStatus::Free,
            QueryStatus::System,
            QueryStatus::Glossary,
            QueryStatus::Both,
        ] {
            let reply = format_query_response(cp, status);
            let bytes = reply.as_bytes();
            assert_eq!(bytes[..2], [0x1b, b'_']);
            assert_eq!(bytes[bytes.len() - 2..], [0x1b, b'\\']);
            assert_eq!(
                parse(&bytes[2..bytes.len() - 2]),
                Ok(GlyphCommand::Query { cp })
            );
        }
    }
}

#[test]
fn a_sizing_parameter_sets_its_own_fields_only() {
    let start = sizing_of("aw=1;lh=2;width=2;size=cover;align=end,end;pad=0.1");
    for (key, bad) in [
        ("aw", "x"),
        ("lh", "=;"),
        ("width", "9"),
        ("size", "\t"),
        ("align", ",,,"),
        ("pad", "-1e9999"),
    ] {
        let changed = sizing_of(&format!(
            "aw=1;lh=2;width=2;size=cover;align=end,end;pad=0.1;{key}={bad}"
        ));
        let d = SizingParams::defaults_for_upm(1000);
        let mut want = start;
        match key {
            "aw" => want.aw = d.aw,
            "lh" => want.lh = d.lh,
            "width" => want.width = d.width,
            "size" => want.size = d.size,
            "align" => (want.align_h, want.align_v) = (d.align_h, d.align_v),
            _ => want.pad = d.pad,
        }
        assert_eq!(changed, want, "{key}");
    }
}

#[test]
fn reply_mode_default_is_all() {
    assert_eq!(ReplyMode::default(), ReplyMode::All);
}
