//! Laws of requests and of the replies to them.

use crate::bytes;
use crate::colr;
use crate::glossary::GlyphView;
use crate::laws::wire;
use crate::parse;
use crate::parse::{CommandView, ParseError, QueryStatus, RegisterError, ReplyMode};
use crate::payload;
use crate::sizing;
use crate::sizing::{HAlign, SizeMode, SizingParams, VAlign};
use vstd::prelude::*;
use vstd::string::*;
use vstd::utf8::*;

verus! {

// ---- registrations -------------------------------------------------------

/// Whether `value` is the extent that the parameter `raw` asks for: the number
/// that it writes, if that is not zero, and else `upm`.
pub open spec fn extent_asked_for(raw: Option<Seq<u8>>, upm: u16, value: u16) -> bool {
    match raw {
        None => value == upm,
        Some(raw) => {
            &&& parse::decimal_u16(raw) is None ==> value == upm
            &&& parse::decimal_u16(raw) == Some(0u16) ==> value == upm
            &&& forall|n: u16| n > 0 && #[trigger] parse::decimal_u16(raw) == Some(n) ==> value
                == n
        },
    }
}

/// Whether `sizing` is what the parameters `list` ask for.
pub open spec fn sizing_asked_for(list: Seq<u8>, upm: u16, sizing: SizingParams) -> bool {
    &&& extent_asked_for(parse::param(list, "aw".spec_bytes()), upm, sizing.aw)
    &&& extent_asked_for(parse::param(list, "lh".spec_bytes()), upm, sizing.lh)
    &&& match parse::param(list, "width".spec_bytes()) {
        None => sizing.width == 1,
        Some(raw) => sizing.width == if raw == seq![0x32u8] {
            2
        } else {
            1int
        },
    }
    &&& match parse::param(list, "size".spec_bytes()) {
        None => sizing.size == SizeMode::Height,
        Some(raw) => {
            &&& forall|mode: SizeMode| raw == #[trigger] wire::size_name(mode) ==> sizing.size
                == mode
            &&& sizing.size != SizeMode::Height ==> raw == wire::size_name(sizing.size)
        },
    }
    &&& match parse::param(list, "align".spec_bytes()) {
        None => sizing.align_h == HAlign::Center && sizing.align_v == VAlign::Center,
        Some(raw) => (sizing.align_h, sizing.align_v) == sizing::alignment(raw),
    }
    &&& match parse::param(list, "pad".spec_bytes()) {
        None => sizing.pad.top == 0 && sizing.pad.right == 0 && sizing.pad.bottom == 0
            && sizing.pad.left == 0,
        Some(raw) => sizing.pad == sizing::padding(raw),
    }
}

/// Whether `reply` is the reply level that the parameters `list` ask for: none
/// at all for `0`, failures only for `2`, and else everything.
pub open spec fn reply_asked_for(list: Seq<u8>, reply: ReplyMode) -> bool {
    match parse::param(list, "reply".spec_bytes()) {
        None => reply == ReplyMode::All,
        Some(raw) => {
            &&& raw == seq![0x30u8] ==> reply == ReplyMode::Silent
            &&& raw == seq![0x32u8] ==> reply == ReplyMode::ErrorsOnly
            &&& raw != seq![0x30u8] && raw != seq![0x32u8] ==> reply == ReplyMode::All
        },
    }
}

proof fn lemma_reply_is_asked_for(list: Seq<u8>)
    ensures
        reply_asked_for(list, parse::requested_reply(list)),
{
    if let Some(raw) = parse::param(list, "reply".spec_bytes()) {
        wire::lemma_reply_names(raw);
    }
}

/// What an accepted registration holds is what the request asks for: the
/// codepoint, the payload byte for byte, as the format that is named, with the
/// units-per-em, the sizing and the reply level of its parameters. Of a color
/// payload it is noted whether it uses the foreground.
pub proof fn lemma_registered_as_asked_for(
    list: Seq<u8>,
    payload: Option<Seq<u8>>,
    cp: u32,
    glyph: GlyphView,
    reply: ReplyMode,
)
    requires
        parse::registration(list, payload) == Ok::<CommandView, ParseError>(
            CommandView::Register { cp, glyph, reply },
        ),
    ensures
        parse::param(list, "cp".spec_bytes()) matches Some(raw) && parse::codepoint(raw) == Some(
            cp,
        ) && !raw.contains(bytes::COMMA),
        payload matches Some(data) && 0 < data.len() <= 65536,
        match glyph {
            GlyphView::Glyf { glyf, upm, sizing } => {
                &&& glyf == payload.unwrap()
                &&& parse::param(list, "fmt".spec_bytes()) is None || parse::param(
                    list,
                    "fmt".spec_bytes(),
                ) == Some("glyf".spec_bytes())
                &&& sizing_asked_for(list, upm, sizing)
            },
            GlyphView::Color { container, upm, sizing, uses_fg } => {
                &&& container == payload.unwrap()
                &&& parse::param(list, "fmt".spec_bytes()) == Some("colrv0".spec_bytes())
                &&& sizing_asked_for(list, upm, sizing)
                &&& uses_fg == colr::payload_references_foreground(container)
            },
        },
        ({
            let upm = match glyph {
                GlyphView::Glyf { upm, .. } => upm,
                GlyphView::Color { upm, .. } => upm,
            };
            &&& upm > 0
            &&& match parse::param(list, "upm".spec_bytes()) {
                None => upm == 1000,
                Some(raw) => parse::decimal_u16(raw) == Some(upm),
            }
        }),
        reply_asked_for(list, reply),
{
    let upm = match glyph {
        GlyphView::Glyf { upm, .. } => upm,
        GlyphView::Color { upm, .. } => upm,
    };
    let sz = match glyph {
        GlyphView::Glyf { sizing, .. } => sizing,
        GlyphView::Color { sizing, .. } => sizing,
    };
    assert(sz == parse::requested_sizing(list, upm));
    lemma_sizing_is_asked_for(list, upm);
    lemma_reply_is_asked_for(list);
}

proof fn lemma_sizing_is_asked_for(list: Seq<u8>, upm: u16)
    ensures
        sizing_asked_for(list, upm, parse::requested_sizing(list, upm)),
{
    let sz = parse::requested_sizing(list, upm);
    if let Some(raw) = parse::param(list, "width".spec_bytes()) {
        wire::lemma_width_names(raw);
    }
    if let Some(raw) = parse::param(list, "size".spec_bytes()) {
        assert forall|mode: SizeMode| raw == #[trigger] wire::size_name(mode) implies sz.size
            == mode by {
            wire::lemma_size_names(mode, raw);
        }
        wire::lemma_size_names(SizeMode::Height, raw);
    }
}

/// The sizing that a glyph was registered with.
pub open spec fn sizing_of(glyph: GlyphView) -> SizingParams {
    match glyph {
        GlyphView::Glyf { sizing, .. } => sizing,
        GlyphView::Color { sizing, .. } => sizing,
    }
}

/// A glyph's sizing does not depend on its format: two accepted requests with
/// the same sizing parameters and units-per-em are sized alike.
pub proof fn lemma_sizing_ignores_format(
    list: Seq<u8>,
    other: Seq<u8>,
    payload: Option<Seq<u8>>,
    other_payload: Option<Seq<u8>>,
)
    requires
        parse::registration(list, payload) is Ok,
        parse::registration(other, other_payload) is Ok,
        parse::param(list, "upm".spec_bytes()) == parse::param(other, "upm".spec_bytes()),
        parse::param(list, "aw".spec_bytes()) == parse::param(other, "aw".spec_bytes()),
        parse::param(list, "lh".spec_bytes()) == parse::param(other, "lh".spec_bytes()),
        parse::param(list, "width".spec_bytes()) == parse::param(other, "width".spec_bytes()),
        parse::param(list, "size".spec_bytes()) == parse::param(other, "size".spec_bytes()),
        parse::param(list, "align".spec_bytes()) == parse::param(other, "align".spec_bytes()),
        parse::param(list, "pad".spec_bytes()) == parse::param(other, "pad".spec_bytes()),
    ensures
        ({
            &&& parse::registration(list, payload)->Ok_0 matches CommandView::Register {
                glyph: a,
                ..
            }
            &&& parse::registration(other, other_payload)->Ok_0 matches CommandView::Register {
                glyph: b,
                ..
            }
            &&& sizing_of(a) == sizing_of(b)
        }),
{
}

/// Whether the parameters `list` name an advertised format, or none, and
/// units-per-em that are a number and not zero, or none.
pub open spec fn format_and_upm_stand(list: Seq<u8>) -> bool {
    &&& match parse::param(list, "fmt".spec_bytes()) {
        None => true,
        Some(raw) => raw == "glyf".spec_bytes() || raw == "colrv0".spec_bytes(),
    }
    &&& match parse::param(list, "upm".spec_bytes()) {
        None => true,
        Some(raw) => parse::decimal_u16(raw) is Some && parse::decimal_u16(raw) != Some(0u16),
    }
}

/// What becomes of a request that names a private-use codepoint, an advertised
/// format and units-per-em is decided by its payload alone: it is refused where
/// there is none or an empty one, or one that is too large, and else accepted.
pub proof fn lemma_payload_decides(list: Seq<u8>, cp: u32, payload: Option<Seq<u8>>)
    requires
        parse::param(list, "cp".spec_bytes()) matches Some(raw) && parse::codepoint(raw) == Some(
            cp,
        ) && !raw.contains(bytes::COMMA),
        parse::private_use(cp),
        format_and_upm_stand(list),
    ensures
        match parse::registration(list, payload) {
            Ok(CommandView::Register { cp: at, .. }) => {
                &&& at == cp
                &&& payload matches Some(data)
                &&& 0 < data.len() <= 65536
            },
            Ok(_) => false,
            Err(ParseError::RegisterFailed { cp: at, reason, .. }) => {
                &&& at == cp
                &&& reason == RegisterError::PayloadTooLarge <==> (payload matches Some(data)
                    && data.len() > 65536)
                &&& reason == RegisterError::MalformedPayload <==> (payload matches Some(data)
                    ==> data.len() == 0)
            },
            Err(_) => false,
        },
{
    parse::lemma_format_names_differ();
}

/// A registration that is refused for a reason is refused for one that holds, at
/// the codepoint and with the reply level that were asked for.
pub proof fn lemma_refused_for_a_reason(
    list: Seq<u8>,
    payload: Option<Seq<u8>>,
    cp: u32,
    reason: RegisterError,
    reply: ReplyMode,
)
    requires
        parse::registration(list, payload) == Err::<CommandView, ParseError>(
            ParseError::RegisterFailed { cp, reason, reply },
        ),
    ensures
        parse::param(list, "cp".spec_bytes()) matches Some(raw) && parse::codepoint(raw) == Some(
            cp,
        ),
        reason == RegisterError::OutOfNamespace <==> !parse::private_use(cp),
        reason == RegisterError::PayloadTooLarge ==> format_and_upm_stand(list) && (
        payload matches Some(data) && data.len() > 65536),
        reason == RegisterError::MalformedPayload ==> parse::param(list, "fmt".spec_bytes())
            == Some("colrv1".spec_bytes()) || (format_and_upm_stand(list) && (payload matches Some(
            data,
        ) ==> data.len() == 0)),
        reason != RegisterError::CompositeUnsupported,
        reason != RegisterError::HintingUnsupported,
        reply_asked_for(list, reply),
{
    parse::lemma_format_names_differ();
    lemma_reply_is_asked_for(list);
}

/// A registration is malformed exactly where its codepoint is missing or is not
/// one, or else where the codepoint is private-use and the format is unknown, or
/// else the units-per-em are no number or zero. Each is said of it.
pub proof fn lemma_malformed_registrations(list: Seq<u8>, payload: Option<Seq<u8>>)
    ensures
        ({
            let r = parse::registration(list, payload);
            let at = match parse::param(list, "cp".spec_bytes()) {
                None => None,
                Some(raw) => if raw.contains(bytes::COMMA) {
                    None
                } else {
                    parse::codepoint(raw)
                },
            };
            let fmt = parse::param(list, "fmt".spec_bytes());
            let upm = match parse::param(list, "upm".spec_bytes()) {
                None => Some(1000u16),
                Some(raw) => parse::decimal_u16(raw),
            };
            let known = fmt is None || fmt == Some("glyf".spec_bytes()) || fmt == Some(
                "colrv0".spec_bytes(),
            );
            &&& parse::param(list, "cp".spec_bytes()) is None <==> r == malformed(
                "register missing cp",
            )
            &&& (parse::param(list, "cp".spec_bytes()) matches Some(raw) && raw.contains(
                bytes::COMMA,
            )) ==> r == malformed("cp must be a single codepoint")
            &&& (parse::param(list, "cp".spec_bytes()) matches Some(raw) && !raw.contains(
                bytes::COMMA,
            ) && parse::codepoint(raw) is None) ==> r == malformed("register cp invalid")
            &&& (at matches Some(cp) && parse::private_use(cp) && !known && fmt != Some(
                "colrv1".spec_bytes(),
            )) ==> r == malformed("register fmt unknown")
            &&& (at matches Some(cp) && parse::private_use(cp) && known && upm is None) ==> r
                == malformed("register upm invalid")
            &&& (at matches Some(cp) && parse::private_use(cp) && known && upm == Some(0u16))
                ==> r == malformed("register upm must be non-zero")
            &&& r matches Err(ParseError::Malformed(_)) ==> at is None || !known || upm is None
                || upm == Some(0u16)
        }),
{
    parse::lemma_format_names_differ();
    reveal_strlit("register missing cp");
    reveal_strlit("cp must be a single codepoint");
    reveal_strlit("register cp invalid");
    reveal_strlit("register fmt unknown");
    reveal_strlit("register upm invalid");
    reveal_strlit("register upm must be non-zero");
    assert("register missing cp"@.len() == 19);
    assert("cp must be a single codepoint"@.len() == 29);
    assert("register cp invalid"@[9] == 'c');
    assert("register missing cp"@[9] == 'm');
    assert("register fmt unknown"@.len() == 20);
    assert("register upm invalid"@.len() == 20);
    assert("register upm must be non-zero"@[0] == 'r');
    assert("cp must be a single codepoint"@[0] == 'c');
    assert("register upm must be non-zero"@.len() == 29);
}

/// The outcome of a body that cannot be understood, and what is wrong with it.
pub open spec fn malformed(message: &'static str) -> Result<CommandView, ParseError> {
    Err(ParseError::Malformed(message))
}

/// Of a registration's body the text behind the last `;` is the payload, blanks
/// around it ignored: the bytes whose base64 it is, and none where it is the
/// base64 of nothing at all. Without a `;` there is an empty one.
pub proof fn lemma_payload_text(
    list: Seq<u8>,
    a: Seq<u8>,
    text: Seq<u8>,
    b: Seq<u8>,
    data: Seq<u8>,
)
    requires
        wire::all_blank(a),
        wire::all_blank(b),
        wire::no_blank_ends(text),
        !text.contains(bytes::SEMICOLON),
    ensures
        payload::base64_encoding(data) == text ==> parse::register(
            list + seq![0x3bu8] + (a + text + b),
        ) == parse::registration(list, Some(data)),
        (forall|any: Seq<u8>| #[trigger] payload::base64_encoding(any) != text) ==> parse::register(
            list + seq![0x3bu8] + (a + text + b),
        ) == parse::registration(list, None),
        !list.contains(0x3bu8) ==> parse::register(list) == parse::registration(
            list,
            Some(Seq::empty()),
        ),
{
    let tail = a + text + b;
    assert(!tail.contains(bytes::SEMICOLON)) by {
        lemma_no_separator(a, text, b);
    }
    bytes::lemma_halves_at_last(list, tail, bytes::SEMICOLON);
    wire::lemma_blanks_around_are_trimmed(a, text, b);
    payload::lemma_decoding_inverts_encoding(data);
    if !list.contains(0x3bu8) {
        wire::lemma_split_at_separator(list, tail, bytes::SEMICOLON);
        let none = Seq::<u8>::empty();
        assert(bytes::trimmed(none) == none);
        assert(payload::base64_encoding(none) == none);
        payload::lemma_decoding_inverts_encoding(none);
    }
}

proof fn lemma_no_separator(a: Seq<u8>, word: Seq<u8>, b: Seq<u8>)
    requires
        wire::all_blank(a),
        wire::all_blank(b),
        !word.contains(bytes::SEMICOLON),
    ensures
        !(a + word + b).contains(bytes::SEMICOLON),
{
    let all = a + word + b;
    if all.contains(bytes::SEMICOLON) {
        let i = all.index_of(bytes::SEMICOLON);
        if i < a.len() {
            assert(all[i] == a[i]);
        } else if i < a.len() + word.len() {
            assert(all[i] == word[i - a.len()]);
            assert(word.contains(all[i]));
        } else {
            assert(all[i] == b[i - a.len() - word.len()]);
        }
    }
}

// ---- queries and clears --------------------------------------------------

/// A query is of the codepoint that its parameter names, private-use or not, and
/// there is one exactly where the parameter names one.
pub proof fn lemma_queries(list: Seq<u8>, cp: u32)
    ensures
        ({
            let r = parse::query(list);
            let at = parse::param(list, "cp".spec_bytes());
            &&& r == Ok::<CommandView, ParseError>(CommandView::Query { cp }) <==> (
            at matches Some(raw) && !raw.contains(0x2cu8) && parse::codepoint(raw) == Some(cp))
            &&& r matches Ok(command) ==> command is Query
            &&& at is None ==> r == malformed("query missing cp")
            &&& (at matches Some(raw) && raw.contains(0x2cu8)) ==> r == malformed(
                "cp must be a single codepoint",
            )
            &&& (at matches Some(raw) && !raw.contains(0x2cu8) && parse::codepoint(raw) is None)
                ==> r == malformed("query cp invalid")
        }),
{
}

/// A clear without a codepoint is of everything, and with one it is of that one,
/// which has to be private-use.
pub proof fn lemma_clears(list: Seq<u8>, cp: u32)
    ensures
        ({
            let r = parse::clearing(list);
            let at = parse::param(list, "cp".spec_bytes());
            &&& r == Ok::<CommandView, ParseError>(CommandView::Clear { cp: None }) <==> at is None
            &&& r == Ok::<CommandView, ParseError>(CommandView::Clear { cp: Some(cp) }) <==> (
            at matches Some(raw) && !raw.contains(0x2cu8) && parse::codepoint(raw) == Some(cp)
                && parse::private_use(cp))
            &&& r matches Ok(command) ==> command is Clear
            &&& r == Err::<CommandView, ParseError>(ParseError::ClearOutOfNamespace) <==> (
            at matches Some(raw) && !raw.contains(0x2cu8) && (parse::codepoint(raw) matches Some(
                named,
            ) && !parse::private_use(named)))
            &&& (at matches Some(raw) && raw.contains(0x2cu8)) ==> r == malformed(
                "cp must be a single codepoint",
            )
            &&& (at matches Some(raw) && !raw.contains(0x2cu8) && parse::codepoint(raw) is None)
                ==> r == malformed("clear cp invalid")
        }),
{
}

/// A body is of this protocol exactly where it begins with the identifier, and
/// can be understood only where a `;` follows.
pub proof fn lemma_identifier(body: Seq<u8>)
    ensures
        ({
            let ours = body.len() >= 4 && body[0] == 0x32 && body[1] == 0x35 && body[2] == 0x61
                && body[3] == 0x31;
            &&& parse::parsed(body) == Err::<CommandView, ParseError>(ParseError::NotGlyphProtocol)
                <==> !ours
            &&& ours && (body.len() == 4 || body[4] != 0x3b) ==> parse::parsed(body) == malformed(
                "missing verb separator",
            )
        }),
{
    let ours = body.len() >= 4 && body[0] == 0x32 && body[1] == 0x35 && body[2] == 0x61 && body[3]
        == 0x31;
    if body.len() >= 4 {
        let front = body.take(4);
        assert(front[0] == body[0] && front[1] == body[1] && front[2] == body[2] && front[3]
            == body[3]);
        assert(ours ==> front =~= parse::PREFIX@);
        assert(front == parse::PREFIX@ ==> ours);
    }
}

/// Whether `r` is what the verb `verb` asks for, where `rest` follows it.
pub open spec fn asked_by_verb(
    r: Result<CommandView, ParseError>,
    verb: Seq<u8>,
    rest: Seq<u8>,
) -> bool {
    &&& verb == seq![0x73u8] ==> r == Ok::<CommandView, ParseError>(CommandView::Support)
    &&& verb == seq![0x71u8] ==> r == parse::query(rest)
    &&& verb == seq![0x72u8] ==> r == parse::register(rest)
    &&& verb == seq![0x63u8] ==> r == parse::clearing(rest)
    &&& verb != seq![0x73u8] && verb != seq![0x71u8] && verb != seq![0x72u8] && verb
        != seq![0x63u8] ==> r == malformed(
        if verb.len() == 1 {
            "unknown verb"
        } else {
            "verb must be a single byte"
        },
    )
}

/// What becomes of a body is decided by its verb, which may stand among blanks,
/// and by what follows the `;` behind it, if there is one. Other verbs, and
/// words that are no verb, are malformed.
pub proof fn lemma_verbs(a: Seq<u8>, verb: Seq<u8>, b: Seq<u8>, rest: Seq<u8>)
    requires
        wire::all_blank(a),
        wire::all_blank(b),
        wire::no_blank_ends(verb),
        !verb.contains(bytes::SEMICOLON),
    ensures
        ({
            let front = seq![0x32u8, 0x35, 0x61, 0x31, 0x3b] + (a + verb + b);
            &&& asked_by_verb(parse::parsed(front + seq![0x3bu8] + rest), verb, rest)
            &&& asked_by_verb(parse::parsed(front), verb, Seq::empty())
        }),
{
    let word = a + verb + b;
    let front = seq![0x32u8, 0x35, 0x61, 0x31, 0x3b] + word;
    let body = front + seq![0x3bu8] + rest;
    assert(front.take(4) =~= parse::PREFIX@);
    assert(body.take(4) =~= parse::PREFIX@);
    assert(front.skip(5) =~= word);
    assert(body.skip(5) =~= word + seq![0x3bu8] + rest);
    lemma_no_separator(a, verb, b);
    wire::lemma_split_at_separator(word, rest, bytes::SEMICOLON);
    wire::lemma_blanks_around_are_trimmed(a, verb, b);
    if verb.len() == 1 {
        assert(verb =~= seq![verb[0]]);
    }
}

// ---- replies -------------------------------------------------------------

/// Whether the bytes of the reply `text` are framed by `ESC _` and `ESC \`, and
/// hold between them the protocol identifier, `verb`, and the parameters `list`.
pub open spec fn reply_holds(text: Seq<char>, verb: u8, list: Seq<u8>) -> bool {
    encode_utf8(text) == seq![0x1bu8, 0x5f, 0x32, 0x35, 0x61, 0x31, 0x3b, verb, 0x3b] + list
        + seq![0x1bu8, 0x5c]
}


proof fn lemma_reply_holds(verb: Seq<char>, v: u8, fields: Seq<char>, list: Seq<u8>)
    requires
        verb.len() == 1,
        v < 0x80,
        verb[0] as u8 == v,
        is_ascii_chars(verb),
        is_ascii_chars(fields),
        parse::ascii_bytes(fields) == seq![0x3bu8] + list,
    ensures
        reply_holds(parse::framed(verb, fields), v, list),
{
    reveal_strlit("\x1b_25a1;");
    reveal_strlit("\x1b\\");
    let front = "\x1b_25a1;"@;
    let back = "\x1b\\"@;
    let text = parse::framed(verb, fields);
    assert(is_ascii_chars(front) && is_ascii_chars(back));
    assert(text == front + verb + fields + back);
    assert(is_ascii_chars(text));
    parse::lemma_ascii_bytes(text);
    assert(parse::ascii_bytes(front) =~= seq![0x1bu8, 0x5f, 0x32, 0x35, 0x61, 0x31, 0x3b]);
    assert(parse::ascii_bytes(verb) =~= seq![v]);
    assert(parse::ascii_bytes(back) =~= seq![0x1bu8, 0x5c]);
    assert(parse::ascii_bytes(text) =~= parse::ascii_bytes(front) + parse::ascii_bytes(verb)
        + parse::ascii_bytes(fields) + parse::ascii_bytes(back));
    assert(parse::ascii_bytes(text) =~= seq![0x1bu8, 0x5f, 0x32, 0x35, 0x61, 0x31, 0x3b, v, 0x3b]
        + list + seq![0x1bu8, 0x5c]);
}

/// Whether `s` can be a value as it stands: it holds no blank and no `;`.
spec fn is_plain(s: Seq<u8>) -> bool {
    forall|i: int|
        0 <= i < s.len() ==> !bytes::is_blank(#[trigger] s[i]) && s[i] != bytes::SEMICOLON
}

proof fn lemma_plain_setting(key: Seq<u8>, value: Seq<u8>, other: Seq<u8>)
    requires
        parse::is_key(key),
        is_plain(value),
    ensures
        parse::param(parse::setting(key, value), other) == if other == key {
            Some(value)
        } else {
            None
        },
{
    assert(!value.contains(bytes::SEMICOLON));
    parse::lemma_setting(key, value, other);
}

spec fn cp_key() -> Seq<u8> {
    seq![0x63, 0x70]
}

spec fn status_key() -> Seq<u8> {
    seq![0x73, 0x74, 0x61, 0x74, 0x75, 0x73]
}

spec fn reason_key() -> Seq<u8> {
    seq![0x72, 0x65, 0x61, 0x73, 0x6f, 0x6e]
}

proof fn lemma_reply_keys()
    ensures
        "cp".spec_bytes() == cp_key(),
        "status".spec_bytes() == status_key(),
        "reason".spec_bytes() == reason_key(),
        parse::is_key(cp_key()),
        parse::is_key(status_key()),
        parse::is_key(reason_key()),
        cp_key() != status_key(),
        cp_key() != reason_key(),
        status_key() != reason_key(),
{
    reveal_strlit("cp");
    reveal_strlit("status");
    reveal_strlit("reason");
    is_ascii_spec_bytes("cp");
    is_ascii_spec_bytes("status");
    is_ascii_spec_bytes("reason");
    assert("cp".spec_bytes() =~= cp_key());
    assert("status".spec_bytes() =~= status_key());
    assert("reason".spec_bytes() =~= reason_key());
    assert(cp_key().len() == 2 && status_key().len() == 6 && reason_key().len() == 6);
    assert(status_key()[0] != reason_key()[0]);
}

proof fn lemma_hex_plain(cp: u32)
    requires
        parse::is_scalar(cp as int),
    ensures
        is_plain(parse::ascii_bytes(parse::hex_text(cp as nat))),
        is_ascii_chars(parse::hex_text(cp as nat)),
        parse::codepoint(parse::ascii_bytes(parse::hex_text(cp as nat))) == Some(cp),
{
    let digits = parse::ascii_bytes(parse::hex_text(cp as nat));
    parse::lemma_hex_reads_back(cp as nat);
    parse::lemma_hex_digits(digits);
    parse::lemma_reply_codepoint_reads_back(cp);
    assert forall|i: int| 0 <= i < digits.len() implies !bytes::is_blank(#[trigger] digits[i])
        && digits[i] != bytes::SEMICOLON by {
        assert(parse::hex_digit(digits[i]) is Some);
    }
}

proof fn lemma_reason_plain(reason: RegisterError)
    ensures
        is_plain(parse::ascii_bytes(parse::reason_text(reason))),
        is_ascii_chars(parse::reason_text(reason)),
{
    match reason {
        RegisterError::OutOfNamespace => {
            reveal_strlit("out_of_namespace");
        },
        RegisterError::CompositeUnsupported => {
            reveal_strlit("composite_unsupported");
        },
        RegisterError::HintingUnsupported => {
            reveal_strlit("hinting_unsupported");
        },
        RegisterError::MalformedPayload => {
            reveal_strlit("malformed_payload");
        },
        RegisterError::PayloadTooLarge => {
            reveal_strlit("payload_too_large");
        },
    }
}

/// The parameters of a reply: the codepoint, if there is one, a status, and a
/// reason, if there is one.
spec fn reply_list(cp: Option<Seq<u8>>, status: Seq<u8>, reason: Option<Seq<u8>>) -> Seq<u8> {
    let last = match reason {
        Some(r) => parse::setting(status_key(), status) + seq![bytes::SEMICOLON] + parse::setting(
            reason_key(),
            r,
        ),
        None => parse::setting(status_key(), status),
    };
    match cp {
        Some(d) => parse::setting(cp_key(), d) + seq![bytes::SEMICOLON] + last,
        None => last,
    }
}

proof fn lemma_reply_list(cp: Option<Seq<u8>>, status: Seq<u8>, reason: Option<Seq<u8>>)
    requires
        cp matches Some(d) ==> is_plain(d),
        is_plain(status),
        reason matches Some(r) ==> is_plain(r),
    ensures
        parse::param(reply_list(cp, status, reason), "cp".spec_bytes()) == cp,
        parse::param(reply_list(cp, status, reason), "status".spec_bytes()) == Some(status),
        parse::param(reply_list(cp, status, reason), "reason".spec_bytes()) == reason,
{
    lemma_reply_keys();
    let s = parse::setting(status_key(), status);
    lemma_plain_setting(status_key(), status, cp_key());
    lemma_plain_setting(status_key(), status, status_key());
    lemma_plain_setting(status_key(), status, reason_key());
    let last = reply_list(None, status, reason);
    if let Some(r) = reason {
        let t = parse::setting(reason_key(), r);
        lemma_plain_setting(reason_key(), r, cp_key());
        lemma_plain_setting(reason_key(), r, status_key());
        lemma_plain_setting(reason_key(), r, reason_key());
        parse::lemma_param_concat(s, t, cp_key());
        parse::lemma_param_concat(s, t, status_key());
        parse::lemma_param_concat(s, t, reason_key());
    }
    if let Some(d) = cp {
        let c = parse::setting(cp_key(), d);
        lemma_plain_setting(cp_key(), d, cp_key());
        lemma_plain_setting(cp_key(), d, status_key());
        lemma_plain_setting(cp_key(), d, reason_key());
        parse::lemma_param_concat(c, last, cp_key());
        parse::lemma_param_concat(c, last, status_key());
        parse::lemma_param_concat(c, last, reason_key());
    }
}

/// Replies write a codepoint without leading zeros, and in lower case.
pub proof fn lemma_reply_codepoint_is_short(n: nat)
    ensures
        parse::hex_text(n).len() > 0,
        n > 0 ==> parse::hex_text(n)[0] as u32 != 0x30,
        forall|i: int|
            0 <= i < parse::hex_text(n).len() ==> {
                ||| 0x30 <= #[trigger] parse::hex_text(n)[i] as u32 <= 0x39
                ||| 0x61 <= parse::hex_text(n)[i] as u32 <= 0x66
            },
    decreases n,
{
    if n >= 16 {
        lemma_reply_codepoint_is_short(n / 16);
        let before = parse::hex_text(n / 16);
        assert(parse::hex_text(n)[0] == before[0]);
        assert forall|i: int| 0 <= i < parse::hex_text(n).len() implies {
            ||| 0x30 <= #[trigger] parse::hex_text(n)[i] as u32 <= 0x39
            ||| 0x61 <= parse::hex_text(n)[i] as u32 <= 0x66
        } by {
            if i < before.len() {
                assert(parse::hex_text(n)[i] == before[i]);
            }
        }
    }
}

/// Whether a client that reads the reply `text` to `verb` finds in it the
/// codepoint `cp`, or none, the status, and the reason, or none.
pub open spec fn reply_says(
    text: Seq<char>,
    verb: u8,
    cp: Option<u32>,
    status: Seq<u8>,
    reason: Option<Seq<u8>>,
) -> bool {
    exists|list: Seq<u8>|
        {
            &&& #[trigger] reply_holds(text, verb, list)
            &&& match parse::param(list, "cp".spec_bytes()) {
                Some(raw) => cp is Some && parse::codepoint(raw) == cp,
                None => cp is None,
            }
            &&& parse::param(list, "status".spec_bytes()) == Some(status)
            &&& parse::param(list, "reason".spec_bytes()) == reason
        }
}

/// A client reads back what a reply to a query, a registration or a clear was
/// made to say: the codepoint, a status that is the coverage, `0` or `1`, and
/// the reason where there is one.
pub proof fn lemma_replies_say(cp: u32, status: QueryStatus, reason: RegisterError)
    requires
        cp <= 0x10_FFFF,
        !(0xD800 <= cp <= 0xDFFF),
    ensures
        reply_says(
            parse::query_reply(cp, status),
            0x71,
            Some(cp),
            encode_utf8(parse::status_text(status)),
            None,
        ),
        reply_says(parse::register_ok_reply(cp), 0x72, Some(cp), seq![0x30u8], None),
        reply_says(
            parse::register_error_reply(cp, reason),
            0x72,
            Some(cp),
            seq![0x31u8],
            Some(encode_utf8(parse::reason_text(reason))),
        ),
        reply_says(parse::clear_ok_reply(Some(cp)), 0x63, Some(cp), seq![0x30u8], None),
        reply_says(parse::clear_ok_reply(None), 0x63, None, seq![0x30u8], None),
        reply_says(
            parse::clear_error_reply(),
            0x63,
            None,
            seq![0x31u8],
            Some(encode_utf8(parse::reason_text(RegisterError::OutOfNamespace))),
        ),
{
    lemma_query_says(cp, status);
    lemma_register_ok_says(cp);
    lemma_register_error_says(cp, reason);
    lemma_clear_says(cp);
}

#[verifier::spinoff_prover]
proof fn lemma_query_says(cp: u32, status: QueryStatus)
    requires
        parse::is_scalar(cp as int),
    ensures
        reply_says(
            parse::query_reply(cp, status),
            0x71,
            Some(cp),
            encode_utf8(parse::status_text(status)),
            None,
        ),
{
    let digits = parse::ascii_bytes(parse::hex_text(cp as nat));
    let word = parse::ascii_bytes(parse::status_text(status));
    lemma_hex_plain(cp);
    assert(is_plain(word) && is_ascii_chars(parse::status_text(status))) by {
        reveal_strlit("");
        reveal_strlit("system");
        reveal_strlit("glossary");
        reveal_strlit("system,glossary");
    }
    parse::lemma_ascii_bytes(parse::status_text(status));
    let list = reply_list(Some(digits), word, None);
    lemma_reply_list(Some(digits), word, None);
    reveal_strlit("q");
    reveal_strlit(";cp=");
    reveal_strlit(";status=");
    let fields = parse::cp_field(cp) + ";status="@ + parse::status_text(status);
    assert(is_ascii_chars(fields));
    assert(parse::ascii_bytes(fields) =~= seq![0x3bu8] + list);
    lemma_reply_holds("q"@, 0x71, fields, list);
}

#[verifier::spinoff_prover]
proof fn lemma_register_ok_says(cp: u32)
    requires
        parse::is_scalar(cp as int),
    ensures
        reply_says(parse::register_ok_reply(cp), 0x72, Some(cp), seq![0x30u8], None),
{
    let digits = parse::ascii_bytes(parse::hex_text(cp as nat));
    lemma_hex_plain(cp);
    reveal_strlit("r");
    reveal_strlit(";cp=");
    reveal_strlit(";status=0");
    let list = reply_list(Some(digits), seq![0x30u8], None);
    lemma_reply_list(Some(digits), seq![0x30u8], None);
    let fields = parse::cp_field(cp) + ";status=0"@;
    assert(is_ascii_chars(fields));
    assert(parse::ascii_bytes(fields) =~= seq![0x3bu8] + list);
    lemma_reply_holds("r"@, 0x72, fields, list);
}

#[verifier::spinoff_prover]
proof fn lemma_register_error_says(cp: u32, reason: RegisterError)
    requires
        parse::is_scalar(cp as int),
    ensures
        reply_says(
            parse::register_error_reply(cp, reason),
            0x72,
            Some(cp),
            seq![0x31u8],
            Some(encode_utf8(parse::reason_text(reason))),
        ),
{
    let digits = parse::ascii_bytes(parse::hex_text(cp as nat));
    let word = parse::ascii_bytes(parse::reason_text(reason));
    lemma_hex_plain(cp);
    lemma_reason_plain(reason);
    parse::lemma_ascii_bytes(parse::reason_text(reason));
    reveal_strlit("r");
    reveal_strlit(";cp=");
    reveal_strlit(";status=1;reason=");
    let list = reply_list(Some(digits), seq![0x31u8], Some(word));
    lemma_reply_list(Some(digits), seq![0x31u8], Some(word));
    let fields = parse::cp_field(cp) + ";status=1;reason="@ + parse::reason_text(reason);
    assert(is_ascii_chars(fields));
    assert(parse::ascii_bytes(fields) =~= seq![0x3bu8] + list);
    lemma_reply_holds("r"@, 0x72, fields, list);
}

#[verifier::spinoff_prover]
proof fn lemma_clear_says(cp: u32)
    requires
        parse::is_scalar(cp as int),
    ensures
        reply_says(parse::clear_ok_reply(Some(cp)), 0x63, Some(cp), seq![0x30u8], None),
        reply_says(parse::clear_ok_reply(None), 0x63, None, seq![0x30u8], None),
        reply_says(
            parse::clear_error_reply(),
            0x63,
            None,
            seq![0x31u8],
            Some(encode_utf8(parse::reason_text(RegisterError::OutOfNamespace))),
        ),
{
    let digits = parse::ascii_bytes(parse::hex_text(cp as nat));
    lemma_hex_plain(cp);
    reveal_strlit("c");
    assert(reply_says(parse::clear_ok_reply(Some(cp)), 0x63, Some(cp), seq![0x30u8], None)) by {
        let list = reply_list(Some(digits), seq![0x30u8], None);
        lemma_reply_list(Some(digits), seq![0x30u8], None);
        reveal_strlit(";cp=");
        reveal_strlit(";status=0");
        let fields = parse::cp_field(cp) + ";status=0"@;
        assert(is_ascii_chars(fields));
        assert(parse::ascii_bytes(fields) =~= seq![0x3bu8] + list);
        lemma_reply_holds("c"@, 0x63, fields, list);
    }
    assert(reply_says(parse::clear_ok_reply(None), 0x63, None, seq![0x30u8], None)) by {
        let list = reply_list(None, seq![0x30u8], None);
        lemma_reply_list(None, seq![0x30u8], None);
        reveal_strlit(";status=0");
        assert(parse::ascii_bytes(";status=0"@) =~= seq![0x3bu8] + list);
        lemma_reply_holds("c"@, 0x63, ";status=0"@, list);
    }
    let word = parse::ascii_bytes(parse::reason_text(RegisterError::OutOfNamespace));
    lemma_reason_plain(RegisterError::OutOfNamespace);
    parse::lemma_ascii_bytes(parse::reason_text(RegisterError::OutOfNamespace));
    let list = reply_list(None, seq![0x31u8], Some(word));
    lemma_reply_list(None, seq![0x31u8], Some(word));
    reveal_strlit("out_of_namespace");
    reveal_strlit(";status=1;reason=out_of_namespace");
    assert(parse::ascii_bytes(";status=1;reason=out_of_namespace"@) =~= seq![0x3bu8] + list);
    lemma_reply_holds("c"@, 0x63, ";status=1;reason=out_of_namespace"@, list);
}

/// Coverages have different words, and so have reasons.
pub proof fn lemma_words_differ(
    a: QueryStatus,
    b: QueryStatus,
    c: RegisterError,
    d: RegisterError,
)
    ensures
        parse::status_text(a) == parse::status_text(b) ==> a == b,
        parse::reason_text(c) == parse::reason_text(d) ==> c == d,
{
    reveal_strlit("");
    reveal_strlit("system");
    reveal_strlit("glossary");
    reveal_strlit("system,glossary");
    assert(""@.len() == 0 && "system"@.len() == 6 && "glossary"@.len() == 8
        && "system,glossary"@.len() == 15);
    reveal_strlit("out_of_namespace");
    reveal_strlit("composite_unsupported");
    reveal_strlit("hinting_unsupported");
    reveal_strlit("malformed_payload");
    reveal_strlit("payload_too_large");
    assert("out_of_namespace"@[0] == 'o');
    assert("composite_unsupported"@[0] == 'c');
    assert("hinting_unsupported"@[0] == 'h');
    assert("malformed_payload"@[0] == 'm');
    assert("payload_too_large"@[0] == 'p');
}

/// A query or a clear that names a codepoint as a reply would is of that
/// codepoint; a clear outside the private-use areas is refused.
pub proof fn lemma_written_codepoint_is_asked_for(cp: u32)
    requires
        cp <= 0x10_FFFF,
        !(0xD800 <= cp <= 0xDFFF),
    ensures
        ({
            let list = parse::setting(
                seq![0x63u8, 0x70],
                parse::ascii_bytes(parse::hex_text(cp as nat)),
            );
            &&& parse::parsed(parse::request(0x71, list)) == Ok::<CommandView, ParseError>(
                CommandView::Query { cp },
            )
            &&& parse::private_use(cp) ==> parse::parsed(parse::request(0x63, list)) == Ok::<
                CommandView,
                ParseError,
            >(CommandView::Clear { cp: Some(cp) })
            &&& !parse::private_use(cp) ==> parse::parsed(parse::request(0x63, list)) == Err::<
                CommandView,
                ParseError,
            >(ParseError::ClearOutOfNamespace)
        }),
{
    let digits = parse::ascii_bytes(parse::hex_text(cp as nat));
    let list = parse::setting(cp_key(), digits);
    lemma_reply_keys();
    lemma_hex_plain(cp);
    lemma_plain_setting(cp_key(), digits, cp_key());
    assert(!digits.contains(bytes::COMMA)) by {
        parse::lemma_hex_reads_back(cp as nat);
        parse::lemma_hex_digits(digits);
        if digits.contains(bytes::COMMA) {
            let i = digits.index_of(bytes::COMMA);
            assert(parse::hex_digit(digits[i]) is Some);
        }
    }
    parse::lemma_request_parses(list);
}

/// Without formats the reply to a support request has an empty list.
pub proof fn lemma_empty_support_reply()
    ensures
        reply_holds(parse::support_reply(Seq::empty()), 0x73, seq![0x66u8, 0x6d, 0x74, 0x3d]),
{
    reveal_strlit("s");
    reveal_strlit(";fmt=");
    let fields = ";fmt="@ + parse::comma_separated(Seq::<&str>::empty());
    assert(fields =~= ";fmt="@);
    assert(is_ascii_chars(fields));
    assert(parse::ascii_bytes(fields) =~= seq![0x3bu8] + seq![0x66u8, 0x6d, 0x74, 0x3d]);
    lemma_reply_holds("s"@, 0x73, fields, seq![0x66u8, 0x6d, 0x74, 0x3d]);
}

/// The reply to a support request holds the formats, each at its own place in a
/// list, and no more.
pub proof fn lemma_support_reply(fmts: Seq<&str>, list: Seq<Seq<u8>>, n: nat)
    requires
        fmts.len() > 0,
        list.len() == fmts.len(),
        forall|i: int|
            0 <= i < fmts.len() ==> is_ascii_chars((#[trigger] fmts[i])@) && list[i]
                == parse::ascii_bytes(fmts[i]@) && !list[i].contains(bytes::COMMA),
    ensures
        reply_holds(
            parse::support_reply(fmts),
            0x73,
            seq![0x66u8, 0x6d, 0x74, 0x3d] + wire::comma_list(list),
        ),
        sizing::list_item(wire::comma_list(list), n) == if n < list.len() {
            Some(list[n as int])
        } else {
            None
        },
{
    assert forall|i: int| 0 <= i < list.len() implies !(#[trigger] list[i]).contains(
        bytes::COMMA,
    ) by {
        assert(is_ascii_chars(fmts[i]@));
    }
    wire::lemma_list_items(list, n);
    lemma_comma_separated(fmts, list);
    let joined = parse::comma_separated(fmts);
    reveal_strlit("s");
    reveal_strlit(";fmt=");
    let fields = ";fmt="@ + joined;
    assert(is_ascii_chars(fields));
    assert(parse::ascii_bytes(fields) =~= seq![0x3bu8] + (seq![0x66u8, 0x6d, 0x74, 0x3d]
        + wire::comma_list(list)));
    lemma_reply_holds(
        "s"@,
        0x73,
        fields,
        seq![0x66u8, 0x6d, 0x74, 0x3d] + wire::comma_list(list),
    );
}

proof fn lemma_comma_separated(fmts: Seq<&str>, list: Seq<Seq<u8>>)
    requires
        fmts.len() > 0,
        list.len() == fmts.len(),
        forall|i: int|
            0 <= i < fmts.len() ==> is_ascii_chars((#[trigger] fmts[i])@) && list[i]
                == parse::ascii_bytes(fmts[i]@),
    ensures
        is_ascii_chars(parse::comma_separated(fmts)),
        parse::ascii_bytes(parse::comma_separated(fmts)) == wire::comma_list(list),
    decreases fmts.len(),
{
    reveal_strlit(",");
    if fmts.len() > 1 {
        let f = fmts.drop_last();
        let l = list.drop_last();
        assert forall|i: int| 0 <= i < f.len() implies is_ascii_chars((#[trigger] f[i])@) && l[i]
            == parse::ascii_bytes(f[i]@) by {
            assert(f[i] == fmts[i]);
        }
        lemma_comma_separated(f, l);
        lemma_comma_list_last(list);
        assert(is_ascii_chars(fmts[fmts.len() - 1]@));
        assert(parse::ascii_bytes(parse::comma_separated(fmts)) =~= wire::comma_list(l)
            + seq![0x2cu8] + list.last());
    } else {
        assert(is_ascii_chars(fmts[0]@));
    }
}

proof fn lemma_comma_list_last(list: Seq<Seq<u8>>)
    requires
        list.len() > 1,
    ensures
        wire::comma_list(list) == wire::comma_list(list.drop_last()) + seq![0x2cu8] + list.last(),
    decreases list.len(),
{
    reveal_with_fuel(wire::comma_list, 2);
    let rest = list.drop_first();
    if list.len() > 2 {
        lemma_comma_list_last(rest);
        assert(rest.drop_last() =~= list.drop_last().drop_first());
        assert(rest.last() == list.last());
    }
    assert(wire::comma_list(list) =~= wire::comma_list(list.drop_last()) + seq![0x2cu8]
        + list.last());
}

} // verus!
