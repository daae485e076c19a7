//! The wire parser for the body of a Glyph Protocol APC sequence, and the
//! replies.
//!
//! The escape-sequence layer strips the APC introducer (`ESC _`) and terminator
//! (`ESC \`); this module parses the body, which always begins with the
//! protocol identifier `25a1` (U+25A1 WHITE SQUARE) followed by a single-byte
//! verb and `;`-separated `key=value` parameters:
//!
//! ```text
//! 25a1 ; <verb> [ ; key=value ]* [ ; <base64-payload> ]
//! ```

use crate::bytes;
use crate::colr;
use crate::decimal;
use crate::glossary::{GlyphView, RegisteredGlyph};
use crate::payload;
use crate::sizing;
use crate::sizing::{SizeMode, SizingParams};
use vstd::prelude::*;
use vstd::string::*;
use vstd::utf8::*;

verus! {

/// The literal identifier that prefixes every Glyph Protocol APC body: `25a1`.
pub const PREFIX: [u8; 4] = [0x32, 0x35, 0x61, 0x31];

/// `s`, the verb that asks for the supported formats.
pub const SUPPORT: u8 = 0x73;

/// `q`, the verb that queries a codepoint.
pub const QUERY: u8 = 0x71;

/// `r`, the verb that registers a glyph.
pub const REGISTER: u8 = 0x72;

/// `c`, the verb that clears registrations.
pub const CLEAR: u8 = 0x63;

/// Upper bound on a single registered payload, after base64 decoding.
pub const MAX_PAYLOAD_BYTES: usize = 65536;

/// Payload formats that are advertised in the `s` reply: `glyf` and flat-color
/// `colrv0`. The `colrv1` paint graph (gradients, transforms, composites) is
/// not rendered, and a terminal must not advertise a format it cannot render,
/// so `colrv1` registrations are rejected with `malformed_payload`.
pub const SUPPORTED_FORMATS: [&'static str; 2] = ["glyf", "colrv0"];

/// Whether `cp` lies in one of the three Unicode Private Use Areas.
pub open spec fn private_use(cp: u32) -> bool {
    ||| 0xE000 <= cp <= 0xF8FF
    ||| 0xF_0000 <= cp <= 0xF_FFFD
    ||| 0x10_0000 <= cp <= 0x10_FFFD
}

/// Whether `cp` is in one of the three Unicode Private Use Areas.
pub fn is_pua(cp: u32) -> (r: bool)
    ensures
        r == private_use(cp),
{
    (0xE000 <= cp && cp <= 0xF8FF) || (0xF_0000 <= cp && cp <= 0xF_FFFD) || (0x10_0000 <= cp && cp
        <= 0x10_FFFD)
}

/// Reply-level control for the `r` verb (`reply=0|1|2`).
#[derive(Debug, Clone, Copy, PartialEq, Eq, Structural)]
pub enum ReplyMode {
    /// `reply=0`: emit nothing.
    Silent,
    /// `reply=1` (default): emit success and failure replies.
    All,
    /// `reply=2`: emit failure replies only.
    ErrorsOnly,
}

impl Default for ReplyMode {
    fn default() -> (r: Self)
        ensures
            r == ReplyMode::All,
    {
        ReplyMode::All
    }
}

/// The reply level that a `reply=` value names. `1`, and anything
/// unrecognised, is the default: emit both.
pub open spec fn reply_mode(raw: Seq<u8>) -> ReplyMode {
    if raw == "0".spec_bytes() {
        ReplyMode::Silent
    } else if raw == "2".spec_bytes() {
        ReplyMode::ErrorsOnly
    } else {
        ReplyMode::All
    }
}

impl ReplyMode {
    fn from_wire(raw: &[u8]) -> (r: Self)
        ensures
            r == reply_mode(raw@),
    {
        if bytes::is_word(raw, "0") {
            ReplyMode::Silent
        } else if bytes::is_word(raw, "2") {
            ReplyMode::ErrorsOnly
        } else {
            ReplyMode::default()
        }
    }

    /// Whether a success is replied to.
    pub fn emit_success(self) -> (r: bool)
        ensures
            r == (self == ReplyMode::All),
    {
        matches!(self, ReplyMode::All)
    }

    /// Whether a failure is replied to.
    pub fn emit_error(self) -> (r: bool)
        ensures
            r == (self != ReplyMode::Silent),
    {
        matches!(self, ReplyMode::All | ReplyMode::ErrorsOnly)
    }
}

/// Coverage status for a `q` reply.
#[derive(Debug, Clone, Copy, PartialEq, Eq, Structural)]
pub enum QueryStatus {
    Free,
    System,
    Glossary,
    Both,
}

/// The word for a coverage status.
pub open spec fn status_text(status: QueryStatus) -> Seq<char> {
    match status {
        QueryStatus::Free => ""@,
        QueryStatus::System => "system"@,
        QueryStatus::Glossary => "glossary"@,
        QueryStatus::Both => "system,glossary"@,
    }
}

impl QueryStatus {
    /// The word for this status.
    pub fn as_str(self) -> (r: &'static str)
        ensures
            r@ == status_text(self),
    {
        match self {
            QueryStatus::Free => "",
            QueryStatus::System => "system",
            QueryStatus::Glossary => "glossary",
            QueryStatus::Both => "system,glossary",
        }
    }
}

/// Defined register-error codes.
#[derive(Debug, Clone, Copy, PartialEq, Eq, Structural)]
pub enum RegisterError {
    OutOfNamespace,
    CompositeUnsupported,
    HintingUnsupported,
    MalformedPayload,
    PayloadTooLarge,
}

/// The word for a register-error code.
pub open spec fn reason_text(reason: RegisterError) -> Seq<char> {
    match reason {
        RegisterError::OutOfNamespace => "out_of_namespace"@,
        RegisterError::CompositeUnsupported => "composite_unsupported"@,
        RegisterError::HintingUnsupported => "hinting_unsupported"@,
        RegisterError::MalformedPayload => "malformed_payload"@,
        RegisterError::PayloadTooLarge => "payload_too_large"@,
    }
}

impl RegisterError {
    /// The word for this code.
    pub fn as_str(self) -> (r: &'static str)
        ensures
            r@ == reason_text(self),
    {
        match self {
            RegisterError::OutOfNamespace => "out_of_namespace",
            RegisterError::CompositeUnsupported => "composite_unsupported",
            RegisterError::HintingUnsupported => "hinting_unsupported",
            RegisterError::MalformedPayload => "malformed_payload",
            RegisterError::PayloadTooLarge => "payload_too_large",
        }
    }
}

/// A parsed Glyph Protocol command ready for the dispatcher.
#[derive(Debug, Clone, PartialEq, Eq)]
pub enum GlyphCommand {
    /// `s`: advertise supported formats, protocol-detection ping.
    Support,
    /// `q`: query coverage of a codepoint.
    Query { cp: u32 },
    /// `r`: register a glyph at a PUA codepoint.
    Register { cp: u32, glyph: RegisteredGlyph, reply: ReplyMode },
    /// `c`: clear one slot (`Some`) or all slots (`None`).
    Clear { cp: Option<u32> },
}

/// The mathematical content of a [`GlyphCommand`].
#[verifier::ext_equal]
pub enum CommandView {
    Support,
    Query { cp: u32 },
    Register { cp: u32, glyph: GlyphView, reply: ReplyMode },
    Clear { cp: Option<u32> },
}

impl View for GlyphCommand {
    type V = CommandView;

    open spec fn view(&self) -> CommandView {
        match *self {
            GlyphCommand::Support => CommandView::Support,
            GlyphCommand::Query { cp } => CommandView::Query { cp },
            GlyphCommand::Register { cp, glyph, reply } => CommandView::Register {
                cp,
                glyph: glyph@,
                reply,
            },
            GlyphCommand::Clear { cp } => CommandView::Clear { cp },
        }
    }
}

/// Why an APC body was not accepted.
#[derive(Debug, Clone, PartialEq, Eq)]
pub enum ParseError {
    /// Body does not begin with `25a1`: not this protocol; the caller should
    /// let other APC dispatchers have it.
    NotGlyphProtocol,
    /// Framing recognised but malformed.
    Malformed(&'static str),
    /// `r` rejected at parse time; the dispatcher formats this as a
    /// `status=<nonzero>;reason=<code>` reply, honouring `reply`.
    RegisterFailed { cp: u32, reason: RegisterError, reply: ReplyMode },
    /// `c;cp=<non-pua>`.
    ClearOutOfNamespace,
}

/// Whether the outcome `r` is `expected`, by content.
pub open spec fn outcome_is(
    r: Result<GlyphCommand, ParseError>,
    expected: Result<CommandView, ParseError>,
) -> bool {
    match r {
        Ok(command) => expected == Ok::<CommandView, ParseError>(command@),
        Err(e) => expected == Err::<CommandView, ParseError>(e),
    }
}

// ---- parameters ----------------------------------------------------------

/// The value that the part `part` of a parameter list gives for `key`, if it is
/// a `key=value` pair with that key. Blanks around the part, its key and its
/// value are ignored.
pub open spec fn part_value(part: Seq<u8>, key: Seq<u8>) -> Option<Seq<u8>> {
    let pair = bytes::trimmed(part);
    let at = bytes::first_index(pair, bytes::EQUALS);
    if at < pair.len() && bytes::trimmed(pair.take(at)) == key {
        Some(bytes::trimmed(pair.skip(at + 1)))
    } else {
        None
    }
}

/// The value of parameter `key` in the `;`-separated list `list`, if it is
/// given. The last value wins for a repeated key.
pub open spec fn param(list: Seq<u8>, key: Seq<u8>) -> Option<Seq<u8>>
    decreases list.len(),
{
    let i = bytes::first_index(list, bytes::SEMICOLON);
    let here = part_value(list.take(i), key);
    if 0 <= i < list.len() {
        match param(list.skip(i + 1), key) {
            Some(v) => Some(v),
            None => here,
        }
    } else {
        here
    }
}

/// Semicolon-separated `key=value` parameter list. Last value wins for a
/// repeated key; unknown keys are kept and simply ignored by callers.
struct Params<'a> {
    entries: Vec<(&'a [u8], &'a [u8])>,
}

impl<'a> Params<'a> {
    /// No key has two entries.
    spec fn wf(self) -> bool {
        forall|i: int, j: int|
            0 <= i < j < self.entries@.len() ==> (#[trigger] self.entries@[i]).0@ != (
            #[trigger] self.entries@[j]).0@
    }

    /// The value of `key`, if there is an entry for it.
    spec fn value(self, key: Seq<u8>) -> Option<Seq<u8>> {
        if exists|i: int| 0 <= i < self.entries@.len() && (#[trigger] self.entries@[i]).0@ == key {
            let i = choose|i: int|
                0 <= i < self.entries@.len() && (#[trigger] self.entries@[i]).0@ == key;
            Some(self.entries@[i].1@)
        } else {
            None
        }
    }

    /// The index of the entry for `key`, if there is one.
    fn find(&self, key: &[u8]) -> (r: Option<usize>)
        requires
            self.wf(),
        ensures
            match r {
                Some(i) => i < self.entries@.len() && self.entries@[i as int].0@ == key@
                    && self.value(key@) == Some(self.entries@[i as int].1@),
                None => self.value(key@) is None && forall|i: int|
                    0 <= i < self.entries@.len() ==> (#[trigger] self.entries@[i]).0@ != key@,
            },
    {
        let mut i: usize = 0;
        while i < self.entries.len()
            invariant
                i <= self.entries@.len(),
                self.wf(),
                forall|j: int| 0 <= j < i ==> (#[trigger] self.entries@[j]).0@ != key@,
            decreases self.entries@.len() - i,
        {
            if bytes::same_bytes(self.entries[i].0, key) {
                assert(self.entries@[i as int].0@ == key@);
                return Some(i);
            }
            i += 1;
        }
        None
    }

    /// Set the value of `key`.
    fn put(&mut self, key: &'a [u8], value: &'a [u8])
        requires
            old(self).wf(),
        ensures
            final(self).wf(),
            forall|k: Seq<u8>|
                #[trigger] final(self).value(k) == if k == key@ {
                    Some(value@)
                } else {
                    old(self).value(k)
                },
    {
        let ghost before = *self;
        match self.find(key) {
            Some(i) => {
                self.entries[i] = (key, value);
                let ghost after = *self;
                assert(after.entries@ == before.entries@.update(i as int, (key, value)));
                assert forall|k: Seq<u8>| #[trigger] after.value(k) == if k == key@ {
                    Some(value@)
                } else {
                    before.value(k)
                } by {
                    assert(forall|j: int|
                        0 <= j < after.entries@.len() ==> (#[trigger] after.entries@[j]).0@ == (
                        #[trigger] before.entries@[j]).0@);
                    if k == key@ {
                        assert(after.entries@[i as int].0@ == k);
                    } else if before.value(k) is Some {
                        let j = choose|j: int|
                            0 <= j < before.entries@.len() && (#[trigger] before.entries@[j]).0@
                                == k;
                        assert(after.entries@[j].0@ == k);
                    }
                }
            },
            None => {
                self.entries.push((key, value));
                let ghost after = *self;
                assert forall|k: Seq<u8>| #[trigger] after.value(k) == if k == key@ {
                    Some(value@)
                } else {
                    before.value(k)
                } by {
                    let n = before.entries@.len() as int;
                    if k == key@ {
                        assert(after.entries@[n].0@ == k);
                    } else if before.value(k) is Some {
                        let j = choose|j: int|
                            0 <= j < before.entries@.len() && (#[trigger] before.entries@[j]).0@
                                == k;
                        assert(after.entries@[j].0@ == k);
                    }
                }
            },
        }
    }

    /// Read the part `part` of a parameter list.
    fn read_part(&mut self, part: &'a [u8])
        requires
            old(self).wf(),
        ensures
            final(self).wf(),
            forall|k: Seq<u8>|
                #[trigger] final(self).value(k) == match part_value(part@, k) {
                    Some(v) => Some(v),
                    None => old(self).value(k),
                },
    {
        let pair = bytes::trim(part);
        if let Some(at) = bytes::find_byte(pair, bytes::EQUALS) {
            let len: usize = pair.len();
            let key = &pair[0..at];
            let value = &pair[at + 1..len];
            assert(key@ =~= pair@.take(at as int));
            assert(value@ =~= pair@.skip(at + 1));
            self.put(bytes::trim(key), bytes::trim(value));
        }
    }

    /// Read the parameter list `data`.
    fn parse(data: &'a [u8]) -> (r: Self)
        ensures
            r.wf(),
            forall|k: Seq<u8>| #[trigger] r.value(k) == param(data@, k),
    {
        let mut params = Params { entries: Vec::new() };
        let mut rest: &'a [u8] = data;
        loop
            invariant
                params.wf(),
                forall|k: Seq<u8>|
                    #[trigger] param(data@, k) == match param(rest@, k) {
                        Some(v) => Some(v),
                        None => params.value(k),
                    },
            decreases rest@.len(),
        {
            match bytes::find_byte(rest, bytes::SEMICOLON) {
                Some(i) => {
                    let len: usize = rest.len();
                    let part = &rest[0..i];
                    let next = &rest[i + 1..len];
                    assert(part@ =~= rest@.take(i as int));
                    assert(next@ =~= rest@.skip(i + 1));
                    params.read_part(part);
                    rest = next;
                },
                None => {
                    assert(rest@.take(rest@.len() as int) =~= rest@);
                    params.read_part(rest);
                    return params;
                },
            }
        }
    }

    /// The value of `key`, if it is given.
    fn get(&self, key: &str) -> (r: Option<&'a [u8]>)
        requires
            self.wf(),
        ensures
            match r {
                Some(v) => self.value(key.spec_bytes()) == Some(v@),
                None => self.value(key.spec_bytes()) is None,
            },
    {
        match self.find(key.as_bytes()) {
            Some(i) => Some(self.entries[i].1),
            None => None,
        }
    }
}

// ---- numbers -------------------------------------------------------------

/// The value of a hexadecimal digit, upper or lower case.
pub open spec fn hex_digit(b: u8) -> Option<int> {
    if 0x30 <= b <= 0x39 {
        Some(b - 0x30)
    } else if 0x61 <= b <= 0x66 {
        Some(b - 0x61 + 10)
    } else if 0x41 <= b <= 0x46 {
        Some(b - 0x41 + 10)
    } else {
        None
    }
}

/// The number that `s` writes in hexadecimal, if it is digits only.
pub open spec fn hex_value(s: Seq<u8>) -> Option<int>
    decreases s.len(),
{
    if s.len() == 0 {
        Some(0)
    } else {
        match (hex_value(s.drop_last()), hex_digit(s.last())) {
            (Some(v), Some(d)) => Some(16 * v + d),
            _ => None,
        }
    }
}

/// Whether `v` is a Unicode scalar value: at or below the ceiling, and not a
/// surrogate.
pub open spec fn is_scalar(v: int) -> bool {
    0 <= v <= 0x10_FFFF && !(0xD800 <= v <= 0xDFFF)
}

/// The codepoint that `raw` writes: one to six hexadecimal digits, blanks
/// around them ignored.
pub open spec fn codepoint(raw: Seq<u8>) -> Option<u32> {
    let digits = bytes::trimmed(raw);
    if 0 < digits.len() <= 6 {
        match hex_value(digits) {
            Some(v) if is_scalar(v) => Some(v as u32),
            _ => None,
        }
    } else {
        None
    }
}

/// Once a digit is not hexadecimal, more digits do not help.
proof fn lemma_hex_value_prefix(s: Seq<u8>, n: int)
    requires
        0 <= n <= s.len(),
        hex_value(s.take(n)) is None,
    ensures
        hex_value(s) is None,
    decreases s.len() - n,
{
    if n < s.len() {
        assert(s.take(n + 1).drop_last() =~= s.take(n));
        lemma_hex_value_prefix(s, n + 1);
    } else {
        assert(s.take(n) =~= s);
    }
}

fn hex_digit_value(b: u8) -> (r: Option<u32>)
    ensures
        match r {
            Some(d) => d < 16 && hex_digit(b) == Some(d as int),
            None => hex_digit(b) is None,
        },
{
    if 0x30 <= b && b <= 0x39 {
        Some((b - 0x30) as u32)
    } else if 0x61 <= b && b <= 0x66 {
        Some((b - 0x61 + 10) as u32)
    } else if 0x41 <= b && b <= 0x46 {
        Some((b - 0x41 + 10) as u32)
    } else {
        None
    }
}

/// Parse a codepoint. Values above the Unicode ceiling and in the surrogate
/// range are rejected.
fn parse_hex_cp(raw: &[u8]) -> (r: Option<u32>)
    ensures
        r == codepoint(raw@),
{
    let digits = bytes::trim(raw);
    if digits.len() == 0 || digits.len() > 6 {
        return None;
    }
    let mut out: u32 = 0;
    let mut i: usize = 0;
    let ghost mut bound: int = 1;
    assert(digits@.take(0) =~= Seq::empty());
    while i < digits.len()
        invariant
            digits@ == bytes::trimmed(raw@),
            i <= digits@.len() <= 6,
            hex_value(digits@.take(i as int)) == Some(out as int),
            out < bound,
            i == 0 ==> bound == 0x1,
            i == 1 ==> bound == 0x10,
            i == 2 ==> bound == 0x100,
            i == 3 ==> bound == 0x1000,
            i == 4 ==> bound == 0x1_0000,
            i == 5 ==> bound == 0x10_0000,
            i == 6 ==> bound == 0x100_0000,
        decreases digits@.len() - i,
    {
        assert(digits@.take(i + 1).drop_last() =~= digits@.take(i as int));
        assert(digits@.take(i + 1).last() == digits@[i as int]);
        match hex_digit_value(digits[i]) {
            Some(d) => {
                out = out * 16 + d;
                proof {
                    bound = bound * 16;
                }
            },
            None => {
                proof {
                    lemma_hex_value_prefix(digits@, i + 1);
                }
                return None;
            },
        }
        i += 1;
    }
    assert(digits@.take(i as int) =~= digits@);
    if out > 0x10_FFFF || (0xD800 <= out && out <= 0xDFFF) {
        return None;
    }
    Some(out)
}

/// The 16-bit number that `raw` writes in decimal, blanks around it ignored.
pub open spec fn decimal_u16(raw: Seq<u8>) -> Option<u16> {
    let digits = bytes::trimmed(raw);
    if digits.len() > 0 && decimal::all_digits(digits) && decimal::decimal_value(digits) <= 0xffff {
        Some(decimal::decimal_value(digits) as u16)
    } else {
        None
    }
}

/// Parse a 16-bit decimal number.
fn parse_decimal_u16(raw: &[u8]) -> (r: Option<u16>)
    ensures
        r == decimal_u16(raw@),
{
    let digits = bytes::trim(raw);
    if digits.len() == 0 {
        return None;
    }
    let mut out: u32 = 0;
    let mut i: usize = 0;
    assert(digits@.take(0) =~= Seq::empty());
    while i < digits.len()
        invariant
            digits@ == bytes::trimmed(raw@),
            digits@.len() > 0,
            i <= digits@.len(),
            decimal::all_digits(digits@.take(i as int)),
            out == decimal::decimal_value(digits@.take(i as int)),
            out <= 0xffff,
        decreases digits@.len() - i,
    {
        let ghost next = digits@.take(i + 1);
        assert(next.drop_last() =~= digits@.take(i as int));
        assert(next.last() == digits@[i as int]);
        let b: u8 = digits[i];
        if !decimal::is_digit_byte(b) {
            return None;
        }
        out = out * 10 + (b - decimal::ZERO) as u32;
        assert(decimal::all_digits(next));
        if out > 0xffff {
            proof {
                if decimal::all_digits(digits@) {
                    decimal::lemma_decimal_value_prefix(digits@, i + 1);
                }
            }
            return None;
        }
        i += 1;
    }
    assert(digits@.take(i as int) =~= digits@);
    Some(out as u16)
}

// ---- commands ------------------------------------------------------------

/// The codepoint that a `cp=` value names. A sequence of codepoints is
/// rejected, and so is what writes none, which is reported as `invalid`.
pub open spec fn single_codepoint(raw: Seq<u8>, invalid: &'static str) -> Result<u32, ParseError> {
    if raw.contains(bytes::COMMA) {
        Err(ParseError::Malformed("cp must be a single codepoint"))
    } else {
        match codepoint(raw) {
            Some(cp) => Ok(cp),
            None => Err(ParseError::Malformed(invalid)),
        }
    }
}

fn parse_single_cp(raw: &[u8], invalid: &'static str) -> (r: Result<u32, ParseError>)
    ensures
        r == single_codepoint(raw@, invalid),
{
    proof {
        bytes::lemma_first_index(raw@, bytes::COMMA);
    }
    if bytes::find_byte(raw, bytes::COMMA).is_some() {
        assert(raw@[bytes::first_index(raw@, bytes::COMMA)] == bytes::COMMA);
        return Err(ParseError::Malformed("cp must be a single codepoint"));
    }
    match parse_hex_cp(raw) {
        Some(cp) => Ok(cp),
        None => Err(ParseError::Malformed(invalid)),
    }
}

/// The command that a `q` request with the parameters `list` is.
pub open spec fn query(list: Seq<u8>) -> Result<CommandView, ParseError> {
    match param(list, "cp".spec_bytes()) {
        None => Err(ParseError::Malformed("query missing cp")),
        Some(raw) => match single_codepoint(raw, "query cp invalid") {
            Ok(cp) => Ok(CommandView::Query { cp }),
            Err(e) => Err(e),
        },
    }
}

fn parse_query(rest: &[u8]) -> (r: Result<GlyphCommand, ParseError>)
    ensures
        outcome_is(r, query(rest@)),
{
    let params = Params::parse(rest);
    match params.get("cp") {
        None => Err(ParseError::Malformed("query missing cp")),
        Some(raw) => match parse_single_cp(raw, "query cp invalid") {
            Ok(cp) => Ok(GlyphCommand::Query { cp }),
            Err(e) => Err(e),
        },
    }
}

/// The command that a `c` request with the parameters `list` is.
pub open spec fn clearing(list: Seq<u8>) -> Result<CommandView, ParseError> {
    match param(list, "cp".spec_bytes()) {
        None => Ok(CommandView::Clear { cp: None }),
        Some(raw) => match single_codepoint(raw, "clear cp invalid") {
            Ok(cp) => if private_use(cp) {
                Ok(CommandView::Clear { cp: Some(cp) })
            } else {
                Err(ParseError::ClearOutOfNamespace)
            },
            Err(e) => Err(e),
        },
    }
}

fn parse_clear(rest: &[u8]) -> (r: Result<GlyphCommand, ParseError>)
    ensures
        outcome_is(r, clearing(rest@)),
{
    let params = Params::parse(rest);
    match params.get("cp") {
        None => Ok(GlyphCommand::Clear { cp: None }),
        Some(raw) => match parse_single_cp(raw, "clear cp invalid") {
            Ok(cp) => {
                if is_pua(cp) {
                    Ok(GlyphCommand::Clear { cp: Some(cp) })
                } else {
                    Err(ParseError::ClearOutOfNamespace)
                }
            },
            Err(e) => Err(e),
        },
    }
}

/// The reply level that the parameters `list` ask for.
pub open spec fn requested_reply(list: Seq<u8>) -> ReplyMode {
    match param(list, "reply".spec_bytes()) {
        Some(raw) => reply_mode(raw),
        None => ReplyMode::All,
    }
}

/// The payload format that the parameters `list` name; `glyf` where they name
/// none.
pub open spec fn requested_format(list: Seq<u8>) -> Seq<u8> {
    match param(list, "fmt".spec_bytes()) {
        Some(raw) => raw,
        None => "glyf".spec_bytes(),
    }
}

/// The units-per-em that the parameters `list` give; `1000` where they give
/// none, and nothing where they give no 16-bit number.
pub open spec fn requested_upm(list: Seq<u8>) -> Option<u16> {
    match param(list, "upm".spec_bytes()) {
        Some(raw) => decimal_u16(raw),
        None => Some(1000),
    }
}

/// An authored extent parameter: the number that it writes, or `upm` where it
/// is absent, unparseable or zero.
pub open spec fn authored_extent(raw: Option<Seq<u8>>, upm: u16) -> u16 {
    match raw {
        Some(raw) => match decimal_u16(raw) {
            Some(v) if v != 0 => v,
            _ => upm,
        },
        None => upm,
    }
}

/// The sizing and placement that the parameters `list` ask for. Parameters that
/// are absent or have unparseable values take their defaults.
pub open spec fn requested_sizing(list: Seq<u8>, upm: u16) -> SizingParams {
    SizingParams {
        aw: authored_extent(param(list, "aw".spec_bytes()), upm),
        lh: authored_extent(param(list, "lh".spec_bytes()), upm),
        width: match param(list, "width".spec_bytes()) {
            Some(raw) => sizing::cell_width(raw),
            None => 1,
        },
        size: match param(list, "size".spec_bytes()) {
            Some(raw) => sizing::size_mode(raw),
            None => SizeMode::Height,
        },
        align_h: match param(list, "align".spec_bytes()) {
            Some(raw) => sizing::alignment(raw).0,
            None => sizing::HAlign::Center,
        },
        align_v: match param(list, "align".spec_bytes()) {
            Some(raw) => sizing::alignment(raw).1,
            None => sizing::VAlign::Center,
        },
        pad: match param(list, "pad".spec_bytes()) {
            Some(raw) => sizing::padding(raw),
            None => sizing::no_padding(),
        },
    }
}

fn parse_extent(raw: Option<&[u8]>, upm: u16) -> (r: u16)
    ensures
        r == authored_extent(
            match raw {
                Some(raw) => Some(raw@),
                None => None,
            },
            upm,
        ),
{
    match raw {
        Some(raw) => match parse_decimal_u16(raw) {
            Some(v) if v != 0 => v,
            _ => upm,
        },
        None => upm,
    }
}

/// Read the sizing and placement parameters. `aw` and `lh` default to `upm`;
/// recognised parameters with unparseable values fall back to their default
/// rather than failing the request.
fn parse_sizing(params: &Params<'_>, Ghost(list): Ghost<Seq<u8>>, upm: u16) -> (r: SizingParams)
    requires
        params.wf(),
        forall|k: Seq<u8>| #[trigger] params.value(k) == param(list, k),
    ensures
        r == requested_sizing(list, upm),
{
    let mut out = SizingParams::defaults_for_upm(upm);
    out.aw = parse_extent(params.get("aw"), upm);
    out.lh = parse_extent(params.get("lh"), upm);
    if let Some(raw) = params.get("width") {
        out.width = sizing::parse_width(raw);
    }
    if let Some(raw) = params.get("size") {
        out.size = SizeMode::from_wire(raw);
    }
    if let Some(raw) = params.get("align") {
        let (h, v) = sizing::parse_align(raw);
        out.align_h = h;
        out.align_v = v;
    }
    if let Some(raw) = params.get("pad") {
        out.pad = sizing::parse_pad(raw);
    }
    out
}

/// The glyph that the payload `data` of format `fmt` registers.
pub open spec fn registered_glyph(
    fmt: Seq<u8>,
    data: Seq<u8>,
    upm: u16,
    sizing: SizingParams,
) -> GlyphView {
    if fmt == "glyf".spec_bytes() {
        GlyphView::Glyf { glyf: data, upm, sizing }
    } else {
        GlyphView::Color {
            container: data,
            upm,
            sizing,
            uses_fg: colr::payload_references_foreground(data),
        }
    }
}

/// What becomes of a request to register `payload` at `cp`, a private-use
/// codepoint, with the parameters `list`. There is no `payload` where the
/// request's base64 did not decode.
pub open spec fn admission(list: Seq<u8>, cp: u32, payload: Option<Seq<u8>>) -> Result<
    CommandView,
    ParseError,
> {
    let reply = requested_reply(list);
    let fmt = requested_format(list);
    if fmt == "colrv1".spec_bytes() {
        Err(ParseError::RegisterFailed { cp, reason: RegisterError::MalformedPayload, reply })
    } else if fmt != "glyf".spec_bytes() && fmt != "colrv0".spec_bytes() {
        Err(ParseError::Malformed("register fmt unknown"))
    } else {
        match requested_upm(list) {
            None => Err(ParseError::Malformed("register upm invalid")),
            Some(upm) => if upm == 0 {
                Err(ParseError::Malformed("register upm must be non-zero"))
            } else {
                match payload {
                    Some(data) => if data.len() > MAX_PAYLOAD_BYTES {
                        Err(
                            ParseError::RegisterFailed {
                                cp,
                                reason: RegisterError::PayloadTooLarge,
                                reply,
                            },
                        )
                    } else if data.len() == 0 {
                        Err(
                            ParseError::RegisterFailed {
                                cp,
                                reason: RegisterError::MalformedPayload,
                                reply,
                            },
                        )
                    } else {
                        Ok(
                            CommandView::Register {
                                cp,
                                glyph: registered_glyph(
                                    fmt,
                                    data,
                                    upm,
                                    requested_sizing(list, upm),
                                ),
                                reply,
                            },
                        )
                    },
                    None => Err(
                        ParseError::RegisterFailed {
                            cp,
                            reason: RegisterError::MalformedPayload,
                            reply,
                        },
                    ),
                }
            },
        }
    }
}

/// What becomes of a request to register `payload` with the parameters `list`.
/// Only private-use codepoints can be registered, whatever else the request
/// holds.
pub open spec fn registration(list: Seq<u8>, payload: Option<Seq<u8>>) -> Result<
    CommandView,
    ParseError,
> {
    match param(list, "cp".spec_bytes()) {
        None => Err(ParseError::Malformed("register missing cp")),
        Some(raw) => match single_codepoint(raw, "register cp invalid") {
            Ok(cp) => if private_use(cp) {
                admission(list, cp, payload)
            } else {
                Err(
                    ParseError::RegisterFailed {
                        cp,
                        reason: RegisterError::OutOfNamespace,
                        reply: requested_reply(list),
                    },
                )
            },
            Err(e) => Err(e),
        },
    }
}

/// The command that an `r` request is whose verb `rest` follows. Parameters and
/// the base64 payload are split at the last `;`.
pub open spec fn register(rest: Seq<u8>) -> Result<CommandView, ParseError> {
    let (list, text) = bytes::halves_at_last(rest, bytes::SEMICOLON);
    registration(list, payload::base64_decoding(bytes::trimmed(text)))
}

fn parse_register(rest: &[u8]) -> (r: Result<GlyphCommand, ParseError>)
    ensures
        outcome_is(r, register(rest@)),
{
    // base64 contains no `;`, so splitting at the last one is unambiguous.
    let (control, text) = bytes::split_last(rest, bytes::SEMICOLON);
    let params = Params::parse(control);
    let cp: u32 = match params.get("cp") {
        None => {
            return Err(ParseError::Malformed("register missing cp"));
        },
        Some(raw) => match parse_single_cp(raw, "register cp invalid") {
            Ok(cp) => cp,
            Err(e) => {
                return Err(e);
            },
        },
    };
    // Read before anything can fail, so that every error path honours the
    // requested reply level.
    let reply: ReplyMode = match params.get("reply") {
        Some(raw) => ReplyMode::from_wire(raw),
        None => ReplyMode::default(),
    };
    // Only private-use codepoints can be registered: reject before decoding
    // anything.
    if !is_pua(cp) {
        return Err(
            ParseError::RegisterFailed { cp, reason: RegisterError::OutOfNamespace, reply },
        );
    }
    let fmt: &[u8] = match params.get("fmt") {
        Some(raw) => raw,
        None => "glyf".as_bytes(),
    };
    // `colrv1` is a recognised format name that is not advertised.
    if bytes::is_word(fmt, "colrv1") {
        return Err(
            ParseError::RegisterFailed { cp, reason: RegisterError::MalformedPayload, reply },
        );
    }
    let is_glyf: bool = bytes::is_word(fmt, "glyf");
    if !is_glyf && !bytes::is_word(fmt, "colrv0") {
        return Err(ParseError::Malformed("register fmt unknown"));
    }
    let upm: u16 = match params.get("upm") {
        Some(raw) => match parse_decimal_u16(raw) {
            Some(upm) => upm,
            None => {
                return Err(ParseError::Malformed("register upm invalid"));
            },
        },
        None => 1000,
    };
    if upm == 0 {
        return Err(ParseError::Malformed("register upm must be non-zero"));
    }
    let sizing: SizingParams = parse_sizing(&params, Ghost(control@), upm);
    let raw: Vec<u8> = match payload::decode(bytes::trim(text)) {
        Some(raw) => raw,
        None => {
            return Err(
                ParseError::RegisterFailed { cp, reason: RegisterError::MalformedPayload, reply },
            );
        },
    };
    if raw.len() > MAX_PAYLOAD_BYTES {
        return Err(
            ParseError::RegisterFailed { cp, reason: RegisterError::PayloadTooLarge, reply },
        );
    }
    if raw.len() == 0 {
        return Err(
            ParseError::RegisterFailed { cp, reason: RegisterError::MalformedPayload, reply },
        );
    }
    let glyph: RegisteredGlyph = if is_glyf {
        RegisteredGlyph::Glyf { glyf: raw, upm, sizing }
    } else {
        // Detect foreground use once, at registration, so the
        // renderer can decide cache keying without parsing again per frame.
        let uses_fg: bool = colr::container_uses_foreground(&raw);
        RegisteredGlyph::Color { container: raw, upm, sizing, uses_fg }
    };
    Ok(GlyphCommand::Register { cp, glyph, reply })
}

/// What the APC body `body` parses to.
pub open spec fn parsed(body: Seq<u8>) -> Result<CommandView, ParseError> {
    if body.len() < 4 || body.take(4) != PREFIX@ {
        Err(ParseError::NotGlyphProtocol)
    } else if body.len() < 5 || body[4] != bytes::SEMICOLON {
        Err(ParseError::Malformed("missing verb separator"))
    } else {
        let (first, rest) = bytes::halves_at_first(body.skip(5), bytes::SEMICOLON);
        let verb = bytes::trimmed(first);
        if verb.len() != 1 {
            Err(ParseError::Malformed("verb must be a single byte"))
        } else if verb[0] == SUPPORT {
            Ok(CommandView::Support)
        } else if verb[0] == QUERY {
            query(rest)
        } else if verb[0] == REGISTER {
            register(rest)
        } else if verb[0] == CLEAR {
            clearing(rest)
        } else {
            Err(ParseError::Malformed("unknown verb"))
        }
    }
}

/// Parse an APC body (identifier through final parameter, no introducer or
/// terminator) into a [`GlyphCommand`].
pub fn parse(body: &[u8]) -> (r: Result<GlyphCommand, ParseError>)
    ensures
        outcome_is(r, parsed(body@)),
{
    let len: usize = body.len();
    if len < 4 {
        return Err(ParseError::NotGlyphProtocol);
    }
    let head = &body[0..4];
    assert(head@ =~= body@.take(4));
    if !bytes::same_bytes(head, &PREFIX) {
        return Err(ParseError::NotGlyphProtocol);
    }
    if len < 5 || body[4] != bytes::SEMICOLON {
        return Err(ParseError::Malformed("missing verb separator"));
    }
    let tail = &body[5..len];
    assert(tail@ =~= body@.skip(5));
    let (first, rest) = bytes::split_first(tail, bytes::SEMICOLON);
    let verb = bytes::trim(first);
    if verb.len() != 1 {
        return Err(ParseError::Malformed("verb must be a single byte"));
    }
    match verb[0] {
        SUPPORT => Ok(GlyphCommand::Support),
        QUERY => parse_query(rest),
        REGISTER => parse_register(rest),
        CLEAR => parse_clear(rest),
        _ => Err(ParseError::Malformed("unknown verb")),
    }
}

// ---- replies -------------------------------------------------------------

/// The character for the hexadecimal digit `d`, in lower case.
pub open spec fn hex_char(d: int) -> char {
    if d < 10 {
        (0x30 + d) as char
    } else {
        (0x61 + (d - 10)) as char
    }
}

/// `n` in hexadecimal, without leading zeros.
pub open spec fn hex_text(n: nat) -> Seq<char>
    decreases n,
{
    if n < 16 {
        seq![hex_char(n as int)]
    } else {
        hex_text(n / 16).push(hex_char((n % 16) as int))
    }
}

/// The items of `items` in a row, with a `,` between one and the next.
pub open spec fn comma_separated(items: Seq<&str>) -> Seq<char>
    decreases items.len(),
{
    if items.len() == 0 {
        Seq::empty()
    } else if items.len() == 1 {
        items[0]@
    } else {
        comma_separated(items.drop_last()) + ","@ + items.last()@
    }
}

/// A reply to the verb `verb`: what frames an APC sequence, around the protocol
/// identifier, the verb, and `fields`.
pub open spec fn framed(verb: Seq<char>, fields: Seq<char>) -> Seq<char> {
    "\x1b_25a1;"@ + verb + fields + "\x1b\\"@
}

/// The text of the hexadecimal digit `d`, in lower case.
fn hex_digit_text(d: u32) -> (r: &'static str)
    requires
        d < 16,
    ensures
        r@ == seq![hex_char(d as int)],
{
    proof {
        reveal_strlit("0");
        reveal_strlit("1");
        reveal_strlit("2");
        reveal_strlit("3");
        reveal_strlit("4");
        reveal_strlit("5");
        reveal_strlit("6");
        reveal_strlit("7");
        reveal_strlit("8");
        reveal_strlit("9");
        reveal_strlit("a");
        reveal_strlit("b");
        reveal_strlit("c");
        reveal_strlit("d");
        reveal_strlit("e");
        reveal_strlit("f");
    }
    let text: &'static str = match d {
        0 => "0",
        1 => "1",
        2 => "2",
        3 => "3",
        4 => "4",
        5 => "5",
        6 => "6",
        7 => "7",
        8 => "8",
        9 => "9",
        10 => "a",
        11 => "b",
        12 => "c",
        13 => "d",
        14 => "e",
        _ => "f",
    };
    assert(text@ =~= seq![hex_char(d as int)]);
    text
}

/// Append `n` in hexadecimal to `out`.
fn push_hex(out: &mut String, n: u32)
    ensures
        final(out)@ == old(out)@ + hex_text(n as nat),
    decreases n,
{
    let ghost before = out@;
    if n >= 16 {
        push_hex(out, n / 16);
    }
    out.append(hex_digit_text(n % 16));
    assert(out@ =~= before + hex_text(n as nat));
}

/// The text of a reply to `verb` with `fields`.
fn frame(verb: &str, fields: &str) -> (r: String)
    ensures
        r@ == framed(verb@, fields@),
{
    let mut out: String = String::new();
    out.append("\x1b_25a1;");
    out.append(verb);
    out.append(fields);
    out.append("\x1b\\");
    assert(out@ =~= framed(verb@, fields@));
    out
}

/// The fields that name the codepoint `cp`.
pub open spec fn cp_field(cp: u32) -> Seq<char> {
    ";cp="@ + hex_text(cp as nat)
}

/// The text of the supported-formats reply.
pub open spec fn support_reply(fmts: Seq<&str>) -> Seq<char> {
    framed("s"@, ";fmt="@ + comma_separated(fmts))
}

/// The text of the reply to a query.
pub open spec fn query_reply(cp: u32, status: QueryStatus) -> Seq<char> {
    framed("q"@, cp_field(cp) + ";status="@ + status_text(status))
}

/// The text of the reply to a successful registration.
pub open spec fn register_ok_reply(cp: u32) -> Seq<char> {
    framed("r"@, cp_field(cp) + ";status=0"@)
}

/// The text of the reply to a failed registration.
pub open spec fn register_error_reply(cp: u32, reason: RegisterError) -> Seq<char> {
    framed("r"@, cp_field(cp) + ";status=1;reason="@ + reason_text(reason))
}

/// The text of the reply to a successful clear.
pub open spec fn clear_ok_reply(cp: Option<u32>) -> Seq<char> {
    framed(
        "c"@,
        match cp {
            Some(cp) => cp_field(cp) + ";status=0"@,
            None => ";status=0"@,
        },
    )
}

/// The text of the reply to a clear outside the private-use areas.
pub open spec fn clear_error_reply() -> Seq<char> {
    framed("c"@, ";status=1;reason=out_of_namespace"@)
}

/// The reply to `s`: the payload formats `fmts`.
pub fn format_support_response(fmts: &[&str]) -> (r: String)
    ensures
        r@ == support_reply(fmts@),
{
    let mut fields: String = String::new();
    fields.append(";fmt=");
    let mut i: usize = 0;
    assert(fields@ =~= ";fmt="@ + comma_separated(fmts@.take(0)));
    while i < fmts.len()
        invariant
            i <= fmts@.len(),
            fields@ == ";fmt="@ + comma_separated(fmts@.take(i as int)),
        decreases fmts@.len() - i,
    {
        let ghost next = fmts@.take(i + 1);
        assert(next.drop_last() =~= fmts@.take(i as int));
        assert(next.last() == fmts@[i as int]);
        if i > 0 {
            fields.append(",");
        }
        fields.append(fmts[i]);
        assert(fields@ =~= ";fmt="@ + comma_separated(next));
        i += 1;
    }
    assert(fmts@.take(i as int) =~= fmts@);
    frame("s", fields.as_str())
}

/// The reply to `q`: what covers `cp`.
pub fn format_query_response(cp: u32, status: QueryStatus) -> (r: String)
    ensures
        r@ == query_reply(cp, status),
{
    let mut fields: String = String::new();
    fields.append(";cp=");
    push_hex(&mut fields, cp);
    fields.append(";status=");
    fields.append(status.as_str());
    assert(fields@ =~= cp_field(cp) + ";status="@ + status_text(status));
    frame("q", fields.as_str())
}

/// The reply to `r` where the registration succeeded.
pub fn format_register_ok(cp: u32) -> (r: String)
    ensures
        r@ == register_ok_reply(cp),
{
    let mut fields: String = String::new();
    fields.append(";cp=");
    push_hex(&mut fields, cp);
    fields.append(";status=0");
    assert(fields@ =~= cp_field(cp) + ";status=0"@);
    frame("r", fields.as_str())
}

/// The reply to `r` where the registration failed.
pub fn format_register_error(cp: u32, reason: RegisterError) -> (r: String)
    ensures
        r@ == register_error_reply(cp, reason),
{
    let mut fields: String = String::new();
    fields.append(";cp=");
    push_hex(&mut fields, cp);
    fields.append(";status=1;reason=");
    fields.append(reason.as_str());
    assert(fields@ =~= cp_field(cp) + ";status=1;reason="@ + reason_text(reason));
    frame("r", fields.as_str())
}

/// The reply to `c` where one slot (`Some`) or all slots (`None`) were cleared.
pub fn format_clear_ok(cp: Option<u32>) -> (r: String)
    ensures
        r@ == clear_ok_reply(cp),
{
    let mut fields: String = String::new();
    if let Some(cp) = cp {
        fields.append(";cp=");
        push_hex(&mut fields, cp);
    }
    fields.append(";status=0");
    assert(cp matches Some(cp) ==> fields@ =~= cp_field(cp) + ";status=0"@);
    assert(cp is None ==> fields@ =~= ";status=0"@);
    frame("c", fields.as_str())
}

/// The reply to `c` where the codepoint is not private-use.
pub fn format_clear_error_out_of_namespace() -> (r: String)
    ensures
        r@ == clear_error_reply(),
{
    frame("c", ";status=1;reason=out_of_namespace")
}

// ---- laws ----------------------------------------------------------------

/// A body is left to other dispatchers exactly where it does not begin with the
/// protocol identifier.
pub proof fn lemma_not_glyph_protocol(body: Seq<u8>)
    ensures
        parsed(body) == Err::<CommandView, ParseError>(ParseError::NotGlyphProtocol) <==> !(
        body.len() >= 4 && body.take(4) == PREFIX@),
{
}

/// The body that a client sends: the identifier, the verb, and `rest`.
pub open spec fn request(verb: u8, rest: Seq<u8>) -> Seq<u8> {
    PREFIX@ + seq![bytes::SEMICOLON, verb, bytes::SEMICOLON] + rest
}

/// A request's verb and what follows it are read as they were written.
proof fn lemma_request_parts(verb: u8, rest: Seq<u8>)
    requires
        verb != bytes::SEMICOLON,
        !bytes::is_blank(verb),
    ensures
        request(verb, rest).len() >= 5,
        request(verb, rest).take(4) == PREFIX@,
        request(verb, rest)[4] == bytes::SEMICOLON,
        bytes::halves_at_first(request(verb, rest).skip(5), bytes::SEMICOLON) == (
            seq![verb],
            rest,
        ),
        bytes::trimmed(seq![verb]) == seq![verb],
{
    let body = request(verb, rest);
    let tail = body.skip(5);
    assert(body.take(4) =~= PREFIX@);
    assert(tail[0] == verb && tail[1] == bytes::SEMICOLON);
    bytes::lemma_first_index_unique(tail, bytes::SEMICOLON, 1);
    assert(tail.take(1) =~= seq![verb]);
    assert(tail.skip(2) =~= rest);
    bytes::lemma_trimmed_unchanged(seq![verb]);
}

/// Each verb selects its request, on all that follows it. A support request is
/// one whatever follows.
pub proof fn lemma_request_parses(rest: Seq<u8>)
    ensures
        parsed(request(SUPPORT, rest)) == Ok::<CommandView, ParseError>(CommandView::Support),
        parsed(request(QUERY, rest)) == query(rest),
        parsed(request(REGISTER, rest)) == register(rest),
        parsed(request(CLEAR, rest)) == clearing(rest),
{
    assert(parsed(request(SUPPORT, rest)) == Ok::<CommandView, ParseError>(CommandView::Support))
        by {
        lemma_request_parts(SUPPORT, rest);
    }
    assert(parsed(request(QUERY, rest)) == query(rest)) by {
        lemma_request_parts(QUERY, rest);
    }
    assert(parsed(request(REGISTER, rest)) == register(rest)) by {
        lemma_request_parts(REGISTER, rest);
    }
    assert(parsed(request(CLEAR, rest)) == clearing(rest)) by {
        lemma_request_parts(CLEAR, rest);
    }
}

/// Whatever a body holds, only a private-use codepoint is ever registered or
/// cleared.
pub proof fn lemma_only_private_use(body: Seq<u8>)
    ensures
        parsed(body) matches Ok(CommandView::Register { cp, .. }) ==> private_use(cp),
        parsed(body) matches Ok(CommandView::Clear { cp: Some(cp) }) ==> private_use(cp),
{
}

/// A registration outside the private-use areas is refused as that, with the
/// reply level that was asked for, whatever its payload and its other
/// parameters are.
pub proof fn lemma_namespace_comes_first(list: Seq<u8>, payload: Option<Seq<u8>>, cp: u32)
    requires
        param(list, "cp".spec_bytes()) matches Some(raw) && single_codepoint(
            raw,
            "register cp invalid",
        ) == Ok::<u32, ParseError>(cp),
        !private_use(cp),
    ensures
        registration(list, payload) == Err::<CommandView, ParseError>(
            ParseError::RegisterFailed {
                cp,
                reason: RegisterError::OutOfNamespace,
                reply: requested_reply(list),
            },
        ),
{
}

/// Only an advertised payload format is ever registered.
pub proof fn lemma_only_supported_formats(list: Seq<u8>, payload: Option<Seq<u8>>)
    requires
        registration(list, payload) is Ok,
    ensures
        exists|i: int|
            0 <= i < SUPPORTED_FORMATS@.len() && requested_format(list) == (
            #[trigger] SUPPORTED_FORMATS@[i]).spec_bytes(),
{
    assert(SUPPORTED_FORMATS@[0] == "glyf");
    assert(SUPPORTED_FORMATS@[1] == "colrv0");
}

/// A `colrv1` registration of a private-use codepoint is refused as a malformed
/// payload, with the reply level that was asked for, whatever its payload is.
pub proof fn lemma_colrv1_refused(list: Seq<u8>, payload: Option<Seq<u8>>, cp: u32)
    requires
        param(list, "cp".spec_bytes()) matches Some(raw) && single_codepoint(
            raw,
            "register cp invalid",
        ) == Ok::<u32, ParseError>(cp),
        private_use(cp),
        param(list, "fmt".spec_bytes()) == Some("colrv1".spec_bytes()),
    ensures
        registration(list, payload) == Err::<CommandView, ParseError>(
            ParseError::RegisterFailed {
                cp,
                reason: RegisterError::MalformedPayload,
                reply: requested_reply(list),
            },
        ),
{
}

/// The names of the payload formats differ.
pub proof fn lemma_format_names_differ()
    ensures
        "glyf".spec_bytes() != "colrv0".spec_bytes(),
        "glyf".spec_bytes() != "colrv1".spec_bytes(),
        "colrv0".spec_bytes() != "colrv1".spec_bytes(),
{
    reveal_strlit("glyf");
    reveal_strlit("colrv0");
    reveal_strlit("colrv1");
    is_ascii_spec_bytes("glyf");
    is_ascii_spec_bytes("colrv0");
    is_ascii_spec_bytes("colrv1");
    assert("glyf".spec_bytes().len() == 4);
    assert("colrv0".spec_bytes().len() == 6);
    assert("colrv1".spec_bytes().len() == 6);
    assert("colrv0".spec_bytes()[5] != "colrv1".spec_bytes()[5]);
}

/// A payload that was sent in base64 is what is registered: the text after the
/// last `;` is all of it, and decodes to it.
pub proof fn lemma_payload_round_trip(list: Seq<u8>, data: Seq<u8>)
    ensures
        register(list + seq![bytes::SEMICOLON] + payload::base64_encoding(data)) == registration(
            list,
            Some(data),
        ),
{
    let text = payload::base64_encoding(data);
    payload::lemma_encoding_symbols(data);
    bytes::lemma_halves_at_last(list, text, bytes::SEMICOLON);
    bytes::lemma_trimmed_unchanged(text);
    payload::lemma_decoding_inverts_encoding(data);
}

/// Of two parameter lists in a row, the second one's values win.
pub proof fn lemma_param_concat(a: Seq<u8>, b: Seq<u8>, key: Seq<u8>)
    ensures
        param(a + seq![bytes::SEMICOLON] + b, key) == match param(b, key) {
            Some(v) => Some(v),
            None => param(a, key),
        },
    decreases a.len(),
{
    let both = a + seq![bytes::SEMICOLON] + b;
    bytes::lemma_first_index(a, bytes::SEMICOLON);
    let i = bytes::first_index(a, bytes::SEMICOLON);
    assert(both[i] == bytes::SEMICOLON);
    assert(forall|j: int| 0 <= j < i ==> both[j] == a[j]);
    bytes::lemma_first_index_unique(both, bytes::SEMICOLON, i);
    assert(both.take(i) =~= a.take(i));
    let here = part_value(a.take(i), key);
    assert(param(both, key) == match param(both.skip(i + 1), key) {
        Some(v) => Some(v),
        None => here,
    });
    if i < a.len() {
        let rest = a.skip(i + 1);
        assert(both.skip(i + 1) =~= rest + seq![bytes::SEMICOLON] + b);
        lemma_param_concat(rest, b, key);
        assert(param(a, key) == match param(rest, key) {
            Some(v) => Some(v),
            None => here,
        });
    } else {
        assert(both.skip(i + 1) =~= b);
        assert(param(a, key) == here);
    }
}

/// A list of one part has that part's value.
pub proof fn lemma_param_of_part(part: Seq<u8>, key: Seq<u8>)
    requires
        !part.contains(bytes::SEMICOLON),
    ensures
        param(part, key) == part_value(part, key),
{
    assert forall|j: int| 0 <= j < part.len() implies part[j] != bytes::SEMICOLON by {
        assert(part.contains(part[j]));
    }
    bytes::lemma_first_index_unique(part, bytes::SEMICOLON, part.len() as int);
    assert(part.take(part.len() as int) =~= part);
}

/// Appending a part to a parameter list sets what the part sets, over an
/// earlier value if there is one, and nothing else.
pub proof fn lemma_param_appended(list: Seq<u8>, part: Seq<u8>, key: Seq<u8>)
    requires
        !part.contains(bytes::SEMICOLON),
    ensures
        param(list + seq![bytes::SEMICOLON] + part, key) == match part_value(part, key) {
            Some(v) => Some(v),
            None => param(list, key),
        },
{
    lemma_param_concat(list, part, key);
    lemma_param_of_part(part, key);
}

/// Whether `part` gives a value to none of the parameters that a request has.
pub open spec fn is_unknown(part: Seq<u8>) -> bool {
    &&& part_value(part, "cp".spec_bytes()) is None
    &&& part_value(part, "reply".spec_bytes()) is None
    &&& part_value(part, "fmt".spec_bytes()) is None
    &&& part_value(part, "upm".spec_bytes()) is None
    &&& part_value(part, "aw".spec_bytes()) is None
    &&& part_value(part, "lh".spec_bytes()) is None
    &&& part_value(part, "width".spec_bytes()) is None
    &&& part_value(part, "size".spec_bytes()) is None
    &&& part_value(part, "align".spec_bytes()) is None
    &&& part_value(part, "pad".spec_bytes()) is None
}

/// Unknown parameters are ignored: appending one changes no request.
pub proof fn lemma_unknown_parameter_ignored(
    list: Seq<u8>,
    part: Seq<u8>,
    payload: Option<Seq<u8>>,
)
    requires
        !part.contains(bytes::SEMICOLON),
        is_unknown(part),
    ensures
        query(list + seq![bytes::SEMICOLON] + part) == query(list),
        clearing(list + seq![bytes::SEMICOLON] + part) == clearing(list),
        registration(list + seq![bytes::SEMICOLON] + part, payload) == registration(list, payload),
{
    lemma_param_appended(list, part, "cp".spec_bytes());
    lemma_param_appended(list, part, "reply".spec_bytes());
    lemma_param_appended(list, part, "fmt".spec_bytes());
    lemma_param_appended(list, part, "upm".spec_bytes());
    lemma_param_appended(list, part, "aw".spec_bytes());
    lemma_param_appended(list, part, "lh".spec_bytes());
    lemma_param_appended(list, part, "width".spec_bytes());
    lemma_param_appended(list, part, "size".spec_bytes());
    lemma_param_appended(list, part, "align".spec_bytes());
    lemma_param_appended(list, part, "pad".spec_bytes());
}

/// Whether `a` and `b` are the same outcome, but for the sizing of a registered
/// glyph.
pub open spec fn same_but_sizing(
    a: Result<CommandView, ParseError>,
    b: Result<CommandView, ParseError>,
) -> bool {
    match (a, b) {
        (
            Ok(CommandView::Register { cp, glyph, reply }),
            Ok(CommandView::Register { cp: cp2, glyph: glyph2, reply: reply2 }),
        ) => cp == cp2 && reply == reply2 && match (glyph, glyph2) {
            (
                GlyphView::Glyf { glyf, upm, .. },
                GlyphView::Glyf { glyf: glyf2, upm: upm2, .. },
            ) => glyf == glyf2 && upm == upm2,
            (
                GlyphView::Color { container, upm, uses_fg, .. },
                GlyphView::Color { container: container2, upm: upm2, uses_fg: uses_fg2, .. },
            ) => container == container2 && upm == upm2 && uses_fg == uses_fg2,
            _ => false,
        },
        _ => a == b,
    }
}

/// Sizing parameters never fail a registration: requests that agree in all
/// others have the same outcome, whatever their sizing parameters are.
pub proof fn lemma_sizing_never_fails(list: Seq<u8>, other: Seq<u8>, payload: Option<Seq<u8>>)
    requires
        param(list, "cp".spec_bytes()) == param(other, "cp".spec_bytes()),
        param(list, "reply".spec_bytes()) == param(other, "reply".spec_bytes()),
        param(list, "fmt".spec_bytes()) == param(other, "fmt".spec_bytes()),
        param(list, "upm".spec_bytes()) == param(other, "upm".spec_bytes()),
    ensures
        same_but_sizing(registration(list, payload), registration(other, payload)),
{
}

/// Without sizing parameters a registration has the default sizing of its
/// units-per-em.
pub proof fn lemma_absent_sizing_is_default(list: Seq<u8>, upm: u16)
    requires
        param(list, "aw".spec_bytes()) is None,
        param(list, "lh".spec_bytes()) is None,
        param(list, "width".spec_bytes()) is None,
        param(list, "size".spec_bytes()) is None,
        param(list, "align".spec_bytes()) is None,
        param(list, "pad".spec_bytes()) is None,
    ensures
        requested_sizing(list, upm) == sizing::default_sizing(upm),
{
}

/// Whether a glyph can be rendered: its payload is neither empty nor too large,
/// its extents are not zero, it is one or two cells wide, and its insets are
/// fractions in `[0, 1]`.
pub open spec fn is_renderable(glyph: GlyphView) -> bool {
    let (data, upm, params) = match glyph {
        GlyphView::Glyf { glyf, upm, sizing } => (glyf, upm, sizing),
        GlyphView::Color { container, upm, sizing, .. } => (container, upm, sizing),
    };
    &&& 0 < data.len() <= MAX_PAYLOAD_BYTES
    &&& upm > 0
    &&& params.aw > 0
    &&& params.lh > 0
    &&& params.width == 1 || params.width == 2
    &&& sizing::in_range(params.pad)
}

/// Whatever a body holds, a glyph that comes of it can be rendered, and says of
/// itself whether it uses the foreground.
pub proof fn lemma_registered_is_renderable(body: Seq<u8>)
    ensures
        parsed(body) matches Ok(CommandView::Register { glyph, .. }) ==> is_renderable(glyph) && (
        glyph matches GlyphView::Color { container, uses_fg, .. } ==> uses_fg
            == colr::payload_references_foreground(container)),
{
    let (_, rest) = bytes::halves_at_first(body.skip(5), bytes::SEMICOLON);
    let (list, _) = bytes::halves_at_last(rest, bytes::SEMICOLON);
    if let Some(raw) = param(list, "pad".spec_bytes()) {
        sizing::lemma_padding_in_range(raw);
    }
}

/// The bytes of an ASCII text.
pub open spec fn ascii_bytes(text: Seq<char>) -> Seq<u8> {
    text.map_values(|c: char| c as u8)
}

/// What writes a number in hexadecimal holds hexadecimal digits only.
pub proof fn lemma_hex_digits(s: Seq<u8>)
    requires
        hex_value(s) is Some,
    ensures
        forall|i: int| 0 <= i < s.len() ==> hex_digit(#[trigger] s[i]) is Some,
    decreases s.len(),
{
    if s.len() > 0 {
        lemma_hex_digits(s.drop_last());
        assert forall|i: int| 0 <= i < s.len() implies hex_digit(#[trigger] s[i]) is Some by {
            if i < s.len() - 1 {
                assert(s[i] == s.drop_last()[i]);
            }
        }
    }
}

/// A number that is written in hexadecimal, in at most six digits, reads back.
pub proof fn lemma_hex_reads_back(n: nat)
    requires
        n < 0x100_0000,
    ensures
        hex_value(ascii_bytes(hex_text(n))) == Some(n as int),
        is_ascii_chars(hex_text(n)),
        1 <= hex_text(n).len() <= 6,
        n < 0x10_0000 ==> hex_text(n).len() <= 5,
        n < 0x1_0000 ==> hex_text(n).len() <= 4,
        n < 0x1000 ==> hex_text(n).len() <= 3,
        n < 0x100 ==> hex_text(n).len() <= 2,
        n < 0x10 ==> hex_text(n).len() <= 1,
    decreases n,
{
    let s = ascii_bytes(hex_text(n));
    let d = (n % 16) as int;
    assert(s.last() == hex_char(d) as u8);
    assert(hex_digit(s.last()) == Some(d));
    if n >= 16 {
        lemma_hex_reads_back(n / 16);
        assert(s.drop_last() =~= ascii_bytes(hex_text(n / 16)));
    } else {
        assert(s.drop_last() =~= Seq::empty());
        assert(hex_value(s.drop_last()) == Some(0int));
    }
}

/// The codepoint in a reply reads back as the codepoint that was meant.
pub proof fn lemma_reply_codepoint_reads_back(cp: u32)
    requires
        is_scalar(cp as int),
    ensures
        codepoint(ascii_bytes(hex_text(cp as nat))) == Some(cp),
{
    let digits = ascii_bytes(hex_text(cp as nat));
    lemma_hex_reads_back(cp as nat);
    lemma_hex_digits(digits);
    bytes::lemma_trimmed_unchanged(digits);
}

/// The part `key=value` of a parameter list.
pub open spec fn setting(key: Seq<u8>, value: Seq<u8>) -> Seq<u8> {
    key + seq![bytes::EQUALS] + value
}

/// Whether `key` can stand before the `=` of a setting: it is not empty, and
/// holds no blank, no `=` and no `;`.
pub open spec fn is_key(key: Seq<u8>) -> bool {
    &&& key.len() > 0
    &&& forall|i: int|
        0 <= i < key.len() ==> !bytes::is_blank(#[trigger] key[i]) && key[i] != bytes::EQUALS
            && key[i] != bytes::SEMICOLON
}

/// A setting gives a value to its own key only; a value without blanks is that
/// value.
pub proof fn lemma_setting(key: Seq<u8>, value: Seq<u8>, other: Seq<u8>)
    requires
        is_key(key),
        !value.contains(bytes::SEMICOLON),
    ensures
        !setting(key, value).contains(bytes::SEMICOLON),
        other != key ==> param(setting(key, value), other) is None,
        (forall|i: int| 0 <= i < value.len() ==> !bytes::is_blank(#[trigger] value[i])) ==> param(
            setting(key, value),
            key,
        ) == Some(value),
{
    let part = setting(key, value);
    let at = key.len() as int;
    assert(part[0] == key[0] && part[at] == bytes::EQUALS);
    assert forall|i: int| 0 <= i < part.len() implies part[i] != bytes::SEMICOLON by {
        if i < at {
            assert(part[i] == key[i]);
        } else if i > at {
            assert(part[i] == value[i - at - 1]);
            assert(value.contains(part[i]));
        }
    }
    lemma_param_of_part(part, other);
    lemma_param_of_part(part, key);
    bytes::lemma_trimmed_end(part, at);
    let pair = bytes::trimmed(part);
    assert(bytes::trimmed_start(part) == part);
    assert forall|i: int| 0 <= i < at implies pair[i] != bytes::EQUALS by {
        assert(pair[i] == key[i]);
    }
    bytes::lemma_first_index_unique(pair, bytes::EQUALS, at);
    assert(pair.take(at) =~= key);
    bytes::lemma_trimmed_unchanged(key);
    if forall|i: int| 0 <= i < value.len() ==> !bytes::is_blank(#[trigger] value[i]) {
        assert forall|i: int| 0 <= i < part.len() implies !bytes::is_blank(#[trigger] part[i]) by {
            if i < at {
                assert(part[i] == key[i]);
            } else if i > at {
                assert(part[i] == value[i - at - 1]);
            }
        }
        bytes::lemma_trimmed_unchanged(part);
        bytes::lemma_trimmed_unchanged(value);
        assert(part.skip(at + 1) =~= value);
    }
}

/// The bytes of an ASCII text are its UTF-8 encoding.
pub proof fn lemma_ascii_bytes(text: Seq<char>)
    requires
        is_ascii_chars(text),
    ensures
        encode_utf8(text) == ascii_bytes(text),
{
    is_ascii_chars_encode_utf8(text);
    assert(encode_utf8(text) =~= ascii_bytes(text));
}

/// Status words are ASCII without a `;`.
proof fn lemma_status_text(status: QueryStatus)
    ensures
        is_ascii_chars(status_text(status)),
        !ascii_bytes(status_text(status)).contains(bytes::SEMICOLON),
{
    reveal_strlit("");
    reveal_strlit("system");
    reveal_strlit("glossary");
    reveal_strlit("system,glossary");
}

/// `cp`, as a key.
spec fn cp_key() -> Seq<u8> {
    seq![0x63, 0x70]
}

/// `status`, as a key.
spec fn status_key() -> Seq<u8> {
    seq![0x73, 0x74, 0x61, 0x74, 0x75, 0x73]
}

/// The parameters that a query reply holds.
spec fn query_reply_list(cp: u32, status: QueryStatus) -> Seq<u8> {
    setting(cp_key(), ascii_bytes(hex_text(cp as nat))) + seq![bytes::SEMICOLON] + setting(
        status_key(),
        ascii_bytes(status_text(status)),
    )
}

/// A query reply is ASCII: `ESC _`, a query request, `ESC \`.
proof fn lemma_query_reply_bytes(cp: u32, status: QueryStatus)
    requires
        is_scalar(cp as int),
    ensures
        encode_utf8(query_reply(cp, status)) == seq![0x1bu8, 0x5f] + request(
            QUERY,
            query_reply_list(cp, status),
        ) + seq![0x1bu8, 0x5c],
{
    let chars = query_reply(cp, status);
    reveal_strlit("\x1b_25a1;");
    reveal_strlit("q");
    reveal_strlit(";cp=");
    reveal_strlit(";status=");
    reveal_strlit("\x1b\\");
    lemma_hex_reads_back(cp as nat);
    lemma_status_text(status);
    let front = "\x1b_25a1;"@ + "q"@;
    let middle = ";cp="@ + hex_text(cp as nat) + ";status="@ + status_text(status);
    let back = "\x1b\\"@;
    assert(is_ascii_chars(front));
    assert(is_ascii_chars(middle));
    assert(is_ascii_chars(back));
    assert(chars == front + middle + back);
    assert(is_ascii_chars(chars));
    lemma_ascii_bytes(chars);
    assert(ascii_bytes(front) =~= seq![0x1bu8, 0x5f] + PREFIX@ + seq![bytes::SEMICOLON, QUERY]);
    assert(ascii_bytes(middle) =~= seq![bytes::SEMICOLON] + query_reply_list(cp, status));
    assert(ascii_bytes(back) =~= seq![0x1bu8, 0x5c]);
    assert(ascii_bytes(chars) =~= ascii_bytes(front) + ascii_bytes(middle) + ascii_bytes(back));
    assert(ascii_bytes(chars) =~= seq![0x1bu8, 0x5f] + request(
        QUERY,
        query_reply_list(cp, status),
    ) + seq![0x1bu8, 0x5c]);
}

/// The parameters that a query reply holds name its codepoint.
proof fn lemma_query_reply_list(cp: u32, status: QueryStatus)
    requires
        is_scalar(cp as int),
    ensures
        query(query_reply_list(cp, status)) == Ok::<CommandView, ParseError>(
            CommandView::Query { cp },
        ),
{
    let digits = ascii_bytes(hex_text(cp as nat));
    let word = ascii_bytes(status_text(status));
    lemma_hex_reads_back(cp as nat);
    lemma_hex_digits(digits);
    lemma_status_text(status);
    assert("cp".spec_bytes() =~= cp_key()) by {
        reveal_strlit("cp");
        is_ascii_spec_bytes("cp");
    }
    assert(!digits.contains(bytes::SEMICOLON));
    assert(!digits.contains(bytes::COMMA));
    lemma_setting(cp_key(), digits, cp_key());
    assert(status_key().len() != cp_key().len());
    lemma_setting(status_key(), word, cp_key());
    lemma_param_concat(setting(cp_key(), digits), setting(status_key(), word), cp_key());
    lemma_reply_codepoint_reads_back(cp);
}

/// A query reply is framed by `ESC _` and `ESC \`, and the body between them
/// parses to the query of the codepoint that it is about, whatever the status.
pub proof fn lemma_query_reply_reads_back(cp: u32, status: QueryStatus)
    requires
        is_scalar(cp as int),
    ensures
        ({
            let text = encode_utf8(query_reply(cp, status));
            let n = text.len() as int;
            &&& n >= 4
            &&& text.take(2) == seq![0x1bu8, 0x5f]
            &&& text.skip(n - 2) == seq![0x1bu8, 0x5c]
            &&& parsed(text.subrange(2, n - 2)) == Ok::<CommandView, ParseError>(
                CommandView::Query { cp },
            )
        }),
{
    let text = encode_utf8(query_reply(cp, status));
    let n = text.len() as int;
    let list = query_reply_list(cp, status);
    lemma_query_reply_bytes(cp, status);
    assert(text.subrange(2, n - 2) =~= request(QUERY, list));
    assert(text.take(2) =~= seq![0x1bu8, 0x5f]);
    assert(text.skip(n - 2) =~= seq![0x1bu8, 0x5c]);
    lemma_request_parses(list);
    lemma_query_reply_list(cp, status);
}

/// Parts of a parameter list in a row, with a `;` between one and the next.
pub open spec fn part_list(parts: Seq<Seq<u8>>) -> Seq<u8>
    decreases parts.len(),
{
    if parts.len() <= 1 {
        parts[0]
    } else {
        part_list(parts.drop_last()) + seq![bytes::SEMICOLON] + parts.last()
    }
}

/// Replacing a part changes only the parameters that one of the two sets.
proof fn lemma_part_replaced(parts: Seq<Seq<u8>>, i: int, part: Seq<u8>, key: Seq<u8>)
    requires
        0 <= i < parts.len(),
        param(parts[i], key) == param(part, key),
    ensures
        param(part_list(parts.update(i, part)), key) == param(part_list(parts), key),
    decreases parts.len(),
{
    let replaced = parts.update(i, part);
    if parts.len() > 1 {
        let front = parts.drop_last();
        lemma_param_concat(part_list(front), parts.last(), key);
        lemma_param_concat(part_list(replaced.drop_last()), replaced.last(), key);
        if i < parts.len() - 1 {
            assert(replaced.drop_last() =~= front.update(i, part));
            lemma_part_replaced(front, i, part, key);
        } else {
            assert(replaced.drop_last() =~= front);
        }
    }
}

/// Whether `key` names a sizing parameter.
pub open spec fn is_sizing_key(key: Seq<u8>) -> bool {
    ||| key == "aw".spec_bytes()
    ||| key == "lh".spec_bytes()
    ||| key == "width".spec_bytes()
    ||| key == "size".spec_bytes()
    ||| key == "align".spec_bytes()
    ||| key == "pad".spec_bytes()
}

/// Whether two sizings agree in every field that the parameter `key` does not
/// set.
pub open spec fn same_sizing_but(key: Seq<u8>, a: SizingParams, b: SizingParams) -> bool {
    &&& key != "aw".spec_bytes() ==> a.aw == b.aw
    &&& key != "lh".spec_bytes() ==> a.lh == b.lh
    &&& key != "width".spec_bytes() ==> a.width == b.width
    &&& key != "size".spec_bytes() ==> a.size == b.size
    &&& key != "align".spec_bytes() ==> a.align_h == b.align_h && a.align_v == b.align_v
    &&& key != "pad".spec_bytes() ==> a.pad == b.pad
}

/// The sizing of a glyph.
pub open spec fn glyph_sizing(glyph: GlyphView) -> SizingParams {
    match glyph {
        GlyphView::Glyf { sizing, .. } => sizing,
        GlyphView::Color { sizing, .. } => sizing,
    }
}

/// Whether `a` and `b` are the same outcome, but for what the sizing parameter
/// `key` sets in a registered glyph.
pub open spec fn same_but_parameter(
    key: Seq<u8>,
    a: Result<CommandView, ParseError>,
    b: Result<CommandView, ParseError>,
) -> bool {
    &&& same_but_sizing(a, b)
    &&& match (a, b) {
        (
            Ok(CommandView::Register { glyph, .. }),
            Ok(CommandView::Register { glyph: glyph2, .. }),
        ) => same_sizing_but(key, glyph_sizing(glyph), glyph_sizing(glyph2)),
        _ => true,
    }
}

/// The sizing parameters' names can be keys, and are not those of the other
/// parameters.
proof fn lemma_sizing_keys(key: Seq<u8>)
    requires
        is_sizing_key(key),
    ensures
        is_key(key),
        key != "cp".spec_bytes(),
        key != "reply".spec_bytes(),
        key != "fmt".spec_bytes(),
        key != "upm".spec_bytes(),
{
    reveal_strlit("aw");
    reveal_strlit("lh");
    reveal_strlit("width");
    reveal_strlit("size");
    reveal_strlit("align");
    reveal_strlit("pad");
    reveal_strlit("cp");
    reveal_strlit("reply");
    reveal_strlit("fmt");
    reveal_strlit("upm");
    is_ascii_spec_bytes("aw");
    is_ascii_spec_bytes("lh");
    is_ascii_spec_bytes("width");
    is_ascii_spec_bytes("size");
    is_ascii_spec_bytes("align");
    is_ascii_spec_bytes("pad");
    is_ascii_spec_bytes("cp");
    is_ascii_spec_bytes("reply");
    is_ascii_spec_bytes("fmt");
    is_ascii_spec_bytes("upm");
    assert("aw".spec_bytes() =~= seq![0x61u8, 0x77]);
    assert("lh".spec_bytes() =~= seq![0x6cu8, 0x68]);
    assert("width".spec_bytes() =~= seq![0x77u8, 0x69, 0x64, 0x74, 0x68]);
    assert("size".spec_bytes() =~= seq![0x73u8, 0x69, 0x7a, 0x65]);
    assert("align".spec_bytes() =~= seq![0x61u8, 0x6c, 0x69, 0x67, 0x6e]);
    assert("pad".spec_bytes() =~= seq![0x70u8, 0x61, 0x64]);
    assert("cp".spec_bytes()[0] == 0x63);
    assert("reply".spec_bytes()[0] == 0x72);
    assert("fmt".spec_bytes()[0] == 0x66);
    assert("upm".spec_bytes()[0] == 0x75);
}

/// Changing the value of one sizing parameter of a registration, to whatever
/// else, changes nothing but the fields that this parameter sets: the request
/// is refused for the same reason, or registers the same glyph with the rest of
/// its sizing as it was.
pub proof fn lemma_sizing_parameter_sets_its_own(
    parts: Seq<Seq<u8>>,
    i: int,
    key: Seq<u8>,
    value: Seq<u8>,
    other: Seq<u8>,
    text: Seq<u8>,
)
    requires
        0 <= i < parts.len(),
        is_sizing_key(key),
        parts[i] == setting(key, value),
        !value.contains(bytes::SEMICOLON),
        !other.contains(bytes::SEMICOLON),
        !text.contains(bytes::SEMICOLON),
    ensures
        same_but_parameter(
            key,
            register(part_list(parts) + seq![bytes::SEMICOLON] + text),
            register(
                part_list(parts.update(i, setting(key, other))) + seq![bytes::SEMICOLON] + text,
            ),
        ),
{
    let list = part_list(parts);
    let list2 = part_list(parts.update(i, setting(key, other)));
    bytes::lemma_halves_at_last(list, text, bytes::SEMICOLON);
    bytes::lemma_halves_at_last(list2, text, bytes::SEMICOLON);
    lemma_sizing_keys(key);
    assert forall|k: Seq<u8>| k != key implies #[trigger] param(list, k) == param(list2, k) by {
        lemma_setting(key, value, k);
        lemma_setting(key, other, k);
        lemma_part_replaced(parts, i, setting(key, other), k);
    }
    let payload = payload::base64_decoding(bytes::trimmed(text));
    lemma_sizing_never_fails(list, list2, payload);
    assert(requested_upm(list) == requested_upm(list2));
    if let Some(upm) = requested_upm(list) {
        assert(same_sizing_but(key, requested_sizing(list, upm), requested_sizing(list2, upm)));
    }
}

} // verus!
