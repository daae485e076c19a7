//! Per-registration sizing and placement parameters.
//!
//! These are the render-time inputs that decide how an authored outline maps
//! onto a terminal cell: the authored extent (`aw`, `lh`), the cell-width
//! override (`width`), the scale policy (`size`), the placement (`align`), and
//! the span insets (`pad`).

use crate::bytes;
use crate::fraction;
use vstd::prelude::*;
use vstd::string::*;
use vstd::utf8::*;

verus! {

/// Scale policy. Given the authored extent `aw × lh` and the effective render
/// span `W' × H'`, each mode picks the x and y scale factors.
#[derive(Debug, Clone, Copy, PartialEq, Eq, Structural)]
pub enum SizeMode {
    /// `H'/lh` on both axes; line height drives, aspect preserved (default).
    Height,
    /// `W'/aw` on both axes; advance drives, aspect preserved.
    Advance,
    /// `min(W'/aw, H'/lh)`; fits entirely inside the span, aspect preserved.
    Contain,
    /// `max(W'/aw, H'/lh)`; fills the span, may overflow, aspect preserved.
    Cover,
    /// `W'/aw` and `H'/lh` independently; aspect not preserved.
    Stretch,
}

impl Default for SizeMode {
    fn default() -> (r: Self)
        ensures
            r == SizeMode::Height,
    {
        SizeMode::Height
    }
}

/// The scale policy that a `size=` value names; `height` where it names none.
pub open spec fn size_mode(raw: Seq<u8>) -> SizeMode {
    if raw == "advance".spec_bytes() {
        SizeMode::Advance
    } else if raw == "contain".spec_bytes() {
        SizeMode::Contain
    } else if raw == "cover".spec_bytes() {
        SizeMode::Cover
    } else if raw == "stretch".spec_bytes() {
        SizeMode::Stretch
    } else {
        SizeMode::Height
    }
}

impl SizeMode {
    /// Parse a `size=` value; unknown values fall back to the default.
    pub fn from_wire(raw: &[u8]) -> (r: Self)
        ensures
            r == size_mode(raw@),
    {
        if bytes::is_word(raw, "advance") {
            SizeMode::Advance
        } else if bytes::is_word(raw, "contain") {
            SizeMode::Contain
        } else if bytes::is_word(raw, "cover") {
            SizeMode::Cover
        } else if bytes::is_word(raw, "stretch") {
            SizeMode::Stretch
        } else {
            SizeMode::default()
        }
    }
}

/// Horizontal placement of the scaled outline within the render span.
#[derive(Debug, Clone, Copy, PartialEq, Eq, Structural)]
pub enum HAlign {
    /// Outline `x=0` aligns with the span's left edge.
    Start,
    /// Outline horizontal midpoint aligns with the span's midpoint (default).
    Center,
    /// Outline `x=aw` aligns with the span's right edge.
    End,
}

impl Default for HAlign {
    fn default() -> (r: Self)
        ensures
            r == HAlign::Center,
    {
        HAlign::Center
    }
}

/// The horizontal placement that `raw` names; `center` where it names none.
pub open spec fn h_align(raw: Seq<u8>) -> HAlign {
    if raw == "start".spec_bytes() {
        HAlign::Start
    } else if raw == "end".spec_bytes() {
        HAlign::End
    } else {
        HAlign::Center
    }
}

impl HAlign {
    /// Parse the horizontal part of an `align=` value.
    pub fn from_wire(raw: &[u8]) -> (r: Self)
        ensures
            r == h_align(raw@),
    {
        if bytes::is_word(raw, "start") {
            HAlign::Start
        } else if bytes::is_word(raw, "end") {
            HAlign::End
        } else {
            HAlign::default()
        }
    }
}

/// Vertical placement of the scaled outline within the render span. Y-up:
/// `start` is the bottom edge, `end` the top.
#[derive(Debug, Clone, Copy, PartialEq, Eq, Structural)]
pub enum VAlign {
    /// Outline `y=y_min` aligns with the span's bottom edge.
    Start,
    /// Outline vertical midpoint aligns with the span's midpoint (default).
    Center,
    /// Outline `y=y_max` aligns with the span's top edge.
    End,
    /// Outline `y=0` sits on the terminal's text baseline.
    Baseline,
}

impl Default for VAlign {
    fn default() -> (r: Self)
        ensures
            r == VAlign::Center,
    {
        VAlign::Center
    }
}

/// The vertical placement that `raw` names; `center` where it names none.
pub open spec fn v_align(raw: Seq<u8>) -> VAlign {
    if raw == "start".spec_bytes() {
        VAlign::Start
    } else if raw == "end".spec_bytes() {
        VAlign::End
    } else if raw == "baseline".spec_bytes() {
        VAlign::Baseline
    } else {
        VAlign::Center
    }
}

impl VAlign {
    /// Parse the vertical part of an `align=` value.
    pub fn from_wire(raw: &[u8]) -> (r: Self)
        ensures
            r == v_align(raw@),
    {
        if bytes::is_word(raw, "start") {
            VAlign::Start
        } else if bytes::is_word(raw, "end") {
            VAlign::End
        } else if bytes::is_word(raw, "baseline") {
            VAlign::Baseline
        } else {
            VAlign::default()
        }
    }
}

/// Insets from the render-span edges, as fractions in `[0, 1]`: `top` and
/// `bottom` of the cell height, `left` and `right` of the (width-scaled) span
/// width. Each is the IEEE 754 binary32 bit pattern of its fraction.
#[derive(Debug, Clone, Copy, PartialEq, Eq, Structural)]
pub struct Padding {
    pub top: u32,
    pub right: u32,
    pub bottom: u32,
    pub left: u32,
}

/// No insets.
pub open spec fn no_padding() -> Padding {
    Padding { top: 0, right: 0, bottom: 0, left: 0 }
}

/// Whether every inset is a fraction in `[0, 1]`.
pub open spec fn in_range(pad: Padding) -> bool {
    &&& pad.top <= fraction::ONE
    &&& pad.right <= fraction::ONE
    &&& pad.bottom <= fraction::ONE
    &&& pad.left <= fraction::ONE
}

impl Default for Padding {
    fn default() -> (r: Self)
        ensures
            r == no_padding(),
    {
        Padding { top: 0, right: 0, bottom: 0, left: 0 }
    }
}

/// The full sizing and placement parameter set for one registration. `aw` and
/// `lh` are in absolute `upm` units (already resolved from their defaults of
/// `upm` at parse time).
#[derive(Debug, Clone, Copy, PartialEq, Eq, Structural)]
pub struct SizingParams {
    /// Authored advance width, in `upm` units (default `upm`).
    pub aw: u16,
    /// Authored line height, in `upm` units (default `upm`).
    pub lh: u16,
    /// Unicode cell width override: `1` (narrow) or `2` (wide).
    pub width: u8,
    pub size: SizeMode,
    pub align_h: HAlign,
    pub align_v: VAlign,
    pub pad: Padding,
}

/// The parameters of a glyph authored in `upm`-unit space that sets none.
pub open spec fn default_sizing(upm: u16) -> SizingParams {
    SizingParams {
        aw: upm,
        lh: upm,
        width: 1,
        size: SizeMode::Height,
        align_h: HAlign::Center,
        align_v: VAlign::Center,
        pad: no_padding(),
    }
}

impl SizingParams {
    /// Defaults for a glyph authored in `upm`-unit space: `aw=lh=upm`,
    /// `width=1`, `size=height`, `align=center,center`, `pad=0,0,0,0`.
    pub fn defaults_for_upm(upm: u16) -> (r: Self)
        ensures
            r == default_sizing(upm),
    {
        SizingParams {
            aw: upm,
            lh: upm,
            width: 1,
            size: SizeMode::default(),
            align_h: HAlign::default(),
            align_v: VAlign::default(),
            pad: Padding::default(),
        }
    }
}

/// The cell width that a `width=` value names.
pub open spec fn cell_width(raw: Seq<u8>) -> u8 {
    if raw == "2".spec_bytes() {
        2
    } else {
        1
    }
}

/// Parse a `width=` value to `1` or `2`; anything else is `1`.
pub fn parse_width(raw: &[u8]) -> (r: u8)
    ensures
        r == cell_width(raw@),
{
    if bytes::is_word(raw, "2") {
        2
    } else {
        1
    }
}

/// The item at `n`, from `0`, of the comma-separated list `s`, if it has that
/// many. A list without a comma has one item.
pub open spec fn list_item(s: Seq<u8>, n: nat) -> Option<Seq<u8>>
    decreases n,
{
    let i = bytes::first_index(s, bytes::COMMA);
    if n == 0 {
        Some(s.take(i))
    } else if i < s.len() {
        list_item(s.skip(i + 1), (n - 1) as nat)
    } else {
        None
    }
}

/// The first item of the list `raw`, and the list that follows it, if any.
fn split_item(raw: &[u8]) -> (r: (&[u8], Option<&[u8]>))
    ensures
        list_item(raw@, 0) == Some(r.0@),
        match r.1 {
            Some(rest) => forall|n: nat| #[trigger]
                list_item(raw@, n + 1) == list_item(rest@, n),
            None => forall|n: nat| #[trigger] list_item(raw@, n + 1) is None,
        },
{
    let len: usize = raw.len();
    match bytes::find_byte(raw, bytes::COMMA) {
        Some(i) => {
            let item = &raw[0..i];
            let rest = &raw[i + 1..len];
            assert(item@ =~= raw@.take(i as int));
            assert(rest@ =~= raw@.skip(i + 1));
            (item, Some(rest))
        },
        None => {
            assert(raw@.take(len as int) =~= raw@);
            (raw, None)
        },
    }
}

/// The placement that an `align=<h>,<v>` value names.
pub open spec fn alignment(raw: Seq<u8>) -> (HAlign, VAlign) {
    (
        match list_item(raw, 0) {
            Some(h) => h_align(h),
            None => HAlign::Center,
        },
        match list_item(raw, 1) {
            Some(v) => v_align(v),
            None => VAlign::Center,
        },
    )
}

/// Parse `align=<h>,<v>`; either component may be absent (keeps its default).
pub fn parse_align(raw: &[u8]) -> (r: (HAlign, VAlign))
    ensures
        r == alignment(raw@),
{
    let (first, rest) = split_item(raw);
    let h = HAlign::from_wire(first);
    let v = match rest {
        Some(rest) => {
            let (second, _) = split_item(rest);
            assert(list_item(raw@, 0 + 1) == list_item(rest@, 0));
            VAlign::from_wire(second)
        },
        None => {
            assert(list_item(raw@, 0 + 1) is None);
            VAlign::default()
        },
    };
    (h, v)
}

/// Whether `c` has the Unicode property White_Space.
pub open spec fn is_white_space(c: char) -> bool {
    let v = c as u32;
    ||| 0x09 <= v <= 0x0d
    ||| v == 0x20
    ||| v == 0x85
    ||| v == 0xa0
    ||| v == 0x1680
    ||| 0x2000 <= v <= 0x200a
    ||| v == 0x2028
    ||| v == 0x2029
    ||| v == 0x202f
    ||| v == 0x205f
    ||| v == 0x3000
}

/// `s` without leading white space.
pub open spec fn text_trimmed_start(s: Seq<char>) -> Seq<char>
    decreases s.len(),
{
    if s.len() > 0 && is_white_space(s[0]) {
        text_trimmed_start(s.drop_first())
    } else {
        s
    }
}

/// `s` without trailing white space.
pub open spec fn text_trimmed_end(s: Seq<char>) -> Seq<char>
    decreases s.len(),
{
    if s.len() > 0 && is_white_space(s.last()) {
        text_trimmed_end(s.drop_last())
    } else {
        s
    }
}

/// `str::trim` hands out the text without leading and trailing white space,
/// as Unicode's White_Space property has it.
pub assume_specification[ str::trim ](s: &str) -> (r: &str)
    ensures
        r@ == text_trimmed_end(text_trimmed_start(s@)),
;

/// `core::str::from_utf8` reads the bytes as text, or fails where they are not
/// valid UTF-8.
#[verifier::external_body]
fn utf8_text(raw: &[u8]) -> (r: Option<&str>)
    ensures
        match r {
            Some(s) => valid_utf8(raw@) && s@ == decode_utf8(raw@),
            None => !valid_utf8(raw@),
        },
{
    core::str::from_utf8(raw).ok()
}

/// The fraction that one component of a `pad=` value writes, white space
/// around it ignored; none where it writes none.
pub open spec fn inset_fraction(raw: Seq<u8>) -> Option<u32> {
    if valid_utf8(raw) {
        fraction::fraction(
            encode_utf8(text_trimmed_end(text_trimmed_start(decode_utf8(raw)))),
        )
    } else {
        None
    }
}

/// Parse a decimal fraction in `[0, 1]` (e.g. `0.25`, `1`, `.5`). Returns
/// `None` for unparseable input; clamps to `[0, 1]`.
fn parse_fraction(raw: &[u8]) -> (r: Option<u32>)
    ensures
        r == inset_fraction(raw@),
{
    match utf8_text(raw) {
        Some(s) => fraction::read_fraction(s.trim().as_bytes()),
        None => None,
    }
}

/// The inset at `n` of a `pad=` value; `0` where the value has no such item,
/// or the item writes no fraction.
pub open spec fn inset_at(raw: Seq<u8>, n: nat) -> u32 {
    match list_item(raw, n) {
        Some(item) => match inset_fraction(item) {
            Some(bits) => bits,
            None => 0,
        },
        None => 0,
    }
}

/// The insets that a `pad=<t>,<r>,<b>,<l>` value writes.
pub open spec fn padding(raw: Seq<u8>) -> Padding {
    Padding {
        top: inset_at(raw, 0),
        right: inset_at(raw, 1),
        bottom: inset_at(raw, 2),
        left: inset_at(raw, 3),
    }
}

/// Read the first inset of `list`, and hand out the list that follows it.
fn take_inset<'a>(list: Option<&'a [u8]>) -> (r: (u32, Option<&'a [u8]>))
    ensures
        match list {
            Some(raw) => {
                &&& r.0 == inset_at(raw@, 0)
                &&& match r.1 {
                    Some(rest) => forall|n: nat| #[trigger]
                        inset_at(raw@, n + 1) == inset_at(rest@, n),
                    None => forall|n: nat| #[trigger] inset_at(raw@, n + 1) == 0,
                }
            },
            None => r.0 == 0 && r.1 is None,
        },
{
    match list {
        Some(raw) => {
            let (item, rest) = split_item(raw);
            let value: u32 = match parse_fraction(item) {
                Some(bits) => bits,
                None => 0,
            };
            (value, rest)
        },
        None => (0, None),
    }
}

/// Parse a `pad=<t>,<r>,<b>,<l>` value. Each component is a fraction in
/// `[0, 1]`; missing or unparseable components default to `0`, and values are
/// clamped into range. The degenerate-span guard (`l+r≥1` or `t+b≥1` means no
/// padding) is applied at render time, not here.
pub fn parse_pad(raw: &[u8]) -> (r: Padding)
    ensures
        r == padding(raw@),
{
    let (top, rest) = take_inset(Some(raw));
    assert(rest matches Some(s) ==> inset_at(raw@, 0 + 1) == inset_at(s@, 0));
    assert(rest matches Some(s) ==> inset_at(raw@, 1 + 1) == inset_at(s@, 1));
    assert(rest matches Some(s) ==> inset_at(raw@, 2 + 1) == inset_at(s@, 2));
    assert(rest is None ==> inset_at(raw@, 0 + 1) == 0);
    assert(rest is None ==> inset_at(raw@, 1 + 1) == 0);
    assert(rest is None ==> inset_at(raw@, 2 + 1) == 0);
    let ghost after_top = rest;
    let (right, rest) = take_inset(rest);
    proof {
        if let Some(s) = after_top {
            assert(rest matches Some(t) ==> inset_at(s@, 0 + 1) == inset_at(t@, 0));
            assert(rest matches Some(t) ==> inset_at(s@, 1 + 1) == inset_at(t@, 1));
            assert(rest is None ==> inset_at(s@, 0 + 1) == 0);
            assert(rest is None ==> inset_at(s@, 1 + 1) == 0);
        }
    }
    let ghost after_right = rest;
    let (bottom, rest) = take_inset(rest);
    proof {
        if let Some(s) = after_right {
            assert(rest matches Some(t) ==> inset_at(s@, 0 + 1) == inset_at(t@, 0));
            assert(rest is None ==> inset_at(s@, 0 + 1) == 0);
        }
    }
    let (left, _) = take_inset(rest);
    Padding { top, right, bottom, left }
}

/// Every inset that a `pad=` value writes lies in `[0, 1]`.
pub proof fn lemma_padding_in_range(raw: Seq<u8>)
    ensures
        in_range(padding(raw)),
{
    assert forall|n: nat| #[trigger] inset_at(raw, n) <= fraction::ONE by {
        if let Some(item) = list_item(raw, n) {
            let text = encode_utf8(text_trimmed_end(text_trimmed_start(decode_utf8(item))));
            fraction::lemma_fraction_in_range(text);
        }
    }
}

} // verus!
