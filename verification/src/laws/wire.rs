//! Laws of the text that requests are written in: blanks, lists, numbers and
//! names.

use crate::bytes;
use crate::decimal;
use crate::fraction;
use crate::parse;
use crate::parse::ReplyMode;
use crate::sizing;
use crate::sizing::{HAlign, SizeMode, VAlign};
use vstd::prelude::*;
use vstd::string::*;
use vstd::utf8::*;

verus! {

// ---- blanks and separators -----------------------------------------------

/// Whether `s` holds spaces, tabs, carriage returns and line feeds only.
pub open spec fn all_blank(s: Seq<u8>) -> bool {
    forall|i: int|
        0 <= i < s.len() ==> (#[trigger] s[i] == 32 || s[i] == 9 || s[i] == 13 || s[i] == 10)
}

/// Whether `s` neither begins nor ends with one of those.
pub open spec fn no_blank_ends(s: Seq<u8>) -> bool {
    s.len() > 0 ==> {
        &&& s[0] != 32 && s[0] != 9 && s[0] != 13 && s[0] != 10
        &&& s[s.len() - 1] != 32 && s[s.len() - 1] != 9 && s[s.len() - 1] != 13 && s[s.len() - 1]
            != 10
    }
}

/// Trimming takes away the blanks around, and nothing else.
pub proof fn lemma_blanks_around_are_trimmed(a: Seq<u8>, s: Seq<u8>, b: Seq<u8>)
    requires
        all_blank(a),
        all_blank(b),
        no_blank_ends(s),
    ensures
        bytes::trimmed(a + s + b) == s,
{
    lemma_start_trimmed(a, s + b);
    assert(a + s + b =~= a + (s + b));
    if s.len() > 0 {
        assert((s + b)[0] == s[0]);
        assert(bytes::trimmed_start(s + b) == s + b);
        lemma_end_trimmed(s, b);
        assert(bytes::trimmed_end(s) == s);
    } else {
        assert(s + b =~= b);
        assert(b + Seq::empty() =~= b);
        lemma_start_trimmed(b, Seq::empty());
        assert(bytes::trimmed(a + s + b) =~= s);
    }
}

proof fn lemma_start_trimmed(a: Seq<u8>, s: Seq<u8>)
    requires
        all_blank(a),
    ensures
        bytes::trimmed_start(a + s) == bytes::trimmed_start(s),
    decreases a.len(),
{
    if a.len() == 0 {
        assert(a + s =~= s);
    } else {
        assert((a + s)[0] == a[0]);
        assert((a + s).drop_first() =~= a.drop_first() + s);
        lemma_start_trimmed(a.drop_first(), s);
    }
}

proof fn lemma_end_trimmed(s: Seq<u8>, b: Seq<u8>)
    requires
        all_blank(b),
    ensures
        bytes::trimmed_end(s + b) == bytes::trimmed_end(s),
    decreases b.len(),
{
    if b.len() == 0 {
        assert(s + b =~= s);
    } else {
        assert((s + b).last() == b.last());
        assert((s + b).drop_last() =~= s + b.drop_last());
        lemma_end_trimmed(s, b.drop_last());
    }
}

/// Splitting at the first separator takes apart what was put together with one;
/// without one, everything stands before it.
pub proof fn lemma_split_at_separator(head: Seq<u8>, tail: Seq<u8>, sep: u8)
    requires
        !head.contains(sep),
    ensures
        bytes::halves_at_first(head + seq![sep] + tail, sep) == (head, tail),
        bytes::halves_at_first(head, sep) == (head, Seq::<u8>::empty()),
        bytes::halves_at_last(head, sep) == (head, Seq::<u8>::empty()),
{
    let s = head + seq![sep] + tail;
    assert forall|j: int| 0 <= j < head.len() implies head[j] != sep by {
        assert(head.contains(head[j]));
    }
    bytes::lemma_first_index_unique(s, sep, head.len() as int);
    bytes::lemma_first_index_unique(head, sep, head.len() as int);
    bytes::lemma_last_index(head, sep);
    assert(s.take(head.len() as int) =~= head);
    assert(s.skip(head.len() as int + 1) =~= tail);
}

/// A number that was written big-endian reads back, with or without a sign.
pub proof fn lemma_big_endian(s: Seq<u8>, at: int, n: int)
    requires
        0 <= n < 0x1_0000,
        s[at] == n / 256,
        s[at + 1] == n % 256,
    ensures
        bytes::be16(s, at) == n,
        n < 0x8000 ==> bytes::be_i16(s, at) == n,
        n >= 0x8000 ==> bytes::be_i16(s, at) == n - 0x1_0000,
{
}

// ---- parameters ----------------------------------------------------------

/// A parameter may stand among blanks, as may its key and its value, and has the
/// value that stands behind the first `=`, whatever that holds.
pub proof fn lemma_spaced_setting(
    key: Seq<u8>,
    value: Seq<u8>,
    a: Seq<u8>,
    b: Seq<u8>,
    c: Seq<u8>,
    d: Seq<u8>,
)
    requires
        parse::is_key(key),
        no_blank_ends(value),
        !value.contains(bytes::SEMICOLON),
        all_blank(a),
        all_blank(b),
        all_blank(c),
        all_blank(d),
    ensures
        parse::param(a + key + b + seq![0x3du8] + c + value + d, key) == Some(value),
        forall|k: Seq<u8>|
            k != key ==> #[trigger] parse::param(
                a + key + b + seq![0x3du8] + c + value + d,
                k,
            ) is None,
{
    let part = a + key + b + seq![0x3du8] + c + value + d;
    assert forall|i: int| 0 <= i < part.len() implies part[i] != bytes::SEMICOLON by {
        let na = a.len();
        let nk = na + key.len();
        let nb = nk + b.len();
        let nc = nb + 1 + c.len();
        let nv = nc + value.len();
        if i < na {
            assert(part[i] == a[i]);
        } else if i < nk {
            assert(part[i] == key[i - na]);
        } else if i < nb {
            assert(part[i] == b[i - nk]);
        } else if i == nb {
        } else if i < nc {
            assert(part[i] == c[i - nb - 1]);
        } else if i < nv {
            assert(part[i] == value[i - nc]);
            assert(value.contains(part[i]));
        } else {
            assert(part[i] == d[i - nv]);
        }
    }
    assert(!part.contains(bytes::SEMICOLON));
    // what is between the outer blanks
    let front = key + b;
    let cv = c + value;
    let last_blanks = if value.len() == 0 {
        c + d
    } else {
        d
    };
    let inner = if value.len() == 0 {
        front + seq![0x3du8]
    } else {
        front + seq![0x3du8] + cv
    };
    assert(part =~= a + inner + last_blanks);
    assert(all_blank(last_blanks)) by {
        if value.len() == 0 {
            assert forall|i: int| 0 <= i < last_blanks.len() implies (#[trigger] last_blanks[i]
                == 32 || last_blanks[i] == 9 || last_blanks[i] == 13 || last_blanks[i] == 10) by {
                if i < c.len() {
                    assert(last_blanks[i] == c[i]);
                } else {
                    assert(last_blanks[i] == d[i - c.len()]);
                }
            }
        }
    }
    assert(inner[0] == key[0]);
    assert(no_blank_ends(inner)) by {
        if value.len() == 0 {
            assert(inner[inner.len() - 1] == 0x3d);
        } else {
            assert(inner[inner.len() - 1] == value[value.len() - 1]);
        }
    }
    lemma_blanks_around_are_trimmed(a, inner, last_blanks);
    let at = front.len() as int;
    assert(inner[at] == 0x3d);
    assert forall|j: int| 0 <= j < at implies inner[j] != bytes::EQUALS by {
        if j < key.len() {
            assert(inner[j] == key[j]);
        } else {
            assert(inner[j] == b[j - key.len()]);
        }
    }
    bytes::lemma_first_index_unique(inner, bytes::EQUALS, at);
    assert(inner.take(at) =~= Seq::<u8>::empty() + key + b);
    assert(no_blank_ends(key));
    lemma_blanks_around_are_trimmed(Seq::empty(), key, b);
    assert(inner.skip(at + 1) =~= if value.len() == 0 {
        Seq::<u8>::empty() + value + Seq::<u8>::empty()
    } else {
        c + value + Seq::<u8>::empty()
    });
    lemma_blanks_around_are_trimmed(c, value, Seq::empty());
    lemma_blanks_around_are_trimmed(Seq::empty(), value, Seq::empty());
    parse::lemma_param_of_part(part, key);
    assert forall|k: Seq<u8>| k != key implies #[trigger] parse::param(part, k) is None by {
        parse::lemma_param_of_part(part, k);
    }
}

/// What holds no `=` sets nothing.
pub proof fn lemma_no_setting(part: Seq<u8>, key: Seq<u8>)
    requires
        !part.contains(bytes::SEMICOLON),
        !part.contains(bytes::EQUALS),
    ensures
        parse::param(part, key) is None,
{
    parse::lemma_param_of_part(part, key);
    let pair = bytes::trimmed(part);
    bytes::lemma_first_index(pair, bytes::EQUALS);
    lemma_trimmed_holds_less(part, bytes::EQUALS);
    if bytes::first_index(pair, bytes::EQUALS) < pair.len() {
        assert(pair.contains(pair[bytes::first_index(pair, bytes::EQUALS)]));
    }
}

proof fn lemma_trimmed_holds_less(s: Seq<u8>, b: u8)
    requires
        !s.contains(b),
    ensures
        !bytes::trimmed(s).contains(b),
{
    lemma_start_holds_less(s, b);
    lemma_end_holds_less(bytes::trimmed_start(s), b);
}

proof fn lemma_start_holds_less(s: Seq<u8>, b: u8)
    requires
        !s.contains(b),
    ensures
        !bytes::trimmed_start(s).contains(b),
    decreases s.len(),
{
    if s.len() > 0 && bytes::is_blank(s[0]) {
        let t = s.drop_first();
        if t.contains(b) {
            let i = t.index_of(b);
            assert(s[i + 1] == b);
        }
        lemma_start_holds_less(t, b);
    }
}

proof fn lemma_end_holds_less(s: Seq<u8>, b: u8)
    requires
        !s.contains(b),
    ensures
        !bytes::trimmed_end(s).contains(b),
    decreases s.len(),
{
    if s.len() > 0 && bytes::is_blank(s.last()) {
        let t = s.drop_last();
        if t.contains(b) {
            let i = t.index_of(b);
            assert(s[i] == b);
        }
        lemma_end_holds_less(t, b);
    }
}

// ---- lists ---------------------------------------------------------------

/// Items in a row, with a `,` between one and the next.
pub open spec fn comma_list(items: Seq<Seq<u8>>) -> Seq<u8>
    decreases items.len(),
{
    if items.len() <= 1 {
        items[0]
    } else {
        items[0] + seq![0x2cu8] + comma_list(items.drop_first())
    }
}

/// A list that was written gives back its items, each at its own place, and no
/// more.
pub proof fn lemma_list_items(items: Seq<Seq<u8>>, n: nat)
    requires
        items.len() > 0,
        forall|i: int| 0 <= i < items.len() ==> !(#[trigger] items[i]).contains(bytes::COMMA),
    ensures
        sizing::list_item(comma_list(items), n) == if n < items.len() {
            Some(items[n as int])
        } else {
            None
        },
    decreases n,
{
    let s = comma_list(items);
    let first = items[0];
    let at = first.len() as int;
    assert forall|j: int| 0 <= j < at implies s[j] != bytes::COMMA by {
        assert(s[j] == first[j]);
        assert(first.contains(first[j]));
    }
    bytes::lemma_first_index_unique(s, bytes::COMMA, at);
    assert(s.take(at) =~= first);
    if items.len() > 1 {
        let rest = items.drop_first();
        assert(s.skip(at + 1) =~= comma_list(rest));
        assert forall|i: int| 0 <= i < rest.len() implies !(#[trigger] rest[i]).contains(
            bytes::COMMA,
        ) by {
            assert(rest[i] == items[i + 1]);
        }
        if n > 0 {
            lemma_list_items(rest, (n - 1) as nat);
        }
    }
}

/// The first item of an `align` list is the horizontal placement, the second the
/// vertical one; what is missing is centered.
pub proof fn lemma_align_items(items: Seq<Seq<u8>>)
    requires
        items.len() > 0,
        forall|i: int| 0 <= i < items.len() ==> !(#[trigger] items[i]).contains(bytes::COMMA),
    ensures
        sizing::alignment(comma_list(items)).0 == sizing::h_align(items[0]),
        items.len() >= 2 ==> sizing::alignment(comma_list(items)).1 == sizing::v_align(items[1]),
        items.len() == 1 ==> sizing::alignment(comma_list(items)).1 == VAlign::Center,
{
    lemma_list_items(items, 0);
    lemma_list_items(items, 1);
}

/// The items of a `pad` list are the insets of the top, the right, the bottom
/// and the left, in that order; what is missing or writes no number is zero.
pub proof fn lemma_pad_items(items: Seq<Seq<u8>>)
    requires
        items.len() > 0,
        forall|i: int| 0 <= i < items.len() ==> !(#[trigger] items[i]).contains(bytes::COMMA),
    ensures
        ({
            let p = sizing::padding(comma_list(items));
            let inset = |n: int|
                if n < items.len() && sizing::inset_fraction(items[n]) is Some {
                    sizing::inset_fraction(items[n]).unwrap()
                } else {
                    0u32
                };
            p.top == inset(0) && p.right == inset(1) && p.bottom == inset(2) && p.left == inset(3)
        }),
{
    lemma_list_items(items, 0);
    lemma_list_items(items, 1);
    lemma_list_items(items, 2);
    lemma_list_items(items, 3);
}

// ---- insets --------------------------------------------------------------

/// Whether `s` holds characters of the Unicode property White_Space only.
pub open spec fn all_white(s: Seq<char>) -> bool {
    forall|i: int| 0 <= i < s.len() ==> is_white(#[trigger] s[i])
}

/// The Unicode property White_Space: the controls from tab to carriage return,
/// next line, and the spaces and separators.
pub open spec fn is_white(c: char) -> bool {
    let n = c as u32;
    ||| n == 9 || n == 10 || n == 11 || n == 12 || n == 13
    ||| n == 32 || n == 133 || n == 160 || n == 5760
    ||| 8192 <= n <= 8202
    ||| n == 8232 || n == 8233 || n == 8239 || n == 8287 || n == 12288
}

proof fn lemma_text_start_trimmed(a: Seq<char>, s: Seq<char>)
    requires
        all_white(a),
    ensures
        sizing::text_trimmed_start(a + s) == sizing::text_trimmed_start(s),
    decreases a.len(),
{
    if a.len() == 0 {
        assert(a + s =~= s);
    } else {
        assert((a + s)[0] == a[0]);
        assert((a + s).drop_first() =~= a.drop_first() + s);
        lemma_text_start_trimmed(a.drop_first(), s);
    }
}

proof fn lemma_text_end_trimmed(s: Seq<char>, b: Seq<char>)
    requires
        all_white(b),
    ensures
        sizing::text_trimmed_end(s + b) == sizing::text_trimmed_end(s),
    decreases b.len(),
{
    if b.len() == 0 {
        assert(s + b =~= s);
    } else {
        assert((s + b).last() == b.last());
        assert((s + b).drop_last() =~= s + b.drop_last());
        lemma_text_end_trimmed(s, b.drop_last());
    }
}

/// An inset is the fraction that its text writes, white space around it ignored,
/// and none where its bytes are no text.
pub proof fn lemma_inset_text(a: Seq<char>, text: Seq<char>, b: Seq<char>, raw: Seq<u8>)
    requires
        all_white(a),
        all_white(b),
        text.len() > 0,
        !is_white(text[0]),
        !is_white(text[text.len() - 1]),
    ensures
        sizing::inset_fraction(encode_utf8(a + text + b)) == fraction::fraction(encode_utf8(text)),
        !valid_utf8(raw) ==> sizing::inset_fraction(raw) is None,
{
    let all = a + text + b;
    encode_utf8_valid_utf8(all);
    encode_utf8_decode_utf8(all);
    assert(all =~= a + (text + b));
    lemma_text_start_trimmed(a, text + b);
    assert((text + b)[0] == text[0]);
    assert(!sizing::is_white_space(text[0]));
    assert(sizing::text_trimmed_start(text + b) == text + b);
    lemma_text_end_trimmed(text, b);
    assert(!sizing::is_white_space(text.last()));
    assert(sizing::text_trimmed_end(text) == text);
    assert(decode_utf8(encode_utf8(all)) == all);
}

// ---- numbers -------------------------------------------------------------

/// `n` in decimal, without leading zeros.
pub open spec fn decimal_text(n: nat) -> Seq<u8>
    decreases n,
{
    if n < 10 {
        seq![(0x30 + n) as u8]
    } else {
        decimal_text(n / 10).push((0x30 + n % 10) as u8)
    }
}

proof fn lemma_decimal_text(n: nat)
    ensures
        decimal_text(n).len() > 0,
        decimal::all_digits(decimal_text(n)),
        decimal::decimal_value(decimal_text(n)) == n,
    decreases n,
{
    let s = decimal_text(n);
    if n < 10 {
        assert(s.drop_last() =~= Seq::empty());
        assert(decimal::decimal_value(Seq::empty()) == 0);
    } else {
        lemma_decimal_text(n / 10);
        assert(s.drop_last() =~= decimal_text(n / 10));
        assert forall|i: int| 0 <= i < s.len() implies decimal::is_digit(#[trigger] s[i]) by {
            if i < s.len() - 1 {
                assert(s[i] == decimal_text(n / 10)[i]);
            }
        }
    }
}

/// A number that was written in decimal reads back, with or without zeros before
/// it, where it fits in 16 bits, and is refused where it does not.
pub proof fn lemma_decimal_reads_back(n: nat, zeros: Seq<u8>)
    requires
        forall|i: int| 0 <= i < zeros.len() ==> #[trigger] zeros[i] == 0x30,
    ensures
        parse::decimal_u16(zeros + decimal_text(n)) == if n < 65536 {
            Some(n as u16)
        } else {
            None
        },
{
    let t = decimal_text(n);
    let s = zeros + t;
    lemma_decimal_text(n);
    assert(decimal::all_digits(zeros));
    assert forall|i: int| 0 <= i < s.len() implies decimal::is_digit(#[trigger] s[i])
        && !bytes::is_blank(s[i]) by {
        if i >= zeros.len() {
            assert(s[i] == t[i - zeros.len()]);
            assert(decimal::is_digit(t[i - zeros.len()]));
        }
    }
    bytes::lemma_trimmed_unchanged(s);
    decimal::lemma_decimal_value_concat(zeros, t);
    decimal::lemma_decimal_value_zeros(zeros);
    assert(0 * decimal::ten_to(t.len()) == 0);
}

/// What reads as a 16-bit number is digits, blanks around them aside.
pub proof fn lemma_decimal_is_digits(raw: Seq<u8>)
    requires
        parse::decimal_u16(raw) is Some,
    ensures
        bytes::trimmed(raw).len() > 0,
        forall|i: int|
            0 <= i < bytes::trimmed(raw).len() ==> 0x30 <= #[trigger] bytes::trimmed(raw)[i]
                <= 0x39,
{
    let t = bytes::trimmed(raw);
    assert forall|i: int| 0 <= i < t.len() implies 0x30 <= #[trigger] t[i] <= 0x39 by {
        assert(decimal::is_digit(t[i]));
    }
}

/// The digits of `s` in lower case.
pub open spec fn lower_case(s: Seq<u8>) -> Seq<u8> {
    s.map_values(
        |b: u8|
            if 0x41 <= b <= 0x46 {
                (b + 0x20) as u8
            } else {
                b
            },
    )
}

proof fn lemma_hex_case(s: Seq<u8>)
    ensures
        parse::hex_value(lower_case(s)) == parse::hex_value(s),
    decreases s.len(),
{
    let t = lower_case(s);
    if s.len() > 0 {
        lemma_hex_case(s.drop_last());
        assert(t.drop_last() =~= lower_case(s.drop_last()));
        assert(parse::hex_digit(t.last()) == parse::hex_digit(s.last()));
    }
}

proof fn lemma_hex_zeros(zeros: Seq<u8>, s: Seq<u8>)
    requires
        forall|i: int| 0 <= i < zeros.len() ==> #[trigger] zeros[i] == 0x30,
    ensures
        parse::hex_value(zeros + s) == parse::hex_value(s),
    decreases s.len(), zeros.len(),
{
    let all = zeros + s;
    if s.len() > 0 {
        assert(all.drop_last() =~= zeros + s.drop_last());
        assert(all.last() == s.last());
        lemma_hex_zeros(zeros, s.drop_last());
    } else if zeros.len() > 0 {
        assert(all =~= zeros);
        assert(zeros.drop_last() + s =~= zeros.drop_last());
        lemma_hex_zeros(zeros.drop_last(), s);
        assert(parse::hex_value(s) == Some(0int));
        assert(zeros.last() == zeros[zeros.len() - 1]);
    } else {
        assert(all =~= s);
    }
}

/// A codepoint that was written in hexadecimal reads back, in either case and
/// with zeros before it, up to six digits, and blanks around it; beyond six
/// digits it is refused.
pub proof fn lemma_codepoint_reads_back(
    cp: u32,
    zeros: Seq<u8>,
    digits: Seq<u8>,
    a: Seq<u8>,
    b: Seq<u8>,
)
    requires
        cp <= 0x10_FFFF,
        !(0xD800 <= cp <= 0xDFFF),
        forall|i: int| 0 <= i < zeros.len() ==> #[trigger] zeros[i] == 0x30,
        lower_case(digits) == parse::ascii_bytes(parse::hex_text(cp as nat)),
        all_blank(a),
        all_blank(b),
    ensures
        parse::codepoint(a + (zeros + digits) + b) == if zeros.len() + digits.len() <= 6 {
            Some(cp)
        } else {
            None
        },
{
    let s = zeros + digits;
    parse::lemma_hex_reads_back(cp as nat);
    lemma_hex_case(digits);
    lemma_hex_zeros(zeros, digits);
    parse::lemma_hex_digits(s);
    assert(no_blank_ends(s)) by {
        assert(parse::hex_digit(s[0]) is Some);
        assert(parse::hex_digit(s[s.len() - 1]) is Some);
    }
    lemma_blanks_around_are_trimmed(a, s, b);
}

/// What reads as a codepoint is one to six hexadecimal digits, blanks around
/// them aside, and a Unicode scalar value.
pub proof fn lemma_codepoint_is_digits(raw: Seq<u8>)
    requires
        parse::codepoint(raw) is Some,
    ensures
        1 <= bytes::trimmed(raw).len() <= 6,
        forall|i: int|
            0 <= i < bytes::trimmed(raw).len() ==> {
                ||| 0x30 <= #[trigger] bytes::trimmed(raw)[i] <= 0x39
                ||| 0x41 <= bytes::trimmed(raw)[i] <= 0x46
                ||| 0x61 <= bytes::trimmed(raw)[i] <= 0x66
            },
        parse::codepoint(raw).unwrap() <= 0x10_FFFF,
        parse::codepoint(raw).unwrap() < 0xD800 || parse::codepoint(raw).unwrap() > 0xDFFF,
{
    let t = bytes::trimmed(raw);
    parse::lemma_hex_digits(t);
    assert forall|i: int| 0 <= i < t.len() implies ({
        ||| 0x30 <= #[trigger] t[i] <= 0x39
        ||| 0x41 <= t[i] <= 0x46
        ||| 0x61 <= t[i] <= 0x66
    }) by {
        assert(parse::hex_digit(t[i]) is Some);
    }
}

/// Every string of up to six hexadecimal digits writes the number of its digits
/// by place: appending a digit multiplies by sixteen and adds it.
pub proof fn lemma_hex_by_place(s: Seq<u8>, b: u8, d: int)
    requires
        parse::hex_value(s) is Some,
        (0x30 <= b <= 0x39 && d == b - 0x30) || (0x41 <= b <= 0x46 && d == b - 0x37) || (0x61 <= b
            <= 0x66 && d == b - 0x57),
    ensures
        parse::hex_value(s.push(b)) == Some(16 * parse::hex_value(s).unwrap() + d),
{
    assert(s.push(b).drop_last() =~= s);
}

/// The private-use codepoints are the 6400 from `E000` on, and all but the last
/// two of each of the planes fifteen and sixteen.
pub proof fn lemma_private_use(cp: u32)
    ensures
        parse::private_use(cp) <==> (cp / 0x10000 == 0 && 0 <= cp - 0xE000 < 6400) || ((cp
            / 0x10000 == 15 || cp / 0x10000 == 16) && cp % 0x10000 < 0xFFFE),
{
}

// ---- names ---------------------------------------------------------------

/// The name of a scale policy.
pub open spec fn size_name(mode: SizeMode) -> Seq<u8> {
    match mode {
        SizeMode::Height => "height".spec_bytes(),
        SizeMode::Advance => "advance".spec_bytes(),
        SizeMode::Contain => "contain".spec_bytes(),
        SizeMode::Cover => "cover".spec_bytes(),
        SizeMode::Stretch => "stretch".spec_bytes(),
    }
}

/// Every scale policy is read from its own name, and all but the default from no
/// other.
pub proof fn lemma_size_names(mode: SizeMode, raw: Seq<u8>)
    ensures
        sizing::size_mode(size_name(mode)) == mode,
        sizing::size_mode(raw) != SizeMode::Height ==> raw == size_name(sizing::size_mode(raw)),
{
    reveal_strlit("height");
    reveal_strlit("advance");
    reveal_strlit("contain");
    reveal_strlit("cover");
    reveal_strlit("stretch");
    is_ascii_spec_bytes("height");
    is_ascii_spec_bytes("advance");
    is_ascii_spec_bytes("contain");
    is_ascii_spec_bytes("cover");
    is_ascii_spec_bytes("stretch");
    assert("height".spec_bytes()[0] == 0x68);
    assert("advance".spec_bytes()[0] == 0x61);
    assert("contain".spec_bytes()[0] == 0x63 && "contain".spec_bytes().len() == 7);
    assert("cover".spec_bytes()[0] == 0x63 && "cover".spec_bytes().len() == 5);
    assert("stretch".spec_bytes()[0] == 0x73);
}

/// The name of a horizontal placement.
pub open spec fn h_name(align: HAlign) -> Seq<u8> {
    match align {
        HAlign::Start => "start".spec_bytes(),
        HAlign::Center => "center".spec_bytes(),
        HAlign::End => "end".spec_bytes(),
    }
}

/// The name of a vertical placement.
pub open spec fn v_name(align: VAlign) -> Seq<u8> {
    match align {
        VAlign::Start => "start".spec_bytes(),
        VAlign::Center => "center".spec_bytes(),
        VAlign::End => "end".spec_bytes(),
        VAlign::Baseline => "baseline".spec_bytes(),
    }
}

/// Every placement is read from its own name, and all but the default from no
/// other.
pub proof fn lemma_align_names(h: HAlign, v: VAlign, raw: Seq<u8>)
    ensures
        sizing::h_align(h_name(h)) == h,
        sizing::v_align(v_name(v)) == v,
        sizing::h_align(raw) != HAlign::Center ==> raw == h_name(sizing::h_align(raw)),
        sizing::v_align(raw) != VAlign::Center ==> raw == v_name(sizing::v_align(raw)),
{
    reveal_strlit("start");
    reveal_strlit("center");
    reveal_strlit("end");
    reveal_strlit("baseline");
    is_ascii_spec_bytes("start");
    is_ascii_spec_bytes("center");
    is_ascii_spec_bytes("end");
    is_ascii_spec_bytes("baseline");
    assert("start".spec_bytes()[0] == 0x73);
    assert("center".spec_bytes()[0] == 0x63);
    assert("end".spec_bytes()[0] == 0x65);
    assert("baseline".spec_bytes()[0] == 0x62);
}

/// Two cells are asked for by `2` alone, and everything else is one.
pub proof fn lemma_width_names(raw: Seq<u8>)
    ensures
        raw == seq![0x32u8] ==> sizing::cell_width(raw) == 2,
        raw != seq![0x32u8] ==> sizing::cell_width(raw) == 1,
{
    reveal_strlit("2");
    is_ascii_spec_bytes("2");
    assert("2".spec_bytes() =~= seq![0x32u8]);
}

/// Silence is asked for by `0` alone, failures only by `2` alone, and everything
/// else is both.
pub proof fn lemma_reply_names(raw: Seq<u8>)
    ensures
        raw == seq![0x30u8] ==> parse::reply_mode(raw) == ReplyMode::Silent,
        raw == seq![0x32u8] ==> parse::reply_mode(raw) == ReplyMode::ErrorsOnly,
        raw != seq![0x30u8] && raw != seq![0x32u8] ==> parse::reply_mode(raw) == ReplyMode::All,
{
    reveal_strlit("0");
    reveal_strlit("2");
    is_ascii_spec_bytes("0");
    is_ascii_spec_bytes("2");
    assert("0".spec_bytes() =~= seq![0x30u8]);
    assert("2".spec_bytes() =~= seq![0x32u8]);
    assert(seq![0x30u8][0] != seq![0x32u8][0]);
}

} // verus!
