//! The base64 text form of a registration's payload.

use crate::bytes;
use base64::engine::general_purpose::STANDARD;
use base64::DecodeError as Base64Error;
use base64::Engine;
use vstd::prelude::*;

verus! {

/// `=`, which fills up the last group of four symbols.
pub const PAD: u8 = 0x3d;

/// The symbol for the six-bit number `v`: `A` to `Z`, `a` to `z`, `0` to `9`,
/// `+` and `/`.
pub open spec fn symbol(v: int) -> u8 {
    if v < 26 {
        (0x41 + v) as u8
    } else if v < 52 {
        (0x61 + (v - 26)) as u8
    } else if v < 62 {
        (0x30 + (v - 52)) as u8
    } else if v == 62 {
        0x2b
    } else {
        0x2f
    }
}

/// The padded base64 encoding of `data`: four symbols for every three bytes,
/// six bits each, and `=` in place of symbols that stand for no byte.
pub open spec fn base64_encoding(data: Seq<u8>) -> Seq<u8>
    decreases data.len(),
{
    let a = data[0] as int;
    let b = data[1] as int;
    let c = data[2] as int;
    if data.len() == 0 {
        Seq::empty()
    } else if data.len() == 1 {
        seq![symbol(a / 4), symbol((a % 4) * 16), PAD, PAD]
    } else if data.len() == 2 {
        seq![symbol(a / 4), symbol((a % 4) * 16 + b / 16), symbol((b % 16) * 4), PAD]
    } else {
        seq![
            symbol(a / 4),
            symbol((a % 4) * 16 + b / 16),
            symbol((b % 16) * 4 + c / 64),
            symbol(c % 64),
        ] + base64_encoding(data.skip(3))
    }
}

/// What `text` decodes to: the data that it is the encoding of, if any.
pub open spec fn base64_decoding(text: Seq<u8>) -> Option<Seq<u8>> {
    if exists|data: Seq<u8>| #[trigger] base64_encoding(data) == text {
        Some(choose|data: Seq<u8>| #[trigger] base64_encoding(data) == text)
    } else {
        None
    }
}

/// Different six-bit numbers have different symbols, none of which is `=`.
proof fn lemma_symbol(a: int, b: int)
    requires
        0 <= a < 64,
        0 <= b < 64,
        symbol(a) == symbol(b),
    ensures
        a == b,
        symbol(a) != PAD,
{
}

/// Different data have different encodings.
pub proof fn lemma_encoding_injective(a: Seq<u8>, b: Seq<u8>)
    requires
        base64_encoding(a) == base64_encoding(b),
    ensures
        a == b,
    decreases a.len(),
{
    let x = base64_encoding(a);
    let y = base64_encoding(b);
    if a.len() == 0 {
        assert(x.len() == 0);
        if b.len() >= 3 {
            assert(y.len() >= 4);
        }
        assert(a =~= b);
    } else if b.len() == 0 {
        if a.len() >= 3 {
            assert(x.len() >= 4);
        }
    } else {
        let a0 = a[0] as int;
        let b0 = b[0] as int;
        let a1: int = if a.len() >= 2 { a[1] as int } else { 0 };
        let a2: int = if a.len() >= 3 { a[2] as int } else { 0 };
        let b1: int = if b.len() >= 2 { b[1] as int } else { 0 };
        let b2: int = if b.len() >= 3 { b[2] as int } else { 0 };
        assert(x[0] == symbol(a0 / 4) && y[0] == symbol(b0 / 4));
        assert(x[1] == symbol((a0 % 4) * 16 + a1 / 16));
        assert(y[1] == symbol((b0 % 4) * 16 + b1 / 16));
        lemma_symbol(a0 / 4, b0 / 4);
        lemma_symbol((a0 % 4) * 16 + a1 / 16, (b0 % 4) * 16 + b1 / 16);
        assert(a[0] == b[0]);
        if a.len() >= 2 {
            assert(x[2] == symbol((a1 % 16) * 4 + a2 / 64));
            lemma_symbol((a1 % 16) * 4 + a2 / 64, (a1 % 16) * 4 + a2 / 64);
        }
        if b.len() >= 2 {
            assert(y[2] == symbol((b1 % 16) * 4 + b2 / 64));
            lemma_symbol((b1 % 16) * 4 + b2 / 64, (b1 % 16) * 4 + b2 / 64);
        }
        if a.len() >= 3 {
            assert(x[3] == symbol(a2 % 64));
            lemma_symbol(a2 % 64, a2 % 64);
        }
        if b.len() >= 3 {
            assert(y[3] == symbol(b2 % 64));
            lemma_symbol(b2 % 64, b2 % 64);
        }
        if a.len() >= 2 && b.len() >= 2 {
            lemma_symbol((a1 % 16) * 4 + a2 / 64, (b1 % 16) * 4 + b2 / 64);
        }
        if a.len() >= 3 && b.len() >= 3 {
            lemma_symbol(a2 % 64, b2 % 64);
            assert(x.skip(4) =~= base64_encoding(a.skip(3)));
            assert(y.skip(4) =~= base64_encoding(b.skip(3)));
            lemma_encoding_injective(a.skip(3), b.skip(3));
            assert forall|i: int| 0 <= i < a.len() implies a[i] == b[i] by {
                if i >= 3 {
                    assert(a[i] == a.skip(3)[i - 3]);
                    assert(b[i] == b.skip(3)[i - 3]);
                }
            }
            assert(a.len() == a.skip(3).len() + 3);
            assert(b.len() == b.skip(3).len() + 3);
            assert(a =~= b);
        } else {
            assert(a =~= b);
        }
    }
}

/// What was encoded is what decoding gives back.
pub proof fn lemma_decoding_inverts_encoding(data: Seq<u8>)
    ensures
        base64_decoding(base64_encoding(data)) == Some(data),
{
    let text = base64_encoding(data);
    let other = choose|d: Seq<u8>| #[trigger] base64_encoding(d) == text;
    lemma_encoding_injective(other, data);
}

/// An encoding holds symbols and `=` only; neither a `;` nor a blank.
pub proof fn lemma_encoding_symbols(data: Seq<u8>)
    ensures
        forall|i: int|
            0 <= i < base64_encoding(data).len() ==> (#[trigger] base64_encoding(data)[i])
                != bytes::SEMICOLON && !bytes::is_blank(base64_encoding(data)[i]),
    decreases data.len(),
{
    let text = base64_encoding(data);
    if data.len() >= 3 {
        lemma_encoding_symbols(data.skip(3));
        assert forall|i: int| 0 <= i < text.len() implies (#[trigger] text[i]) != bytes::SEMICOLON
            && !bytes::is_blank(text[i]) by {
            if i >= 4 {
                assert(text[i] == base64_encoding(data.skip(3))[i - 4]);
            }
        }
    }
}

/// The failure that the decoder reports.
#[verifier::external_type_specification]
#[verifier::external_body]
pub struct ExBase64Error(Base64Error);

/// `Engine::decode` of `general_purpose::STANDARD`, whose alphabet is the
/// standard one and which takes canonical padding only and no stray trailing
/// bits: it succeeds on exactly the texts that are the padded encoding of some
/// bytes, and hands out those bytes.
#[verifier::external_body]
fn standard_decode(text: &[u8]) -> (r: Result<Vec<u8>, Base64Error>)
    ensures
        match r {
            Ok(data) => base64_encoding(data@) == text@,
            Err(_) => forall|data: Seq<u8>| #[trigger] base64_encoding(data) != text@,
        },
{
    STANDARD.decode(text)
}

/// Decode base64 `text`.
pub fn decode(text: &[u8]) -> (r: Option<Vec<u8>>)
    ensures
        match r {
            Some(data) => base64_decoding(text@) == Some(data@),
            None => base64_decoding(text@) is None,
        },
{
    match standard_decode(text) {
        Ok(data) => {
            proof {
                lemma_decoding_inverts_encoding(data@);
            }
            Some(data)
        },
        Err(_) => None,
    }
}

} // verus!
