//! Laws of decimal fractions: what is written, what it stands for, and which
//! single-precision number it is read as.

use crate::decimal;
use crate::fraction;
use crate::fraction::Decimal;
use vstd::prelude::*;

verus! {

// ---- what is written -----------------------------------------------------

/// The parts that a number is written with: a sign, the digits before the
/// point, the point and the digits behind it, and an exponent.
pub struct Parts {
    pub sign: Seq<u8>,
    pub whole: Seq<u8>,
    pub decimals: Option<Seq<u8>>,
    pub exponent: Option<ExponentParts>,
}

/// The parts that an exponent is written with: its letter, a sign, its digits.
pub struct ExponentParts {
    pub letter: u8,
    pub sign: Seq<u8>,
    pub digits: Seq<u8>,
}

/// Whether `s` is a sign: nothing, `+` or `-`.
pub open spec fn is_sign(s: Seq<u8>) -> bool {
    s.len() == 0 || s == seq![0x2bu8] || s == seq![0x2du8]
}

/// Whether `s` is digits only.
pub open spec fn is_digits(s: Seq<u8>) -> bool {
    forall|i: int| 0 <= i < s.len() ==> 0x30 <= #[trigger] s[i] <= 0x39
}

/// The digits behind the point, if there are any.
pub open spec fn decimals_of(p: Parts) -> Seq<u8> {
    match p.decimals {
        Some(d) => d,
        None => Seq::empty(),
    }
}

/// Whether `p` are the parts of a number: there is a digit before or behind the
/// point, and one in the exponent, if there is an exponent.
pub open spec fn proper(p: Parts) -> bool {
    &&& is_sign(p.sign)
    &&& is_digits(p.whole)
    &&& is_digits(decimals_of(p))
    &&& p.whole.len() + decimals_of(p).len() > 0
    &&& p.exponent matches Some(e) ==> {
        &&& e.letter == 0x65 || e.letter == 0x45
        &&& is_sign(e.sign)
        &&& is_digits(e.digits)
        &&& e.digits.len() > 0
    }
}

/// How an exponent is written.
pub open spec fn written_exponent(e: Option<ExponentParts>) -> Seq<u8> {
    match e {
        Some(e) => seq![e.letter] + e.sign + e.digits,
        None => Seq::empty(),
    }
}

/// How the point and the digits behind it are written.
pub open spec fn written_decimals(d: Option<Seq<u8>>) -> Seq<u8> {
    match d {
        Some(d) => seq![0x2eu8] + d,
        None => Seq::empty(),
    }
}

/// How a number is written.
pub open spec fn written(p: Parts) -> Seq<u8> {
    p.sign + (p.whole + (written_decimals(p.decimals) + written_exponent(p.exponent)))
}

/// What an exponent stands for.
pub open spec fn exponent_value(e: Option<ExponentParts>) -> int {
    match e {
        Some(e) => if e.sign == seq![0x2du8] {
            -decimal::decimal_value(e.digits)
        } else {
            decimal::decimal_value(e.digits)
        },
        None => 0,
    }
}

proof fn lemma_digits_first(digits: Seq<u8>, rest: Seq<u8>)
    requires
        is_digits(digits),
        rest.len() == 0 || !(0x30 <= rest[0] <= 0x39),
    ensures
        fraction::digit_run(digits + rest) == digits.len(),
    decreases digits.len(),
{
    let s = digits + rest;
    if digits.len() > 0 {
        assert(s[0] == digits[0]);
        assert(s.drop_first() =~= digits.drop_first() + rest);
        lemma_digits_first(digits.drop_first(), rest);
    } else {
        assert(s =~= rest);
    }
}

proof fn lemma_sign_first(sign: Seq<u8>, rest: Seq<u8>)
    requires
        is_sign(sign),
        rest.len() == 0 || (rest[0] != 0x2b && rest[0] != 0x2d),
    ensures
        fraction::signed(sign + rest) == (sign == seq![0x2du8], rest),
{
    let s = sign + rest;
    if sign.len() == 0 {
        assert(s =~= rest);
    } else {
        assert(s[0] == sign[0]);
        assert(s.drop_first() =~= rest);
    }
}

proof fn lemma_exponent_reads_back(e: Option<ExponentParts>)
    requires
        e matches Some(e) ==> {
            &&& e.letter == 0x65 || e.letter == 0x45
            &&& is_sign(e.sign)
            &&& is_digits(e.digits)
            &&& e.digits.len() > 0
        },
    ensures
        fraction::exponent(written_exponent(e)) == Some(exponent_value(e)),
{
    if let Some(e) = e {
        let s = written_exponent(Some(e));
        assert(s[0] == e.letter);
        assert(s.drop_first() =~= e.sign + e.digits);
        assert(0x30 <= e.digits[0] <= 0x39);
        lemma_sign_first(e.sign, e.digits);
        assert(e.digits + Seq::empty() =~= e.digits);
        lemma_digits_first(e.digits, Seq::empty());
    }
}

/// A number that was written is read as it was written: its sign, all its
/// digits, and the power of ten that the exponent and the point make.
pub proof fn lemma_number_reads_back(p: Parts)
    requires
        proper(p),
    ensures
        fraction::number(written(p)) == Some(
            Decimal {
                negative: p.sign == seq![0x2du8],
                digits: p.whole + decimals_of(p),
                exponent: exponent_value(p.exponent) - decimals_of(p).len(),
            },
        ),
{
    let s = written(p);
    let tail = written_exponent(p.exponent);
    let after = written_decimals(p.decimals) + tail;
    let body = p.whole + after;
    assert(body.len() > 0);
    assert(body[0] != 0x2b && body[0] != 0x2d) by {
        if p.whole.len() > 0 {
            assert(body[0] == p.whole[0]);
        } else {
            assert(body[0] == after[0]);
        }
    }
    lemma_sign_first(p.sign, body);
    assert(after.len() > 0 ==> !(0x30 <= after[0] <= 0x39)) by {
        if p.decimals is None {
            assert(after =~= tail);
        }
    }
    lemma_digits_first(p.whole, after);
    assert(body.take(p.whole.len() as int) =~= p.whole);
    assert(body.skip(p.whole.len() as int) =~= after);
    lemma_exponent_reads_back(p.exponent);
    match p.decimals {
        Some(d) => {
            assert(after[0] == 0x2e);
            assert(after.drop_first() =~= d + tail);
            lemma_digits_first(d, tail);
            assert(after.subrange(1, 1 + d.len() as int) =~= d);
            assert(after.skip(1 + d.len() as int) =~= tail);
        },
        None => {
            assert(after =~= tail);
        },
    }
}

proof fn lemma_sign_splits(s: Seq<u8>) -> (sign: Seq<u8>)
    ensures
        is_sign(sign),
        s == sign + fraction::signed(s).1,
{
    if s.len() > 0 && (s[0] == 0x2b || s[0] == 0x2d) {
        assert(s =~= seq![s[0]] + s.drop_first());
        seq![s[0]]
    } else {
        assert(s =~= Seq::<u8>::empty() + s);
        Seq::empty()
    }
}

proof fn lemma_exponent_splits(s: Seq<u8>) -> (e: Option<ExponentParts>)
    requires
        fraction::exponent(s) is Some,
    ensures
        e matches Some(e) ==> {
            &&& e.letter == 0x65 || e.letter == 0x45
            &&& is_sign(e.sign)
            &&& is_digits(e.digits)
            &&& e.digits.len() > 0
        },
        s == written_exponent(e),
{
    if s.len() == 0 {
        assert(s =~= Seq::empty());
        None
    } else {
        let sign = lemma_sign_splits(s.drop_first());
        let digits = fraction::signed(s.drop_first()).1;
        fraction::lemma_digit_run(digits);
        assert(digits.take(digits.len() as int) =~= digits);
        assert(s =~= seq![s[0]] + sign + digits);
        Some(ExponentParts { letter: s[0], sign, digits })
    }
}

/// Nothing else is read as a number: what is read was written with the parts of
/// one.
pub proof fn lemma_only_numbers_are_read(s: Seq<u8>) -> (p: Parts)
    requires
        fraction::number(s) is Some,
    ensures
        proper(p),
        written(p) == s,
{
    let sign = lemma_sign_splits(s);
    let body = fraction::signed(s).1;
    let w = fraction::digit_run(body);
    fraction::lemma_digit_run(body);
    let whole = body.take(w);
    let after = body.skip(w);
    assert(body =~= whole + after);
    if after.len() > 0 && after[0] == 0x2e {
        let behind = after.drop_first();
        let n = fraction::digit_run(behind);
        fraction::lemma_digit_run(behind);
        let digits = after.subrange(1, 1 + n);
        assert(digits =~= behind.take(n));
        let exponent = lemma_exponent_splits(after.skip(1 + n));
        let p = Parts { sign, whole, decimals: Some(digits), exponent };
        assert(after =~= seq![0x2eu8] + digits + after.skip(1 + n));
        p
    } else {
        let exponent = lemma_exponent_splits(after);
        let p = Parts { sign, whole, decimals: None, exponent };
        assert(after =~= Seq::empty() + after);
        p
    }
}

// ---- what it stands for --------------------------------------------------

/// A number without a power of ten is what its digits write. One more power of
/// ten makes ten times as much, and one more zero with one power less changes
/// nothing.
pub proof fn lemma_magnitude_scales(d: Decimal)
    ensures
        ({
            let (num, den) = fraction::magnitude(d);
            let tenfold = fraction::magnitude(Decimal { exponent: d.exponent + 1, ..d });
            let padded = fraction::magnitude(
                Decimal { digits: d.digits.push(0x30), exponent: d.exponent - 1, ..d },
            );
            &&& den >= 1
            &&& tenfold.1 >= 1
            &&& padded.1 >= 1
            &&& d.exponent == 0 ==> (num, den) == (decimal::decimal_value(d.digits), 1int)
            &&& tenfold.0 * den == 10 * (num * tenfold.1)
            &&& padded.0 * den == num * padded.1
        }),
{
    let v = decimal::decimal_value(d.digits);
    let e = d.exponent;
    assert(d.digits.push(0x30).drop_last() =~= d.digits);
    assert(decimal::decimal_value(d.digits.push(0x30)) == 10 * v);
    if e >= 0 {
        let t = decimal::ten_to(e as nat) as int;
        decimal::lemma_ten_to(e as nat, 0);
        assert(decimal::ten_to((e + 1) as nat) == 10 * t);
        assert(v * (10 * t) == 10 * (v * t)) by (nonlinear_arith);
        if e == 0 {
            assert(decimal::ten_to(0) == 1);
            reveal_with_fuel(decimal::ten_to, 2);
            assert(v * 1 == v);
        } else {
            let less = decimal::ten_to((e - 1) as nat) as int;
            assert(t == 10 * less);
            assert((10 * v) * less == v * (10 * less)) by (nonlinear_arith);
        }
    } else {
        let t = decimal::ten_to((-e) as nat) as int;
        decimal::lemma_ten_to((-e) as nat, 0);
        let less = decimal::ten_to((-e - 1) as nat) as int;
        decimal::lemma_ten_to((-e - 1) as nat, 0);
        assert(t == 10 * less);
        assert(v * (10 * less) == 10 * (v * less)) by (nonlinear_arith);
        let more = decimal::ten_to((-e + 1) as nat) as int;
        decimal::lemma_ten_to((-e + 1) as nat, 0);
        assert(more == 10 * t);
        assert((10 * v) * t == v * (10 * t)) by (nonlinear_arith);
        if e == -1 {
            assert(less == 1);
            assert(v * 1 == v);
        }
    }
}

// ---- single precision ----------------------------------------------------

/// The smallest patterns stand for as many units as they count. From the first
/// normal one on, the pattern one exponent further stands for twice as many. The
/// pattern of one stands for one.
pub proof fn lemma_units_double(bits: int)
    requires
        0 <= bits,
    ensures
        bits < 0x100_0000 ==> fraction::single_units(bits) == bits,
        bits >= 0x80_0000 ==> fraction::single_units(bits + 0x80_0000) == 2
            * fraction::single_units(bits),
        fraction::single_units(0x3f80_0000) == decimal::two_to(149),
{
    fraction::lemma_one_units();
    if bits >= 0x80_0000 {
        let m = 0x80_0000 + bits % 0x80_0000;
        let k = bits / 0x80_0000;
        assert((bits + 0x80_0000) % 0x80_0000 == bits % 0x80_0000);
        assert((bits + 0x80_0000) / 0x80_0000 == k + 1);
        let p = decimal::two_to((k - 1) as nat) as int;
        assert(decimal::two_to(k as nat) == 2 * p);
        assert(m * (2 * p) == 2 * (m * p)) by (nonlinear_arith);
        if bits < 0x100_0000 {
            assert(k == 1);
            assert(decimal::two_to(0) == 1);
            assert(m * 1 == m);
        }
    }
}

/// How far the pattern `bits` is from `num / den`, scaled by `den`.
pub open spec fn distance(num: int, den: int, bits: int) -> int {
    let off = fraction::single_units(bits) * den - num * decimal::two_to(149);
    if off < 0 {
        -off
    } else {
        off
    }
}

/// The pattern that a number is rounded to is the nearest there is; where another
/// one is as near, it is the even one of the two.
pub proof fn lemma_rounding_is_nearest(num: int, den: int, bits: int, other: int)
    requires
        den >= 1,
        0 <= bits,
        0 <= other,
        other != bits,
        fraction::rounds_to(num, den, bits),
    ensures
        distance(num, den, bits) <= distance(num, den, other),
        distance(num, den, bits) == distance(num, den, other) ==> bits % 2 == 0,
{
    let x = num * decimal::two_to(149);
    let u = fraction::single_units(bits);
    let v = fraction::single_units(other);
    if other > bits {
        let next = fraction::single_units(bits + 1);
        fraction::lemma_units_monotone(bits + 1, other);
        fraction::lemma_units_increase(bits);
        assert((u + next) * den == u * den + next * den) by (nonlinear_arith);
        assert(next * den <= v * den && u * den < v * den && (next < v ==> next * den < v * den))
            by (nonlinear_arith)
            requires
                u < next <= v,
                den >= 1,
        ;
    } else {
        let prev = fraction::single_units(bits - 1);
        fraction::lemma_units_monotone(other, bits - 1);
        fraction::lemma_units_increase(bits - 1);
        assert((prev + u) * den == prev * den + u * den) by (nonlinear_arith);
        assert(v * den <= prev * den && v * den < u * den) by (nonlinear_arith)
            requires
                v <= prev < u,
                den >= 1,
        ;
    }
}

/// A negative number is read as zero, one of one or more as one, and one below
/// one as the pattern that it is rounded to. Only what is no number, or too large
/// for any finite pattern, is read as nothing.
pub proof fn lemma_how_fractions_are_read(s: Seq<u8>)
    ensures
        match fraction::number(s) {
            None => fraction::fraction(s) is None,
            Some(d) => {
                let (num, den) = fraction::magnitude(d);
                let too_large = num >= (0x200_0000 * decimal::two_to(103) - decimal::two_to(103))
                    * den;
                &&& fraction::fraction(s) is None <==> too_large
                &&& !too_large && d.negative ==> fraction::fraction(s) == Some(0u32)
                &&& !too_large && !d.negative && num >= den ==> fraction::fraction(s) == Some(
                    0x3f80_0000u32,
                )
                &&& !d.negative && num < den && !too_large ==> (fraction::fraction(s) matches Some(
                    bits,
                ) && fraction::rounds_to(num, den, bits as int) && bits <= 0x3f80_0000)
            },
        },
{
    if let Some(d) = fraction::number(s) {
        let (num, den) = fraction::magnitude(d);
        fraction::lemma_magnitude_not_negative(s);
        lemma_magnitude_scales(d);
        lemma_overflow();
        if num < den {
            fraction::lemma_nearest_rounds(num, den);
        }
    }
}

proof fn lemma_overflow()
    ensures
        fraction::OVERFLOW == 0x200_0000 * decimal::two_to(103) - decimal::two_to(103),
{
    reveal_with_fuel(decimal::two_to, 24);
    assert(decimal::two_to(20) == 0x10_0000);
    assert(decimal::two_to(23) == 0x80_0000);
    decimal::lemma_two_to(20, 20);
    assert(decimal::two_to(40) == 0x100_0000_0000);
    decimal::lemma_two_to(40, 40);
    assert(decimal::two_to(80) == 0x1_0000_0000_0000_0000_0000);
    decimal::lemma_two_to(80, 23);
    assert(decimal::two_to(103) == 0x80_0000_0000_0000_0000_0000_0000);
}

} // verus!
