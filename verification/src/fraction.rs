//! Fractions in `[0, 1]` as IEEE 754 binary32 bit patterns.
//!
//! A padding inset travels as decimal text and is kept as the bit pattern of
//! the single-precision number nearest to it, which is what the renderer
//! computes with. Everything here is integer arithmetic on those patterns.

use crate::bytes;
use crate::decimal;
use vstd::prelude::*;

verus! {

/// The bit pattern of `1`.
pub const ONE: u32 = 0x3f80_0000;

/// The bit pattern of one half.
pub const HALF: u32 = 0x3f00_0000;

/// `+`
pub const PLUS: u8 = 0x2b;

/// `-`
pub const MINUS: u8 = 0x2d;

/// `.`
pub const POINT: u8 = 0x2e;

/// `e`
pub const LOWER_E: u8 = 0x65;

/// `E`
pub const UPPER_E: u8 = 0x45;

/// Exponents are kept only up to this size: whatever the number of digits
/// beside it, a larger one makes the number too large to be finite, or
/// smaller than half the least positive number.
const EXPONENT_LIMIT: i128 = 1_000_000_000_000_000_000_000_000_000_000;

/// A distance between a point and its digits that no string of digits fills.
const FAR: i128 = 100_000_000_000_000_000_000_000_000_000;

/// The least magnitude that rounds to infinity: half a unit in the last
/// place above the largest finite number, `2^128 - 2^103`.
pub const OVERFLOW: u128 = 340282356779733661637539395458142568448;

/// The number that the non-negative finite bit pattern `bits` stands for, in
/// units of the least positive number (`2^-149`).
pub open spec fn single_units(bits: int) -> int {
    if bits < 0x80_0000 {
        bits
    } else {
        (0x80_0000 + bits % 0x80_0000) * decimal::two_to((bits / 0x80_0000 - 1) as nat)
    }
}

/// Whether `bits` is `num / den` rounded to the nearest single-precision
/// number: no neighbour is nearer, and of two equally near the even pattern
/// is taken.
pub open spec fn rounds_to(num: int, den: int, bits: int) -> bool {
    let twice = 2 * (num * decimal::two_to(149));
    let above = (single_units(bits) + single_units(bits + 1)) * den;
    let below = (single_units(bits - 1) + single_units(bits)) * den;
    &&& twice <= above
    &&& twice == above ==> bits % 2 == 0
    &&& bits > 0 ==> below <= twice
    &&& bits > 0 && twice == below ==> bits % 2 == 0
}

/// The single-precision number nearest to `num / den`.
pub open spec fn nearest_single(num: int, den: int) -> u32 {
    choose|bits: u32| #[trigger] rounds_to(num, den, bits as int)
}

/// A decimal number as written: its sign, all its digits, and the power of
/// ten that scales them.
pub struct Decimal {
    pub negative: bool,
    pub digits: Seq<u8>,
    pub exponent: int,
}

/// How many digits `s` begins with.
pub open spec fn digit_run(s: Seq<u8>) -> int
    decreases s.len(),
{
    if s.len() > 0 && decimal::is_digit(s[0]) {
        1 + digit_run(s.drop_first())
    } else {
        0
    }
}

/// Whether `s` begins with a minus sign, and what follows its sign, if any.
pub open spec fn signed(s: Seq<u8>) -> (bool, Seq<u8>) {
    if s.len() > 0 && s[0] == MINUS {
        (true, s.drop_first())
    } else if s.len() > 0 && s[0] == PLUS {
        (false, s.drop_first())
    } else {
        (false, s)
    }
}

/// The exponent that `s` writes: nothing at all, or `e` in either case, an
/// optional sign, and digits.
pub open spec fn exponent(s: Seq<u8>) -> Option<int> {
    if s.len() == 0 {
        Some(0)
    } else if s[0] == LOWER_E || s[0] == UPPER_E {
        let (negative, digits) = signed(s.drop_first());
        if digits.len() > 0 && digit_run(digits) == digits.len() {
            if negative {
                Some(-decimal::decimal_value(digits))
            } else {
                Some(decimal::decimal_value(digits))
            }
        } else {
            None
        }
    } else {
        None
    }
}

/// The decimal number that `s` writes: an optional sign, digits with at most
/// one point among them, and an optional exponent.
pub open spec fn number(s: Seq<u8>) -> Option<Decimal> {
    let (negative, body) = signed(s);
    let whole = digit_run(body);
    let after = body.skip(whole);
    let (decimals, tail) = if after.len() > 0 && after[0] == POINT {
        let n = digit_run(after.drop_first());
        (after.subrange(1, 1 + n), after.skip(1 + n))
    } else {
        (Seq::empty(), after)
    };
    if whole + decimals.len() == 0 {
        None
    } else {
        match exponent(tail) {
            Some(e) => Some(
                Decimal {
                    negative,
                    digits: body.take(whole) + decimals,
                    exponent: e - decimals.len(),
                },
            ),
            None => None,
        }
    }
}

/// The magnitude of `d`, as numerator and denominator.
pub open spec fn magnitude(d: Decimal) -> (int, int) {
    let value = decimal::decimal_value(d.digits);
    if d.exponent >= 0 {
        (value * decimal::ten_to(d.exponent as nat), 1)
    } else {
        (value, decimal::ten_to((-d.exponent) as nat) as int)
    }
}

/// The fraction that `s` writes, brought into `[0, 1]` and rounded to single
/// precision; none where `s` is no number, or one too large to be finite in
/// single precision.
pub open spec fn fraction(s: Seq<u8>) -> Option<u32> {
    match number(s) {
        Some(d) => fraction_of(d),
        None => None,
    }
}

/// `d` brought into `[0, 1]` and rounded to single precision, unless it is too
/// large to be finite in single precision.
pub open spec fn fraction_of(d: Decimal) -> Option<u32> {
    let (num, den) = magnitude(d);
    if num >= OVERFLOW * den {
        None
    } else if d.negative {
        Some(0)
    } else if num >= den {
        Some(ONE)
    } else {
        Some(nearest_single(num, den))
    }
}

/// Consecutive bit patterns stand for increasing numbers.
pub proof fn lemma_units_increase(bits: int)
    requires
        0 <= bits,
    ensures
        single_units(bits) < single_units(bits + 1),
{
    let m: int = 0x80_0000;
    if bits >= m - 1 {
        let e = (bits / m - 1) as nat;
        if bits == m - 1 {
            assert((bits + 1) / m == 1 && (bits + 1) % m == 0);
            assert(decimal::two_to(0) == 1);
            assert(m * 1 == m);
        } else {
            decimal::lemma_two_to(e, 1);
            assert(decimal::two_to(1) == 2) by {
                assert(decimal::two_to(0) == 1);
            }
            let p = decimal::two_to(e) as int;
            let r = bits % m;
            if r == m - 1 {
                assert((bits + 1) / m == bits / m + 1 && (bits + 1) % m == 0) by (nonlinear_arith)
                    requires
                        m == 0x80_0000,
                        bits % m == m - 1,
                ;
                assert(decimal::two_to(e + 1) == p * 2);
                assert((m + r) * p < m * (p * 2)) by (nonlinear_arith)
                    requires
                        r == m - 1,
                        p >= 1,
                ;
                assert(m * (p * 2) == m * decimal::two_to(e + 1));
                assert(((bits + 1) / m - 1) as nat == e + 1);
            } else {
                assert((bits + 1) / m == bits / m && (bits + 1) % m == r + 1) by (nonlinear_arith)
                    requires
                        m == 0x80_0000,
                        r == bits % m,
                        r != m - 1,
                ;
                assert((m + r) * p < (m + (r + 1)) * p) by (nonlinear_arith)
                    requires
                        p >= 1,
                ;
            }
        }
    }
}

/// Larger bit patterns stand for larger numbers.
pub proof fn lemma_units_monotone(a: int, b: int)
    requires
        0 <= a <= b,
    ensures
        single_units(a) <= single_units(b),
        a < b ==> single_units(a) < single_units(b),
    decreases b - a,
{
    if a < b {
        lemma_units_monotone(a, b - 1);
        lemma_units_increase(b - 1);
    }
}

/// At most one bit pattern is the nearest one.
pub proof fn lemma_rounds_to_unique(num: int, den: int, a: int, b: int)
    requires
        den > 0,
        0 <= a <= b,
        rounds_to(num, den, a),
        rounds_to(num, den, b),
    ensures
        a == b,
{
    let twice = 2 * (num * decimal::two_to(149));
    let sa = single_units(a) + single_units(a + 1);
    let sb = single_units(b - 1) + single_units(b);
    if a < b {
        lemma_units_monotone(a, b - 1);
        lemma_units_monotone(a + 1, b);
    }
    if a < b - 1 {
        assert(sa * den < sb * den) by (nonlinear_arith)
            requires
                sa < sb,
                den > 0,
        ;
    }
}

/// The pattern found to be nearest is `nearest_single`.
pub proof fn lemma_nearest_single(num: int, den: int, bits: u32)
    requires
        den > 0,
        rounds_to(num, den, bits as int),
    ensures
        nearest_single(num, den) == bits,
{
    let other = nearest_single(num, den);
    assert(rounds_to(num, den, other as int));
    if other < bits {
        lemma_rounds_to_unique(num, den, other as int, bits as int);
    } else if bits < other {
        lemma_rounds_to_unique(num, den, bits as int, other as int);
    }
}

/// The pattern that holds the significand `sig` with `j` bits after the
/// binary point.
pub open spec fn packed(j: int, sig: int) -> int {
    (149 - j) * 0x80_0000 + sig
}

/// `packed` stands for its significand, scaled.
proof fn lemma_packed_units(j: int, sig: int)
    requires
        0 <= j <= 149,
        0 <= sig <= 0x100_0000,
        sig >= 0x80_0000 || j == 149,
    ensures
        single_units(packed(j, sig)) == sig * decimal::two_to((149 - j) as nat),
{
    let m: int = 0x80_0000;
    let b = packed(j, sig);
    if sig < m {
        assert(decimal::two_to(0) == 1);
        assert(sig * 1 == sig);
    } else if sig < 2 * m {
        assert(b == (150 - j) * m + (sig - m));
        assert(b / m == 150 - j && b % m == sig - m) by (nonlinear_arith)
            requires
                m == 0x80_0000,
                b == (150 - j) * m + (sig - m),
                0 <= sig - m < m,
        ;
        assert(b >= m);
    } else {
        assert(b == (151 - j) * m);
        assert(b / m == 151 - j && b % m == 0) by (nonlinear_arith)
            requires
                m == 0x80_0000,
                b == (151 - j) * m,
        ;
        decimal::lemma_two_to((149 - j) as nat, 1);
        assert(decimal::two_to(1) == 2) by {
            assert(decimal::two_to(0) == 1);
        }
        let p = decimal::two_to((149 - j) as nat) as int;
        assert(m * (p * 2) == (2 * m) * p) by (nonlinear_arith);
        assert(b >= m);
        assert((b / m - 1) as nat == (149 - j) as nat + 1);
    }
}

/// Scaled up by `2^j`, a number with integer part `sig` and with `carry` and
/// `rest` for its next bit and what follows rounds to `sig`, or to the next
/// one where the next bit is set and either more follows or `sig` is odd.
proof fn lemma_round(num: int, den: int, j: int, sig: int, frac: int, carry: int, rest: int, up: int)
    requires
        den > 0,
        0 <= j <= 149,
        0 <= sig < 0x100_0000,
        sig >= 0x80_0000 || j == 149,
        decimal::two_to(j as nat) * num == sig * den + frac,
        2 * frac == carry * den + rest,
        carry == 0 || carry == 1,
        0 <= rest < den,
        up == (if carry == 1 && (rest != 0 || sig % 2 == 1) {
            1int
        } else {
            0int
        }),
    ensures
        rounds_to(num, den, packed(j, sig + up)),
{
    let u = decimal::two_to((149 - j) as nat) as int;
    decimal::lemma_two_to(j as nat, (149 - j) as nat);
    decimal::lemma_two_to((149 - j) as nat, 0);
    let tj = decimal::two_to(j as nat) as int;
    let twice = 2 * (num * decimal::two_to(149));
    let whole = 2 * sig * den + carry * den + rest;
    assert(twice == u * whole) by {
        assert(decimal::two_to(149) == tj * u);
        assert(2 * (num * (tj * u)) == u * (2 * (tj * num))) by (nonlinear_arith);
        assert(2 * (tj * num) == whole) by (nonlinear_arith)
            requires
                tj * num == sig * den + frac,
                2 * frac == carry * den + rest,
                whole == 2 * sig * den + carry * den + rest,
        ;
    }
    lemma_packed_units(j, sig);
    lemma_packed_units(j, sig + 1);
    let b = packed(j, sig);
    let f0 = single_units(b);
    let f1 = single_units(b + 1);
    assert(b + 1 == packed(j, sig + 1));
    assert(f0 == sig * u && f1 == (sig + 1) * u);
    let mid = (f0 + f1) * den;
    assert(mid == u * ((2 * sig + 1) * den)) by (nonlinear_arith)
        requires
            f0 == sig * u,
            f1 == (sig + 1) * u,
            mid == (f0 + f1) * den,
    ;
    let odd = (2 * sig + 1) * den;
    assert(odd == 2 * sig * den + den) by (nonlinear_arith)
        requires
            odd == (2 * sig + 1) * den,
    ;
    assert(carry * den == (if carry == 1 {
        den
    } else {
        0
    })) by (nonlinear_arith)
        requires
            carry == 0 || carry == 1,
    ;
    // where the number lies against the midpoint of the two candidates
    assert(whole < odd ==> twice < mid) by (nonlinear_arith)
        requires
            twice == u * whole,
            mid == u * odd,
            u >= 1,
    ;
    assert(whole > odd ==> twice > mid) by (nonlinear_arith)
        requires
            twice == u * whole,
            mid == u * odd,
            u >= 1,
    ;
    assert(b % 2 == sig % 2) by {
        assert(b == (149 - j) * 0x80_0000 + sig);
    }
    if up == 0 {
        if b > 0 {
            lemma_units_increase(b - 1);
            let fp = single_units(b - 1);
            assert((fp + f0) * den < twice) by (nonlinear_arith)
                requires
                    fp < f0,
                    f0 == sig * u,
                    twice == u * whole,
                    whole >= 2 * sig * den,
                    u >= 1,
                    den > 0,
            ;
        }
    } else {
        lemma_units_increase(b + 1);
        let f2 = single_units(b + 2);
        assert(twice < (f1 + f2) * den) by (nonlinear_arith)
            requires
                f1 < f2,
                f1 == (sig + 1) * u,
                twice == u * whole,
                whole < 2 * sig * den + 2 * den,
                u >= 1,
                den > 0,
        ;
    }
}

/// Double the fraction whose decimals are `digits`, handing out the whole
/// part, which is `0` or `1`.
fn double(digits: &mut Vec<u8>) -> (carry: u8)
    requires
        decimal::all_digits(old(digits)@),
    ensures
        decimal::all_digits(final(digits)@),
        final(digits)@.len() == old(digits)@.len(),
        carry <= 1,
        2 * decimal::decimal_value(old(digits)@) == carry * decimal::ten_to(old(digits)@.len())
            + decimal::decimal_value(final(digits)@),
{
    let ghost before = digits@;
    let mut carry: u8 = 0;
    let mut i: usize = digits.len();
    assert(before.skip(i as int) =~= Seq::empty());
    assert(digits@.skip(i as int) =~= Seq::empty());
    while i > 0
        invariant
            i <= digits@.len(),
            digits@.len() == before.len(),
            carry <= 1,
            decimal::all_digits(before),
            decimal::all_digits(digits@),
            forall|k: int| 0 <= k < i ==> digits@[k] == before[k],
            2 * decimal::decimal_value(before.skip(i as int)) == carry * decimal::ten_to(
                (before.len() - i) as nat,
            ) + decimal::decimal_value(digits@.skip(i as int)),
        decreases i,
    {
        i -= 1;
        let ghost tail = before.skip(i + 1);
        let ghost doubled_tail = digits@.skip(i + 1);
        let ghost c0 = carry as int;
        assert(decimal::is_digit(before[i as int]));
        let d: u8 = digits[i] - 0x30;
        let t: u8 = 2 * d + carry;
        let next: u8 = t % 10;
        digits.set(i, 0x30 + next);
        carry = t / 10;
        proof {
            let p = decimal::ten_to(tail.len()) as int;
            assert(seq![before[i as int]] + tail =~= before.skip(i as int));
            assert(seq![(0x30 + next) as u8] + doubled_tail =~= digits@.skip(i as int));
            decimal::lemma_decimal_value_concat(seq![before[i as int]], tail);
            decimal::lemma_decimal_value_concat(seq![(0x30 + next) as u8], doubled_tail);
            lemma_single_digit(before[i as int]);
            lemma_single_digit((0x30 + next) as u8);
            let q = decimal::ten_to((before.len() - i) as nat) as int;
            assert(q == 10 * p);
            assert(2 * (d * p) + c0 * p == carry * q + next * p) by (nonlinear_arith)
                requires
                    q == 10 * p,
                    2 * d + c0 == 10 * carry + next,
            ;
        }
    }
    assert(before.skip(0) =~= before);
    assert(digits@.skip(0) =~= digits@);
    carry
}

/// One digit writes its own value.
proof fn lemma_single_digit(b: u8)
    ensures
        decimal::decimal_value(seq![b]) == b - 0x30,
{
    assert(seq![b].drop_last() =~= Seq::empty());
    assert(decimal::decimal_value(Seq::empty()) == 0);
}

/// Whether any of `digits` is not zero.
fn any_nonzero(digits: &[u8]) -> (r: bool)
    requires
        decimal::all_digits(digits@),
    ensures
        r == (decimal::decimal_value(digits@) != 0),
{
    let mut i: usize = 0;
    while i < digits.len()
        invariant
            i <= digits@.len(),
            decimal::all_digits(digits@),
            forall|k: int| 0 <= k < i ==> digits@[k] == decimal::ZERO,
        decreases digits@.len() - i,
    {
        if digits[i] != decimal::ZERO {
            proof {
                decimal::lemma_decimal_value_at_least(digits@, i as int);
                decimal::lemma_ten_to((digits@.len() - 1 - i) as nat, 0);
            }
            return true;
        }
        i += 1;
    }
    proof {
        decimal::lemma_decimal_value_zeros(digits@);
    }
    false
}

/// The single-precision number nearest to the fraction whose decimals are
/// `digits`.
fn nearest(digits: Vec<u8>) -> (bits: u32)
    requires
        decimal::all_digits(digits@),
    ensures
        bits == nearest_single(
            decimal::decimal_value(digits@),
            decimal::ten_to(digits@.len()) as int,
        ),
{
    let ghost num = decimal::decimal_value(digits@);
    let ghost den = decimal::ten_to(digits@.len()) as int;
    let mut rest: Vec<u8> = digits;
    let mut sig: u32 = 0;
    let mut j: u32 = 0;
    proof {
        decimal::lemma_ten_to(digits@.len(), 0);
        assert(decimal::two_to(0) == 1);
        assert(1 * num == num);
        assert(0 * den == 0);
    }
    while j < 149 && sig < 0x80_0000
        invariant
            j <= 149,
            sig < 0x100_0000,
            decimal::all_digits(rest@),
            den == decimal::ten_to(rest@.len()),
            decimal::two_to(j as nat) * num == sig * den + decimal::decimal_value(rest@),
        decreases 149 - j,
    {
        let ghost frac = decimal::decimal_value(rest@);
        let ghost sig0 = sig as int;
        let carry: u8 = double(&mut rest);
        sig = 2 * sig + carry as u32;
        j += 1;
        proof {
            let p = decimal::two_to((j - 1) as nat) as int;
            assert(decimal::two_to(j as nat) == 2 * p);
            assert((2 * p) * num == (2 * sig0 + carry) * den + decimal::decimal_value(rest@))
                by (nonlinear_arith)
                requires
                    p * num == sig0 * den + frac,
                    2 * frac == carry * den + decimal::decimal_value(rest@),
            ;
        }
    }
    let ghost frac = decimal::decimal_value(rest@);
    let carry: u8 = double(&mut rest);
    let more: bool = any_nonzero(&rest);
    let up: u32 = if carry == 1 && (more || sig % 2 == 1) {
        1
    } else {
        0
    };
    let bits: u32 = (149 - j) * 0x80_0000 + (sig + up);
    proof {
        decimal::lemma_decimal_value_bound(rest@);
        lemma_round(
            num,
            den,
            j as int,
            sig as int,
            frac,
            carry as int,
            decimal::decimal_value(rest@),
            up as int,
        );
        lemma_nearest_single(num, den, bits);
    }
    bits
}

/// `digit_run` counts digits, and stops at the end or at another byte.
pub proof fn lemma_digit_run(s: Seq<u8>)
    ensures
        0 <= digit_run(s) <= s.len(),
        decimal::all_digits(s.take(digit_run(s))),
        digit_run(s) < s.len() ==> !decimal::is_digit(s[digit_run(s)]),
    decreases s.len(),
{
    if s.len() > 0 && decimal::is_digit(s[0]) {
        let t = s.drop_first();
        lemma_digit_run(t);
        let n = digit_run(t);
        assert forall|i: int| 0 <= i < s.take(n + 1).len() implies decimal::is_digit(
            #[trigger] s.take(n + 1)[i],
        ) by {
            if i > 0 {
                assert(s.take(n + 1)[i] == t.take(n)[i - 1]);
            }
        }
    }
}

/// Split off the digits that `data` begins with.
fn split_digits(data: &[u8]) -> (r: (&[u8], &[u8]))
    ensures
        r.0@ == data@.take(digit_run(data@)),
        r.1@ == data@.skip(digit_run(data@)),
        0 <= digit_run(data@) <= data@.len(),
        decimal::all_digits(r.0@),
{
    let mut n: usize = 0;
    let len: usize = data.len();
    assert(data@.skip(0) =~= data@);
    while n < len && decimal::is_digit_byte(data[n])
        invariant
            n <= len,
            len == data@.len(),
            digit_run(data@) == n + digit_run(data@.skip(n as int)),
        decreases len - n,
    {
        assert(data@.skip(n as int).drop_first() =~= data@.skip(n + 1));
        n += 1;
    }
    proof {
        lemma_digit_run(data@);
    }
    (&data[0..n], &data[n..len])
}

/// Split off the sign that `data` may begin with, and say whether it is a
/// minus.
fn split_sign(data: &[u8]) -> (r: (bool, &[u8]))
    ensures
        (r.0, r.1@) == signed(data@),
{
    let len: usize = data.len();
    if len > 0 && (data[0] == MINUS || data[0] == PLUS) {
        let rest = &data[1..len];
        assert(rest@ =~= data@.drop_first());
        (data[0] == MINUS, rest)
    } else {
        (false, data)
    }
}

/// `x` brought into `-EXPONENT_LIMIT ..= EXPONENT_LIMIT`.
spec fn limited(x: int) -> int {
    if x > EXPONENT_LIMIT {
        EXPONENT_LIMIT as int
    } else if x < -EXPONENT_LIMIT {
        -EXPONENT_LIMIT
    } else {
        x
    }
}

/// The number that `digits` write, or the limit where it is above that.
fn limited_value(digits: &[u8]) -> (r: i128)
    requires
        decimal::all_digits(digits@),
    ensures
        r == limited(decimal::decimal_value(digits@)),
        r >= 0,
{
    let mut out: i128 = 0;
    let mut i: usize = 0;
    while i < digits.len()
        invariant
            i <= digits@.len(),
            decimal::all_digits(digits@),
            0 <= out <= EXPONENT_LIMIT,
            out == decimal::decimal_value(digits@.take(i as int)),
        decreases digits@.len() - i,
    {
        assert(decimal::is_digit(digits@[i as int]));
        assert(digits@.take(i + 1).drop_last() =~= digits@.take(i as int));
        out = out * 10 + (digits[i] - 0x30) as i128;
        i += 1;
        proof {
            decimal::lemma_decimal_value_prefix(digits@, i as int);
        }
        if out > EXPONENT_LIMIT {
            return EXPONENT_LIMIT;
        }
    }
    assert(digits@.take(i as int) =~= digits@);
    out
}

/// Read the exponent that `data` writes, limited in size.
fn read_exponent(data: &[u8]) -> (r: Option<i128>)
    ensures
        match r {
            Some(e) => exponent(data@) is Some && e == limited(exponent(data@).unwrap()),
            None => exponent(data@) is None,
        },
{
    let len: usize = data.len();
    if len == 0 {
        return Some(0);
    }
    if data[0] != LOWER_E && data[0] != UPPER_E {
        return None;
    }
    let rest = &data[1..len];
    assert(rest@ =~= data@.drop_first());
    let (negative, text) = split_sign(rest);
    let (digits, tail) = split_digits(text);
    if digits.len() == 0 || tail.len() != 0 {
        return None;
    }
    assert(digits@ =~= text@);
    let value: i128 = limited_value(digits);
    if negative {
        Some(-value)
    } else {
        Some(value)
    }
}

/// The first `k` digits of `digits`, with zeros after its end.
spec fn padded(digits: Seq<u8>, k: int) -> Seq<u8> {
    Seq::new(
        k as nat,
        |i: int|
            if i < digits.len() {
                digits[i]
            } else {
                decimal::ZERO
            },
    )
}

/// With `k` of its digits before the point, `k` not negative, `d` has the
/// number that those digits write for its whole part.
proof fn lemma_whole_part(d: Decimal, k: int)
    requires
        decimal::all_digits(d.digits),
        k == d.digits.len() + d.exponent,
        k >= 0,
    ensures
        decimal::all_digits(padded(d.digits, k)),
        ({
            let (num, den) = magnitude(d);
            let whole = decimal::decimal_value(padded(d.digits, k));
            &&& den >= 1
            &&& whole >= 0
            &&& whole * den <= num < (whole + 1) * den
            &&& k < d.digits.len() ==> {
                &&& den == decimal::ten_to((d.digits.len() - k) as nat)
                &&& num == whole * den + decimal::decimal_value(d.digits.skip(k))
            }
        }),
{
    let s = d.digits;
    let n = s.len() as int;
    let all = padded(s, k);
    assert forall|i: int| 0 <= i < all.len() implies decimal::is_digit(#[trigger] all[i]) by {
        if i < n {
            assert(decimal::is_digit(s[i]));
        }
    }
    decimal::lemma_decimal_value_bound(all);
    let whole = decimal::decimal_value(all);
    if k >= n {
        let zeros = all.skip(n);
        assert(all =~= s + zeros);
        decimal::lemma_decimal_value_concat(s, zeros);
        decimal::lemma_decimal_value_zeros(zeros);
        assert(whole * 1 == whole);
        assert((whole + 1) * 1 == whole + 1);
    } else {
        let head = s.take(k);
        let tail = s.skip(k);
        assert(all =~= head);
        assert(s =~= head + tail);
        decimal::lemma_decimal_value_concat(head, tail);
        assert(decimal::all_digits(tail));
        decimal::lemma_decimal_value_bound(tail);
        let den = decimal::ten_to(tail.len()) as int;
        assert((whole + 1) * den == whole * den + den) by (nonlinear_arith);
    }
}

/// With its point before its first digit, `d` is below one, and with `more`
/// zeros between, below `10` to the power `-more`.
proof fn lemma_below_one(d: Decimal)
    requires
        decimal::all_digits(d.digits),
        d.digits.len() + d.exponent < 0,
    ensures
        ({
            let (num, den) = magnitude(d);
            let more = (-(d.digits.len() + d.exponent)) as nat;
            &&& num == decimal::decimal_value(d.digits)
            &&& den == decimal::ten_to(d.digits.len() + more)
            &&& num >= 0
            &&& den >= 1
            &&& num * decimal::ten_to(more) < den
            &&& num < den
        }),
{
    let n = d.digits.len();
    let more = (-(n + d.exponent)) as nat;
    decimal::lemma_decimal_value_bound(d.digits);
    decimal::lemma_ten_to(n, more);
    decimal::lemma_ten_to(more, 0);
    let num = decimal::decimal_value(d.digits);
    let p = decimal::ten_to(more) as int;
    let q = decimal::ten_to(n) as int;
    assert(num * p < q * p) by (nonlinear_arith)
        requires
            num < q,
            p >= 1,
    ;
    assert(num <= num * p) by (nonlinear_arith)
        requires
            num >= 0,
            p >= 1,
    ;
}

/// A magnitude below half the least positive number rounds to zero.
proof fn lemma_rounds_to_zero(num: int, den: int)
    requires
        num >= 0,
        den >= 1,
        num == 0 || num * decimal::ten_to(46) < den,
    ensures
        nearest_single(num, den) == 0,
{
    assert(single_units(0) + single_units(1) == 1);
    if num > 0 {
        assert(2 * decimal::two_to(149) <= decimal::ten_to(46)) by {
            reveal_with_fuel(decimal::two_to, 31);
            assert(decimal::two_to(30) == 0x4000_0000);
            decimal::lemma_two_to(30, 30);
            assert(decimal::two_to(60) == 0x1000_0000_0000_0000);
            decimal::lemma_two_to(60, 60);
            assert(decimal::two_to(120) == 0x100_0000_0000_0000_0000_0000_0000_0000);
            decimal::lemma_two_to(120, 30);
            assert(decimal::two_to(150) == 2 * decimal::two_to(149));
            reveal_with_fuel(decimal::ten_to, 24);
            assert(decimal::ten_to(23) == 100_000_000_000_000_000_000_000);
            decimal::lemma_ten_to(23, 23);
        }
        let t = decimal::two_to(149) as int;
        let p = decimal::ten_to(46) as int;
        assert(2 * (num * t) < den) by (nonlinear_arith)
            requires
                num * p < den,
                2 * t <= p,
                num > 0,
        ;
    } else {
        assert(0 * decimal::two_to(149) == 0);
    }
    assert(1 * den == den);
    assert(rounds_to(num, den, 0));
    lemma_nearest_single(num, den, 0);
}

/// The digits of `a`, then those of `b`.
fn joined(a: &[u8], b: &[u8]) -> (r: Vec<u8>)
    ensures
        r@ == a@ + b@,
{
    let mut out: Vec<u8> = bytes::copied(a);
    let mut i: usize = 0;
    assert(a@ + b@.take(0) =~= a@);
    while i < b.len()
        invariant
            i <= b@.len(),
            out@ == a@ + b@.take(i as int),
        decreases b@.len() - i,
    {
        out.push(b[i]);
        assert(out@ =~= a@ + b@.take(i + 1));
        i += 1;
    }
    assert(b@.take(i as int) =~= b@);
    out
}

/// The first digit that is not zero, if any.
fn first_nonzero(digits: &[u8]) -> (r: Option<usize>)
    requires
        decimal::all_digits(digits@),
    ensures
        match r {
            Some(z) => z < digits@.len() && digits@[z as int] != decimal::ZERO,
            None => decimal::decimal_value(digits@) == 0,
        },
{
    let mut i: usize = 0;
    while i < digits.len()
        invariant
            i <= digits@.len(),
            forall|k: int| 0 <= k < i ==> digits@[k] == decimal::ZERO,
        decreases digits@.len() - i,
    {
        if digits[i] != decimal::ZERO {
            return Some(i);
        }
        i += 1;
    }
    proof {
        decimal::lemma_decimal_value_zeros(digits@);
    }
    None
}

/// The number that the first `k` of `digits` write, zeros taking the place
/// of missing ones, unless it is too large.
fn whole_part(digits: &[u8], k: i128) -> (r: Option<u128>)
    requires
        decimal::all_digits(digits@),
        k >= 0,
    ensures
        match r {
            Some(v) => v == decimal::decimal_value(padded(digits@, k as int)) && v < OVERFLOW,
            None => decimal::decimal_value(padded(digits@, k as int)) >= OVERFLOW,
        },
{
    let ghost all = padded(digits@, k as int);
    assert forall|i: int| 0 <= i < all.len() implies decimal::is_digit(#[trigger] all[i]) by {
        if i < digits@.len() {
            assert(decimal::is_digit(digits@[i]));
        }
    }
    let mut out: u128 = 0;
    let mut i: i128 = 0;
    while i < k
        invariant
            0 <= i <= k,
            decimal::all_digits(digits@),
            all == padded(digits@, k as int),
            decimal::all_digits(all),
            out == decimal::decimal_value(all.take(i as int)),
            out < OVERFLOW,
        decreases k - i,
    {
        assert(decimal::is_digit(all[i as int]));
        let digit: u8 = if i < digits.len() as i128 {
            digits[i as usize] - 0x30
        } else {
            0
        };
        assert(all.take(i + 1).drop_last() =~= all.take(i as int));
        assert(digit == all[i as int] - 0x30);
        proof {
            decimal::lemma_decimal_value_prefix(all, i + 1);
        }
        let ghost next = decimal::decimal_value(all.take(i + 1));
        assert(next == out * 10 + digit);
        if out > (OVERFLOW - 1) / 10 {
            return None;
        }
        out = out * 10 + digit as u128;
        if out >= OVERFLOW {
            return None;
        }
        i += 1;
    }
    assert(all.take(i as int) =~= all);
    Some(out)
}

/// A number as scanned: its sign, all its digits, and how many of them stand
/// before the point, which may be none, or more than there are.
struct Scanned {
    negative: bool,
    digits: Vec<u8>,
    point: i128,
}

impl Scanned {
    /// Whether `self` holds `d`. The place of the point is exact unless it is
    /// far away.
    spec fn holds(self, d: Decimal) -> bool {
        let k = d.digits.len() + d.exponent;
        &&& self.negative == d.negative
        &&& self.digits@ == d.digits
        &&& decimal::all_digits(d.digits)
        &&& self.point == k || (self.point > FAR && k > FAR) || (self.point < -FAR && k < -FAR)
    }
}

/// Scan the number that `text` writes.
fn scan(text: &[u8]) -> (r: Option<Scanned>)
    ensures
        match r {
            Some(n) => number(text@) is Some && n.holds(number(text@).unwrap()),
            None => number(text@) is None,
        },
{
    let (negative, body) = split_sign(text);
    let (whole, after) = split_digits(body);
    let len: usize = after.len();
    let (decimals, tail) = if len > 0 && after[0] == POINT {
        let rest = &after[1..len];
        assert(rest@ =~= after@.drop_first());
        let (d, t) = split_digits(rest);
        let ghost n = digit_run(rest@);
        assert(d@ =~= after@.subrange(1, 1 + n));
        assert(t@ =~= after@.skip(1 + n));
        (d, t)
    } else {
        let none = &after[0..0];
        assert(none@ =~= Seq::empty());
        (none, after)
    };
    if whole.len() == 0 && decimals.len() == 0 {
        return None;
    }
    let e: i128 = match read_exponent(tail) {
        Some(e) => e,
        None => {
            return None;
        },
    };
    let digits: Vec<u8> = joined(whole, decimals);
    let point: i128 = whole.len() as i128 + e;
    proof {
        let d = number(text@).unwrap();
        assert(d.digits == digits@);
        assert forall|i: int| 0 <= i < digits@.len() implies decimal::is_digit(
            #[trigger] digits@[i],
        ) by {
            if i < whole@.len() {
                assert(digits@[i] == whole@[i]);
            } else {
                assert(digits@[i] == decimals@[i - whole@.len()]);
            }
        }
    }
    Some(Scanned { negative, digits, point })
}

/// The fraction that a scanned number stands for.
fn fraction_of_scanned(n: Scanned, Ghost(d): Ghost<Decimal>) -> (r: Option<u32>)
    requires
        n.holds(d),
    ensures
        r == fraction_of(d),
{
    let ghost num = magnitude(d).0;
    let ghost den = magnitude(d).1;
    let ghost k = d.digits.len() + d.exponent;
    let digits: Vec<u8> = n.digits;
    let point: i128 = n.point;
    let len: usize = digits.len();
    let first: usize = match first_nonzero(&digits) {
        Some(z) => z,
        None => {
            proof {
                lemma_zero_magnitude(d);
                lemma_rounds_to_zero(num, den);
            }
            return Some(0);
        },
    };
    if point > first as i128 + 40 {
        proof {
            lemma_too_large(d, first as int);
        }
        return None;
    }
    if point <= -46 {
        proof {
            lemma_too_small(d);
        }
        return Some(0);
    }
    assert(k == point);
    if point < 0 {
        proof {
            lemma_below_one(d);
            lemma_scaled(OVERFLOW as int, 1, den);
        }
        if n.negative {
            return Some(0);
        }
        let gap: usize = (-point) as usize;
        let zeros: Vec<u8> = vec![decimal::ZERO; gap];
        let shifted: Vec<u8> = joined(&zeros, &digits);
        proof {
            decimal::lemma_decimal_value_concat(zeros@, digits@);
            decimal::lemma_decimal_value_zeros(zeros@);
            assert(0 * decimal::ten_to(digits@.len()) == 0);
            assert forall|i: int| 0 <= i < shifted@.len() implies decimal::is_digit(
                #[trigger] shifted@[i],
            ) by {
                if i >= zeros@.len() {
                    assert(decimal::is_digit(digits@[i - zeros@.len()]));
                }
            }
        }
        return Some(nearest(shifted));
    }
    proof {
        lemma_whole_part(d, k);
    }
    let ghost w = decimal::decimal_value(padded(d.digits, k));
    let value: u128 = match whole_part(&digits, point) {
        Some(v) => v,
        None => {
            proof {
                lemma_scaled(w, OVERFLOW as int, den);
            }
            return None;
        },
    };
    proof {
        lemma_scaled(OVERFLOW as int, w + 1, den);
    }
    if n.negative {
        return Some(0);
    }
    if value >= 1 {
        proof {
            lemma_scaled(w, 1, den);
        }
        return Some(ONE);
    }
    proof {
        if k >= digits@.len() {
            decimal::lemma_decimal_value_at_least(padded(d.digits, k), first as int);
            decimal::lemma_ten_to((k - 1 - first) as nat, 0);
        }
        assert(0 * den == 0);
        assert(1 * den == den);
    }
    let rest: Vec<u8> = bytes::copied(&digits[point as usize..len]);
    assert(rest@ =~= digits@.skip(k));
    Some(nearest(rest))
}

/// Read the fraction that `text` writes, as `fraction` states it.
pub fn read_fraction(text: &[u8]) -> (r: Option<u32>)
    ensures
        r == fraction(text@),
{
    match scan(text) {
        Some(n) => fraction_of_scanned(n, Ghost(number(text@).unwrap())),
        None => None,
    }
}

/// Forty places are enough to be too large.
proof fn lemma_overflow_bound()
    ensures
        OVERFLOW <= decimal::ten_to(40),
{
    reveal_with_fuel(decimal::ten_to, 21);
    assert(decimal::ten_to(20) == 100_000_000_000_000_000_000);
    decimal::lemma_ten_to(20, 20);
}

/// A digit other than zero more than forty places before the point makes the
/// number too large.
proof fn lemma_too_large(d: Decimal, first: int)
    requires
        decimal::all_digits(d.digits),
        0 <= first < d.digits.len(),
        d.digits[first] != decimal::ZERO,
        d.digits.len() + d.exponent > first + 40,
    ensures
        magnitude(d).0 >= OVERFLOW * magnitude(d).1,
{
    let k = d.digits.len() + d.exponent;
    let all = padded(d.digits, k);
    lemma_whole_part(d, k);
    assert(all[first] == d.digits[first]);
    decimal::lemma_decimal_value_at_least(all, first);
    decimal::lemma_ten_to_increases(40, (k - 1 - first) as nat);
    lemma_overflow_bound();
    lemma_scaled(decimal::decimal_value(all), OVERFLOW as int, magnitude(d).1);
}

/// Forty-six zeros or more after the point make the number round to zero.
proof fn lemma_too_small(d: Decimal)
    requires
        decimal::all_digits(d.digits),
        d.digits.len() + d.exponent <= -46,
    ensures
        fraction_of(d) == Some(0u32),
{
    let k = d.digits.len() + d.exponent;
    let (num, den) = magnitude(d);
    lemma_below_one(d);
    decimal::lemma_ten_to_increases(46, (-k) as nat);
    lemma_scaled(decimal::ten_to((-k) as nat) as int, decimal::ten_to(46) as int, num);
    lemma_rounds_to_zero(num, den);
    lemma_scaled(OVERFLOW as int, 1, den);
}

/// No digit but zeros makes the magnitude zero.
proof fn lemma_zero_magnitude(d: Decimal)
    requires
        decimal::decimal_value(d.digits) == 0,
    ensures
        magnitude(d).0 == 0,
        magnitude(d).1 >= 1,
        OVERFLOW * magnitude(d).1 > 0,
{
    if d.exponent >= 0 {
        assert(0 * decimal::ten_to(d.exponent as nat) == 0);
    } else {
        decimal::lemma_ten_to((-d.exponent) as nat, 0);
    }
    let den = magnitude(d).1;
    lemma_scaled(OVERFLOW as int, 1, den);
}

/// Multiplication by a number that is not negative keeps the order.
proof fn lemma_scaled(a: int, b: int, c: int)
    requires
        a >= b,
        c >= 0,
    ensures
        a * c >= b * c,
        c * a >= c * b,
        1 * c == c,
{
    assert(a * c >= b * c && c * a >= c * b) by (nonlinear_arith)
        requires
            a >= b,
            c >= 0,
    ;
}

/// Twice the number that `bits` stands for, or the midpoint above it, scaled
/// like `rounds_to`.
spec fn reaches(num: int, den: int, bits: int) -> bool {
    let twice = 2 * (num * decimal::two_to(149));
    let above = (single_units(bits) + single_units(bits + 1)) * den;
    twice < above || (twice == above && bits % 2 == 0)
}

/// From `bits` up to `1`, the first pattern that `num / den` does not lie
/// above is the nearest.
proof fn lemma_nearest_exists(num: int, den: int, bits: int)
    requires
        den >= 1,
        0 <= num <= den,
        0 <= bits <= ONE,
        bits > 0 ==> !reaches(num, den, bits - 1),
    ensures
        exists|b: u32| #[trigger] rounds_to(num, den, b as int) && b <= ONE,
    decreases ONE - bits,
{
    if reaches(num, den, bits) {
        assert(rounds_to(num, den, bits as u32 as int));
    } else if bits < ONE {
        lemma_nearest_exists(num, den, bits + 1);
    } else {
        lemma_one_units();
        lemma_units_increase(ONE as int);
        let t = decimal::two_to(149) as int;
        let next = single_units(ONE + 1);
        assert(2 * (num * t) < (t + next) * den) by (nonlinear_arith)
            requires
                0 <= num <= den,
                den >= 1,
                t < next,
                t >= 1,
        ;
    }
}

/// `ONE` stands for one.
pub proof fn lemma_one_units()
    ensures
        single_units(ONE as int) == decimal::two_to(149),
        decimal::two_to(149) >= 1,
{
    decimal::lemma_two_to(126, 23);
    decimal::lemma_two_to(149, 0);
    reveal_with_fuel(decimal::two_to, 24);
    let p = decimal::two_to(126) as int;
    assert(0x80_0000 * p == p * 0x80_0000) by (nonlinear_arith);
    assert(ONE % 0x80_0000 == 0 && ONE / 0x80_0000 == 127);
}

/// Up to one, every number has a nearest pattern.
pub proof fn lemma_nearest_rounds(num: int, den: int)
    requires
        den >= 1,
        0 <= num <= den,
    ensures
        rounds_to(num, den, nearest_single(num, den) as int),
        nearest_single(num, den) <= ONE,
{
    lemma_nearest_exists(num, den, 0);
    let b = choose|b: u32| #[trigger] rounds_to(num, den, b as int) && b <= ONE;
    lemma_nearest_single(num, den, b);
}

/// Every fraction read lies in `[0, 1]`.
pub proof fn lemma_fraction_in_range(s: Seq<u8>)
    ensures
        fraction(s) matches Some(bits) ==> bits <= ONE,
{
    if let Some(d) = number(s) {
        let (num, den) = magnitude(d);
        if 0 <= num < den {
            lemma_nearest_rounds(num, den);
        } else {
            lemma_magnitude_not_negative(s);
        }
    }
}

/// The digits that `number` hands out are digits, so no magnitude is negative.
pub proof fn lemma_magnitude_not_negative(s: Seq<u8>)
    requires
        number(s) is Some,
    ensures
        magnitude(number(s).unwrap()).0 >= 0,
{
    let d = number(s).unwrap();
    let body = signed(s).1;
    let after = body.skip(digit_run(body));
    lemma_digit_run(body);
    assert forall|i: int| 0 <= i < d.digits.len() implies decimal::is_digit(
        #[trigger] d.digits[i],
    ) by {
        let w = digit_run(body);
        if i < w {
            assert(d.digits[i] == body.take(w)[i]);
        } else {
            let rest = after.drop_first();
            lemma_digit_run(rest);
            assert(d.digits[i] == rest.take(digit_run(rest))[i - w]);
        }
    }
    decimal::lemma_decimal_value_bound(d.digits);
    if d.exponent >= 0 {
        decimal::lemma_ten_to(d.exponent as nat, 0);
        lemma_scaled(
            decimal::decimal_value(d.digits),
            0,
            decimal::ten_to(d.exponent as nat) as int,
        );
    }
}

/// Whether the single-precision sum of the fractions `a` and `b` is at least
/// one: the sum lies no nearer to the number just below one than to one. A sum
/// halfway between the two is rounded to one, whose pattern is even.
pub open spec fn sum_is_whole(a: u32, b: u32) -> bool {
    2 * (single_units(a as int) + single_units(b as int)) >= single_units(ONE - 1) + single_units(
        ONE as int,
    )
}

/// `sum_is_whole` says what the rounded sum is.
pub proof fn lemma_sum_is_rounded(a: u32, b: u32, sum: int)
    requires
        0 <= sum,
        rounds_to(
            single_units(a as int) + single_units(b as int),
            decimal::two_to(149) as int,
            sum,
        ),
    ensures
        sum >= ONE <==> sum_is_whole(a, b),
{
    let n = single_units(a as int) + single_units(b as int);
    let t = decimal::two_to(149) as int;
    let above = single_units(sum) + single_units(sum + 1);
    let below = single_units(sum - 1) + single_units(sum);
    let half = single_units(ONE - 1) + single_units(ONE as int);
    decimal::lemma_two_to(149, 0);
    assert(2 * (n * t) == (2 * n) * t) by (nonlinear_arith);
    assert((2 * n) * t <= above * t ==> 2 * n <= above) by (nonlinear_arith)
        requires
            t >= 1,
    ;
    assert(below * t <= (2 * n) * t ==> below <= 2 * n) by (nonlinear_arith)
        requires
            t >= 1,
    ;
    assert(2 * n == above ==> (2 * n) * t == above * t);
    if sum >= ONE {
        lemma_units_monotone(ONE - 1, sum - 1);
        lemma_units_monotone(ONE as int, sum);
    } else {
        lemma_units_monotone(sum, ONE - 1);
        lemma_units_monotone(sum + 1, ONE as int);
        assert(above <= half);
        if sum < ONE - 1 {
            assert(above < half);
        }
    }
}

/// What `ONE` and the patterns around it and around one half stand for.
proof fn lemma_near_one()
    ensures
        single_units(ONE as int) == 0x200_0000 * decimal::two_to(124),
        single_units(ONE - 1) == 0x1ff_fffe * decimal::two_to(124),
        single_units(HALF - 1) == 0xff_ffff * decimal::two_to(124),
        decimal::two_to(124) >= 0x80_0000,
{
    lemma_one_units();
    decimal::lemma_two_to(124, 25);
    decimal::lemma_two_to(101, 23);
    decimal::lemma_two_to(101, 0);
    assert(decimal::two_to(25) == 0x200_0000) by {
        reveal_with_fuel(decimal::two_to, 26);
    }
    assert(decimal::two_to(23) == 0x80_0000) by {
        reveal_with_fuel(decimal::two_to, 24);
    }
    let p = decimal::two_to(124) as int;
    assert(p * 0x200_0000 == 0x200_0000 * p) by (nonlinear_arith);
    let q = decimal::two_to(101) as int;
    assert(q * 0x80_0000 >= 0x80_0000) by (nonlinear_arith)
        requires
            q >= 1,
    ;
    assert(decimal::two_to(125) == 2 * decimal::two_to(124));
    assert((ONE - 1) / 0x80_0000 == 126 && (ONE - 1) % 0x80_0000 == 0x7f_ffff);
    assert((HALF - 1) / 0x80_0000 == 125 && (HALF - 1) % 0x80_0000 == 0x7f_ffff);
}

/// Whether `m * 2^(e - 1)` is at least `k * 2^124`.
fn at_least_scaled(m: u64, e: u32, k: u64) -> (r: bool)
    requires
        0x80_0000 <= m < 0x100_0000,
        1 <= e <= 126,
        1 <= k < 0x100_0000,
    ensures
        r == (m * decimal::two_to((e - 1) as nat) >= k * decimal::two_to(124)),
{
    if e == 126 {
        assert(decimal::two_to(125) == 2 * decimal::two_to(124));
        let ghost p = decimal::two_to(124) as int;
        proof {
            decimal::lemma_two_to(124, 0);
        }
        assert(m * (2 * p) >= k * p <==> 2 * m >= k) by (nonlinear_arith)
            requires
                p >= 1,
        ;
        return 2 * m >= k;
    }
    let d: u32 = 125 - e;
    let ghost p = decimal::two_to((e - 1) as nat) as int;
    let mut scaled: u64 = k;
    let mut i: u32 = 0;
    proof {
        decimal::lemma_two_to((e - 1) as nat, d as nat);
        decimal::lemma_two_to((e - 1) as nat, 0);
        assert(k * 1 == k);
    }
    while i < d && scaled <= m
        invariant
            i <= d,
            m < 0x100_0000,
            1 <= k,
            scaled == k * decimal::two_to(i as nat),
            scaled < 0x200_0000,
        decreases d - i,
    {
        assert(k * (2 * decimal::two_to(i as nat)) == 2 * (k * decimal::two_to(i as nat)))
            by (nonlinear_arith);
        assert(decimal::two_to((i + 1) as nat) == 2 * decimal::two_to(i as nat));
        scaled = 2 * scaled;
        i += 1;
    }
    proof {
        let t = decimal::two_to(d as nat) as int;
        decimal::lemma_two_to(i as nat, (d - i) as nat);
        decimal::lemma_two_to((d - i) as nat, 0);
        let u = decimal::two_to(i as nat) as int;
        let v = decimal::two_to((d - i) as nat) as int;
        assert(k * (u * v) >= k * u) by (nonlinear_arith)
            requires
                k >= 1,
                u >= 0,
                v >= 1,
        ;
        assert(m * p >= k * (p * t) <==> m >= k * t) by (nonlinear_arith)
            requires
                p >= 1,
        ;
    }
    scaled <= m
}

/// Whether the single-precision sum of the fractions `a` and `b` is at least
/// one.
pub fn sum_reaches_one(a: u32, b: u32) -> (r: bool)
    requires
        a <= ONE,
        b <= ONE,
    ensures
        r == sum_is_whole(a, b),
{
    let (hi, lo) = if a >= b {
        (a, b)
    } else {
        (b, a)
    };
    let ghost p = decimal::two_to(124) as int;
    let ghost units = single_units(hi as int);
    let ghost more = single_units(lo as int);
    proof {
        lemma_near_one();
        lemma_units_monotone(0, lo as int);
    }
    if hi == ONE {
        return true;
    }
    if hi < HALF {
        proof {
            lemma_units_monotone(hi as int, HALF - 1);
            lemma_units_monotone(lo as int, HALF - 1);
        }
        return false;
    }
    let significand: u64 = 0x80_0000 + (hi % 0x80_0000) as u64;
    let missing: u64 = 0x1ff_ffff - 2 * significand;
    proof {
        assert(hi / 0x80_0000 == 126);
        assert(decimal::two_to(125) == 2 * decimal::two_to(124));
        assert(units == significand * (2 * p));
        assert(significand * (2 * p) == (2 * significand) * p) by (nonlinear_arith);
        assert(missing * p == 0x1ff_ffff * p - (2 * significand) * p) by (nonlinear_arith)
            requires
                missing == 0x1ff_ffff - 2 * significand,
        ;
        assert(sum_is_whole(a, b) <==> more >= missing * p);
    }
    if lo < 0x80_0000 {
        assert(missing * p >= p) by (nonlinear_arith)
            requires
                missing >= 1,
                p >= 1,
        ;
        return false;
    }
    at_least_scaled(0x80_0000 + (lo % 0x80_0000) as u64, lo / 0x80_0000, missing)
}

} // verus!
