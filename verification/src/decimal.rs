//! Decimal digit strings and the numbers they stand for.

use vstd::prelude::*;

verus! {

/// `0`, the digit zero.
pub const ZERO: u8 = 0x30;

/// `10` to the power `n`.
pub open spec fn ten_to(n: nat) -> nat
    decreases n,
{
    if n == 0 {
        1
    } else {
        10 * ten_to((n - 1) as nat)
    }
}

/// `2` to the power `n`.
pub open spec fn two_to(n: nat) -> nat
    decreases n,
{
    if n == 0 {
        1
    } else {
        2 * two_to((n - 1) as nat)
    }
}

/// Whether `b` is one of the ASCII digits `0` to `9`.
pub open spec fn is_digit(b: u8) -> bool {
    0x30 <= b <= 0x39
}

/// Whether `s` holds digits only.
pub open spec fn all_digits(s: Seq<u8>) -> bool {
    forall|i: int| 0 <= i < s.len() ==> is_digit(#[trigger] s[i])
}

/// The number that the digits of `s` write, most significant first.
pub open spec fn decimal_value(s: Seq<u8>) -> int
    decreases s.len(),
{
    if s.len() == 0 {
        0
    } else {
        decimal_value(s.drop_last()) * 10 + (s.last() - 0x30)
    }
}

/// Powers of ten are positive and multiply by adding exponents.
pub proof fn lemma_ten_to(a: nat, b: nat)
    ensures
        ten_to(a) >= 1,
        ten_to(a + b) == ten_to(a) * ten_to(b),
    decreases b, a,
{
    if b == 0 {
        if a > 0 {
            lemma_ten_to((a - 1) as nat, 0);
        }
        assert(ten_to(a) * 1 == ten_to(a));
    } else {
        lemma_ten_to(a, (b - 1) as nat);
        let x = ten_to(a) as int;
        let y = ten_to((b - 1) as nat) as int;
        assert(10 * (x * y) == x * (10 * y)) by (nonlinear_arith);
    }
}

/// Powers of two are positive and multiply by adding exponents.
pub proof fn lemma_two_to(a: nat, b: nat)
    ensures
        two_to(a) >= 1,
        two_to(a + b) == two_to(a) * two_to(b),
    decreases b, a,
{
    if b == 0 {
        if a > 0 {
            lemma_two_to((a - 1) as nat, 0);
        }
        assert(two_to(a) * 1 == two_to(a));
    } else {
        lemma_two_to(a, (b - 1) as nat);
        let x = two_to(a) as int;
        let y = two_to((b - 1) as nat) as int;
        assert(2 * (x * y) == x * (2 * y)) by (nonlinear_arith);
    }
}

/// A larger exponent gives a larger power of ten.
pub proof fn lemma_ten_to_increases(a: nat, b: nat)
    requires
        a <= b,
    ensures
        ten_to(a) <= ten_to(b),
{
    lemma_ten_to(a, (b - a) as nat);
    lemma_ten_to((b - a) as nat, 0);
    let x = ten_to(a) as int;
    let y = ten_to((b - a) as nat) as int;
    assert(x <= x * y) by (nonlinear_arith)
        requires
            x >= 0,
            y >= 1,
    ;
}

/// `n` digits write a number below `10` to the power `n`.
pub proof fn lemma_decimal_value_bound(s: Seq<u8>)
    requires
        all_digits(s),
    ensures
        0 <= decimal_value(s) < ten_to(s.len()),
    decreases s.len(),
{
    if s.len() > 0 {
        assert(is_digit(s[s.len() - 1]));
        assert(all_digits(s.drop_last()));
        lemma_decimal_value_bound(s.drop_last());
    }
}

/// The number that two digit strings write in a row.
pub proof fn lemma_decimal_value_concat(a: Seq<u8>, b: Seq<u8>)
    ensures
        decimal_value(a + b) == decimal_value(a) * ten_to(b.len()) + decimal_value(b),
    decreases b.len(),
{
    if b.len() == 0 {
        assert(a + b =~= a);
        assert(ten_to(b.len()) == 1);
        assert(decimal_value(a) * 1 == decimal_value(a));
    } else {
        assert((a + b).drop_last() =~= a + b.drop_last());
        lemma_decimal_value_concat(a, b.drop_last());
        let x = decimal_value(a);
        let p = ten_to(b.drop_last().len()) as int;
        assert((x * p) * 10 == x * (10 * p)) by (nonlinear_arith);
        assert((a + b).last() == b.last());
        assert(ten_to(b.len()) == 10 * p);
        assert(decimal_value(a) * ten_to(b.len()) == x * (10 * p));
    }
}

/// Zeros write the number zero.
pub proof fn lemma_decimal_value_zeros(s: Seq<u8>)
    requires
        forall|i: int| 0 <= i < s.len() ==> s[i] == ZERO,
    ensures
        decimal_value(s) == 0,
    decreases s.len(),
{
    if s.len() > 0 {
        assert(s[s.len() - 1] == ZERO);
        lemma_decimal_value_zeros(s.drop_last());
    }
}

/// A digit other than zero at `at` makes the number at least the power of
/// ten of its place.
pub proof fn lemma_decimal_value_at_least(s: Seq<u8>, at: int)
    requires
        all_digits(s),
        0 <= at < s.len(),
        s[at] != ZERO,
    ensures
        decimal_value(s) >= ten_to((s.len() - 1 - at) as nat),
{
    let head = s.take(at + 1);
    let tail = s.skip(at + 1);
    assert(s =~= head + tail);
    lemma_decimal_value_concat(head, tail);
    assert(all_digits(head.drop_last()));
    assert(all_digits(tail));
    lemma_decimal_value_bound(head.drop_last());
    lemma_decimal_value_bound(tail);
    assert(is_digit(s[at]));
    assert(head.last() == s[at]);
    assert(decimal_value(head) >= 1);
    let h = decimal_value(head);
    let p = ten_to(tail.len()) as int;
    assert(h * p >= p) by (nonlinear_arith)
        requires
            h >= 1,
            p >= 0,
    ;
}

/// A prefix writes a number no larger than the whole.
pub proof fn lemma_decimal_value_prefix(s: Seq<u8>, n: int)
    requires
        all_digits(s),
        0 <= n <= s.len(),
    ensures
        decimal_value(s.take(n)) <= decimal_value(s),
{
    let head = s.take(n);
    let tail = s.skip(n);
    assert(s =~= head + tail);
    lemma_decimal_value_concat(head, tail);
    lemma_decimal_value_bound(head);
    lemma_decimal_value_bound(tail);
    lemma_ten_to(tail.len(), 0);
    let h = decimal_value(head);
    let p = ten_to(tail.len()) as int;
    assert(h * p >= h) by (nonlinear_arith)
        requires
            h >= 0,
            p >= 1,
    ;
}

/// Whether `b` is a digit.
pub fn is_digit_byte(b: u8) -> (r: bool)
    ensures
        r == is_digit(b),
{
    0x30 <= b && b <= 0x39
}

} // verus!
