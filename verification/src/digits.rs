//! Powers of ten and decimal digit counts, the ground the mantissa
//! arithmetic stands on.

use vstd::prelude::*;
use vstd::arithmetic::div_mod::{lemma_fundamental_div_mod, lemma_multiply_divide_lt};

verus! {

/// `10^n` over the naturals.
pub open spec fn pow10(n: nat) -> nat
    decreases n,
{
    if n == 0 {
        1
    } else {
        10 * pow10((n - 1) as nat)
    }
}

/// Number of decimal digits of `m`; zero counts as one digit.
pub open spec fn digit_count(m: nat) -> nat
    decreases m,
{
    if m < 10 {
        1
    } else {
        1 + digit_count(m / 10)
    }
}

/// Powers of ten are positive.
pub proof fn lemma_pow10_pos(n: nat)
    ensures
        pow10(n) >= 1,
    decreases n,
{
    if n > 0 {
        lemma_pow10_pos((n - 1) as nat);
    }
}

/// Powers of ten are monotone in the exponent.
pub proof fn lemma_pow10_mono(a: nat, b: nat)
    requires
        a <= b,
    ensures
        pow10(a) <= pow10(b),
    decreases b,
{
    if a < b {
        lemma_pow10_mono(a, (b - 1) as nat);
        lemma_pow10_pos((b - 1) as nat);
    }
}

/// `10^(a + b) == 10^a * 10^b`.
pub proof fn lemma_pow10_adds(a: nat, b: nat)
    ensures
        pow10(a + b) == pow10(a) * pow10(b),
    decreases a,
{
    if a == 0 {
        reveal_with_fuel(pow10, 2);
        assert(pow10(0) * pow10(b) == pow10(b));
    } else {
        lemma_pow10_adds((a - 1) as nat, b);
        assert(pow10(a) * pow10(b) == 10 * pow10((a - 1) as nat) * pow10(b));
        assert(10 * pow10((a - 1) as nat) * pow10(b) == 10 * (pow10((a - 1) as nat) * pow10(b)))
            by (nonlinear_arith);
    }
}

/// A number with `d` digits lies between `10^(d-1)` and `10^d`.
pub proof fn lemma_digit_count_bounds(m: nat)
    ensures
        digit_count(m) >= 1,
        m < pow10(digit_count(m)),
        m >= 1 ==> pow10((digit_count(m) - 1) as nat) <= m,
    decreases m,
{
    if m < 10 {
        reveal_with_fuel(pow10, 2);
        assert(pow10(1) == 10);
    } else {
        lemma_digit_count_bounds(m / 10);
        lemma_fundamental_div_mod(m as int, 10);
        assert(m % 10 < 10) by (nonlinear_arith);
        let dsub = digit_count(m / 10);
        assert(digit_count(m) == 1 + dsub);
        assert(pow10(1 + dsub) == 10 * pow10(dsub));
        assert(m < 10 * pow10(dsub));
        assert(pow10(dsub) == 10 * pow10((dsub - 1) as nat));
        assert(pow10(dsub) <= m);
    }
}

/// Any number below `10^d` has at most `d` digits.
pub proof fn lemma_digit_count_le(m: nat, d: nat)
    requires
        d >= 1,
        m < pow10(d),
    ensures
        digit_count(m) <= d,
{
    if m == 0 {
        assert(digit_count(0nat) == 1);
    } else {
        lemma_digit_count_bounds(m);
        if digit_count(m) > d {
            lemma_pow10_mono(d, (digit_count(m) - 1) as nat);
        }
    }
}

/// `10^n` itself has exactly `n + 1` digits.
pub proof fn lemma_digit_count_pow10(n: nat)
    ensures
        digit_count(pow10(n)) == n + 1,
{
    lemma_pow10_pos(n);
    lemma_digit_count_bounds(pow10(n));
    let d = digit_count(pow10(n));
    assert(pow10(n) < pow10(d));
    assert(pow10((d - 1) as nat) <= pow10(n));
    if d <= n {
        lemma_pow10_mono(d, n);
    }
    if d > n + 1 {
        lemma_pow10_mono(n + 1, (d - 1) as nat);
        lemma_pow10_mono(n, n);
        assert(pow10(n + 1) == 10 * pow10(n));
    }
}

/// Every `u64` value has at most twenty digits.
pub proof fn lemma_u64_digit_count(m: nat)
    requires
        m <= u64::MAX,
    ensures
        1 <= digit_count(m) <= 20,
{
    reveal_with_fuel(pow10, 21);
    assert(pow10(20) == 100000000000000000000);
    lemma_digit_count_le(m, 20);
    lemma_digit_count_bounds(m);
}

/// Dropping the low digits of a `d`-digit number leaves at most `keep` digits.
pub proof fn lemma_digit_count_after_shift(m: nat, keep: nat)
    requires
        keep >= 1,
        digit_count(m) > keep,
    ensures
        digit_count(m / pow10((digit_count(m) - keep) as nat)) <= keep,
{
    let shift = (digit_count(m) - keep) as nat;
    lemma_digit_count_bounds(m);
    lemma_pow10_adds(shift, keep);
    lemma_pow10_pos(shift);
    assert(m < pow10(shift) * pow10(keep));
    lemma_multiply_divide_lt(m as int, pow10(shift) as int, pow10(keep) as int);
    lemma_digit_count_le(m / pow10(shift), keep);
}

/// Computes `10^n` for exponents that fit in a `u64`.
pub(crate) fn pow10_u64(n: u8) -> (r: u64)
    requires
        n <= 19,
    ensures
        r as nat == pow10(n as nat),
{
    let mut r: u64 = 1;
    let mut i: u8 = 0;
    while i < n
        invariant
            i <= n <= 19,
            r as nat == pow10(i as nat),
        decreases n - i,
    {
        proof {
            lemma_pow10_mono((i + 1) as nat, 19);
            reveal_with_fuel(pow10, 20);
            assert(pow10(19) == 10000000000000000000);
            assert(pow10((i + 1) as nat) == 10 * pow10(i as nat));
        }
        r = r * 10;
        i = i + 1;
    }
    r
}

/// Counts the decimal digits of `m`, treating zero as one digit.
pub(crate) fn count_digits(m: u64) -> (d: u8)
    ensures
        d as nat == digit_count(m as nat),
        1 <= d <= 20,
{
    proof {
        lemma_u64_digit_count(m as nat);
    }
    let mut d: u8 = 1;
    let mut t: u64 = m;
    while t >= 10
        invariant
            digit_count(m as nat) == (d - 1) + digit_count(t as nat),
            1 <= d <= 20,
            digit_count(t as nat) >= 1,
            digit_count(m as nat) <= 20,
        decreases t,
    {
        proof {
            assert(digit_count(t as nat) == 1 + digit_count((t / 10) as nat));
            lemma_digit_count_bounds((t / 10) as nat);
        }
        t = t / 10;
        d = d + 1;
    }
    d
}

} // verus!
