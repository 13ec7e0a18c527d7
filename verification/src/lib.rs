//! Fixed-precision decimal float emulation over unsigned integers.
//!
//! A [`Float`] carries a sign flag, an unsigned decimal mantissa and a
//! biased exponent; its magnitude is `mantissa * 10^(exponent - BIAS)`.
//! Every operator truncates its raw result toward zero to at most
//! [`PRECISION`] significant decimal digits, and any value whose mantissa
//! truncates to zero collapses to a single canonical zero sentinel. Only
//! integer addition, multiplication and quotient/remainder are used, so
//! the semantics can be mirrored inside arithmetic-circuit constraint
//! systems that offer no native floating point.

use vstd::prelude::*;

pub mod digits;
pub mod laws;

use crate::digits::{pow10, digit_count, pow10_u64, count_digits, lemma_pow10_pos};
use vstd::arithmetic::div_mod::{
    lemma_fundamental_div_mod,
    lemma_fundamental_div_mod_converse,
    lemma_div_multiples_vanish,
    lemma_div_is_ordered,
};

verus! {

/// Maximum number of significant decimal digits kept in a mantissa
/// after truncation.
pub const PRECISION: u8 = 7;

/// Offset added to every stored exponent so that the representable
/// exponent range stays non-negative; the true decimal scale of a value
/// is `exponent - BIAS`.
pub const BIAS: u8 = 100;

/// A decimal floating-point value: `positive` is true for non-negative
/// values, and the magnitude is `mantissa * 10^(exponent - BIAS)`.
#[derive(Debug, PartialEq, Clone, Default)]
pub struct Float {
    pub positive: bool,
    pub mantissa: u64,
    pub exponent: u8,
}

/// Mathematical model of a [`Float`]: the same triple with the machine
/// widths stripped away.
pub ghost struct FloatVal {
    pub positive: bool,
    pub mantissa: nat,
    pub exponent: int,
}

impl View for Float {
    type V = FloatVal;

    open spec fn view(&self) -> FloatVal {
        FloatVal {
            positive: self.positive,
            mantissa: self.mantissa as nat,
            exponent: self.exponent as int,
        }
    }
}

/// The unique representation of zero: non-negative, mantissa zero,
/// exponent equal to the bias. Every value whose mantissa truncates to
/// zero is rewritten to this sentinel.
pub open spec fn canonical_zero() -> FloatVal {
    FloatVal { positive: true, mantissa: 0, exponent: BIAS as int }
}

/// Truncation toward zero to `PRECISION` significant digits: a mantissa
/// with more than `PRECISION` digits loses its low digits to integer
/// division while the exponent grows by the number of digits dropped;
/// a zero mantissa collapses to the canonical zero.
pub open spec fn spec_truncate(f: FloatVal) -> FloatVal {
    let d = digit_count(f.mantissa);
    let t = if d > PRECISION {
        FloatVal {
            positive: f.positive,
            mantissa: f.mantissa / pow10((d - PRECISION) as nat),
            exponent: f.exponent + d - PRECISION,
        }
    } else {
        f
    };
    if t.mantissa == 0 {
        canonical_zero()
    } else {
        t
    }
}

/// The exponent arithmetic of `truncate` stays inside a `u8`.
pub open spec fn truncate_ok(f: FloatVal) -> bool {
    digit_count(f.mantissa) > PRECISION ==> f.exponent + digit_count(f.mantissa) - PRECISION
        <= u8::MAX
}

/// The sign flipped, everything else untouched.
pub open spec fn spec_negate(f: FloatVal) -> FloatVal {
    FloatVal { positive: !f.positive, mantissa: f.mantissa, exponent: f.exponent }
}

/// Non-negative values pass through verbatim; negative values are
/// clamped to the canonical zero.
pub open spec fn spec_relu(f: FloatVal) -> FloatVal {
    if f.positive {
        f
    } else {
        canonical_zero()
    }
}

/// Clamps a negative value to the canonical zero and returns a
/// non-negative value verbatim, without re-canonicalizing it.
pub fn relu(num: Float) -> (res: Float)
    ensures
        res@ == spec_relu(num@),
        num.positive ==> res == num,
{
    if num.positive {
        num
    } else {
        Float { positive: true, mantissa: 0, exponent: BIAS }
    }
}

/// Canonicalizes a value: truncates the mantissa toward zero to at most
/// `PRECISION` decimal digits, raising the exponent by the number of
/// digits dropped, and collapses a zero mantissa to the canonical zero.
pub fn truncate(num: Float) -> (res: Float)
    requires
        truncate_ok(num@),
    ensures
        res@ == spec_truncate(num@),
{
    let digits: u8 = count_digits(num.mantissa);
    let mut res: Float = num;
    if digits > PRECISION {
        let shift: u8 = digits - PRECISION;
        proof {
            lemma_pow10_pos(shift as nat);
        }
        let divisor: u64 = pow10_u64(shift);
        res = Float {
            positive: res.positive,
            mantissa: res.mantissa / divisor,
            exponent: res.exponent + shift,
        };
    }
    if res.mantissa == 0 {
        res = Float { positive: true, mantissa: 0, exponent: BIAS };
    }
    res
}

/// The raw product before canonicalization: mantissas multiply, the
/// exponents add with one bias removed, and the sign is positive exactly
/// when the operand signs agree.
pub open spec fn raw_mul(x: FloatVal, y: FloatVal) -> FloatVal {
    FloatVal {
        positive: x.positive == y.positive,
        mantissa: x.mantissa * y.mantissa,
        exponent: x.exponent + y.exponent - BIAS,
    }
}

/// The canonicalized product.
pub open spec fn spec_mul(x: FloatVal, y: FloatVal) -> FloatVal {
    spec_truncate(raw_mul(x, y))
}

/// The intermediate values of `mul_floats` stay inside their machine
/// widths.
pub open spec fn mul_ok(x: FloatVal, y: FloatVal) -> bool {
    &&& x.mantissa * y.mantissa <= u64::MAX
    &&& BIAS <= x.exponent + y.exponent <= u8::MAX
    &&& truncate_ok(raw_mul(x, y))
}

/// Multiplies two values and canonicalizes the product.
pub fn mul_floats(x: Float, y: Float) -> (res: Float)
    requires
        mul_ok(x@, y@),
    ensures
        res@ == spec_mul(x@, y@),
{
    let mant: u64 = x.mantissa * y.mantissa;
    let exp: u8 = x.exponent + y.exponent - BIAS;
    let positive: bool = x.positive == y.positive;
    let res = Float { positive, mantissa: mant, exponent: exp };
    truncate(res)
}

/// Absolute difference of the two stored exponents.
pub open spec fn exp_diff(x: FloatVal, y: FloatVal) -> nat {
    if x.exponent > y.exponent {
        (x.exponent - y.exponent) as nat
    } else {
        (y.exponent - x.exponent) as nat
    }
}

/// `x`'s mantissa expressed at the smaller of the two exponents: the
/// operand with the larger exponent is scaled up by the matching power
/// of ten.
pub open spec fn aligned_mantissa_x(x: FloatVal, y: FloatVal) -> nat {
    if x.exponent < y.exponent {
        x.mantissa
    } else {
        x.mantissa * pow10(exp_diff(x, y))
    }
}

/// `y`'s mantissa expressed at the smaller of the two exponents.
pub open spec fn aligned_mantissa_y(x: FloatVal, y: FloatVal) -> nat {
    if x.exponent < y.exponent {
        y.mantissa * pow10(exp_diff(x, y))
    } else {
        y.mantissa
    }
}

/// The smaller of the two stored exponents, at which the sum is formed.
pub open spec fn aligned_exponent(x: FloatVal, y: FloatVal) -> int {
    if x.exponent < y.exponent {
        x.exponent
    } else {
        y.exponent
    }
}

/// The raw sum before canonicalization: scales are aligned, matching
/// signs add the mantissas, and differing signs subtract the smaller
/// aligned mantissa from the larger, the result taking the sign of the
/// dominant operand.
pub open spec fn raw_add(x: FloatVal, y: FloatVal) -> FloatVal {
    let m1 = aligned_mantissa_x(x, y);
    let m2 = aligned_mantissa_y(x, y);
    let e = aligned_exponent(x, y);
    if x.positive == y.positive {
        FloatVal { positive: x.positive, mantissa: m1 + m2, exponent: e }
    } else if m1 > m2 {
        FloatVal { positive: x.positive, mantissa: (m1 - m2) as nat, exponent: e }
    } else {
        FloatVal { positive: y.positive, mantissa: (m2 - m1) as nat, exponent: e }
    }
}

/// The canonicalized sum.
pub open spec fn spec_add(x: FloatVal, y: FloatVal) -> FloatVal {
    spec_truncate(raw_add(x, y))
}

/// The intermediate values of `add_floats` stay inside their machine
/// widths.
pub open spec fn add_ok(x: FloatVal, y: FloatVal) -> bool {
    &&& exp_diff(x, y) <= 19
    &&& aligned_mantissa_x(x, y) + aligned_mantissa_y(x, y) <= u64::MAX
    &&& truncate_ok(raw_add(x, y))
}

/// Adds two values after aligning their scales and canonicalizes the
/// sum.
pub fn add_floats(x: Float, y: Float) -> (res: Float)
    requires
        add_ok(x@, y@),
    ensures
        res@ == spec_add(x@, y@),
{
    let mut mant_1: u64 = x.mantissa;
    let mut mant_2: u64 = y.mantissa;
    let exp_1: u8;

    let diff: u8 = if x.exponent > y.exponent {
        x.exponent - y.exponent
    } else {
        y.exponent - x.exponent
    };
    let pow: u64 = pow10_u64(diff);

    if x.exponent < y.exponent {
        mant_2 = mant_2 * pow;
        exp_1 = x.exponent;
    } else {
        mant_1 = mant_1 * pow;
        exp_1 = y.exponent;
    }

    let mut sum_mant: u64 = mant_1 + mant_2;
    let mut positive: bool = x.positive;
    if x.positive != y.positive {
        if mant_1 > mant_2 {
            sum_mant = mant_1 - mant_2;
        } else {
            sum_mant = mant_2 - mant_1;
            positive = y.positive;
        }
    }

    let res = Float { positive, mantissa: sum_mant, exponent: exp_1 };
    proof {
        assert(res@ == raw_add(x@, y@));
    }
    truncate(res)
}

/// The numerator mantissa after the pre-scaling step: a numerator
/// smaller than the denominator is scaled up by one decimal order so
/// that the leading quotient digit is non-zero-aligned.
pub open spec fn div_scaled_mantissa(x: FloatVal, y: FloatVal) -> nat {
    if x.mantissa < y.mantissa {
        x.mantissa * 10
    } else {
        x.mantissa
    }
}

/// The numerator exponent after the pre-scaling step, one lower when
/// the mantissa was scaled up.
pub open spec fn div_scaled_exponent(x: FloatVal, y: FloatVal) -> int {
    if x.mantissa < y.mantissa {
        x.exponent - 1
    } else {
        x.exponent
    }
}

/// The raw quotient before canonicalization: exactly `PRECISION`
/// quotient digits, that is the scaled numerator times
/// `10^(PRECISION - 1)` divided by the denominator, rounded toward
/// zero.
pub open spec fn raw_div(x: FloatVal, y: FloatVal) -> FloatVal {
    FloatVal {
        positive: x.positive == y.positive,
        mantissa: div_scaled_mantissa(x, y) * pow10((PRECISION - 1) as nat) / y.mantissa,
        exponent: BIAS + div_scaled_exponent(x, y) - y.exponent - PRECISION + 1,
    }
}

/// The canonicalized quotient.
pub open spec fn spec_div(x: FloatVal, y: FloatVal) -> FloatVal {
    spec_truncate(raw_div(x, y))
}

/// The divisor is non-zero and the intermediate values of `div_floats`
/// stay inside their machine widths.
pub open spec fn div_ok(x: FloatVal, y: FloatVal) -> bool {
    &&& y.mantissa >= 1
    &&& y.mantissa * 10 <= u64::MAX
    &&& div_scaled_exponent(x, y) >= 0
    &&& BIAS + div_scaled_exponent(x, y) <= u8::MAX
    &&& BIAS + div_scaled_exponent(x, y) - y.exponent >= PRECISION
    &&& raw_div(x, y).mantissa <= u64::MAX
    &&& truncate_ok(raw_div(x, y))
}

/// A multiple that stays below `n` divides into a quotient at least as
/// large: `a * b <= n` forces `a <= n / b`.
proof fn lemma_div_lower_bound(a: nat, b: nat, n: nat)
    requires
        b >= 1,
        a * b <= n,
    ensures
        a <= n / b,
{
    assert(b * a == a * b) by (nonlinear_arith);
    lemma_div_multiples_vanish(a as int, b as int);
    lemma_div_is_ordered((b * a) as int, n as int, b as int);
}

/// Divides `x` by `y` with decimal long division, producing exactly
/// `PRECISION` quotient digits one decimal place at a time, and
/// canonicalizes the quotient. Division by a zero mantissa is never
/// defined and is excluded by the precondition.
pub fn div_floats(x: Float, y: Float) -> (res: Float)
    requires
        div_ok(x@, y@),
    ensures
        res@ == spec_div(x@, y@),
{
    let mut mant1: u64 = x.mantissa;
    let mut exp1: u8 = x.exponent;
    let mant2: u64 = y.mantissa;
    let exp2: u8 = y.exponent;

    // A numerator below the denominator would lose its leading quotient
    // digit; scale it up by ten and step the exponent down once.
    if mant1 < mant2 {
        mant1 = mant1 * 10;
        exp1 = exp1 - 1;
    }

    let ghost m1: nat = mant1 as nat;
    let ghost m2: nat = mant2 as nat;
    let ghost q: nat = m1 * pow10((PRECISION - 1) as nat) / m2;
    proof {
        assert(m1 == div_scaled_mantissa(x@, y@));
        assert(m1 * pow10((PRECISION - 1) as nat) == pow10((PRECISION - 1) as nat) * m1)
            by (nonlinear_arith);
        assert(q == raw_div(x@, y@).mantissa);
        assert(m1 * pow10(PRECISION as nat) == pow10(PRECISION as nat) * m1) by (nonlinear_arith);
    }

    let mut new_mant: u64 = 0;
    let mut i: u8 = 0;
    while i < PRECISION
        invariant
            i <= PRECISION,
            mant2 as nat == m2,
            1 <= m2,
            m2 * 10 <= u64::MAX,
            q == m1 * pow10((PRECISION - 1) as nat) / m2,
            q <= u64::MAX,
            mant1 as nat * pow10((PRECISION - i) as nat) + 10 * m2 * (new_mant as nat) == pow10(
                PRECISION as nat,
            ) * m1,
            i >= 1 ==> (mant1 as nat) < 10 * m2,
            i >= 1 ==> mant1 as nat % 10 == 0,
            new_mant as nat <= q,
        decreases PRECISION - i,
    {
        let ghost mant1_pre: nat = mant1 as nat;
        let ghost acc_pre: nat = new_mant as nat;
        let ghost rhs: nat = pow10(PRECISION as nat) * m1;

        let div: u64 = mant1 / mant2;
        let exp: u8 = PRECISION - i - 1;
        let pow: u64 = pow10_u64(exp);

        proof {
            let d: nat = div as nat;
            let p: nat = pow as nat;
            let r: nat = mant1_pre % m2;
            lemma_fundamental_div_mod(mant1_pre as int, m2 as int);
            assert(r < m2) by (nonlinear_arith)
                requires
                    r == mant1_pre % m2,
                    m2 >= 1,
            ;
            assert(mant1_pre == m2 * d + r);
            // One long-division step keeps the accounting equation: the
            // remainder scaled by ten plus ten times the digits banked
            // so far still covers the whole scaled numerator.
            assert(pow10((PRECISION - i) as nat) == 10 * p);
            assert(((mant1_pre - m2 * d) * 10) * p + 10 * m2 * (acc_pre + d * p) == rhs)
                by (nonlinear_arith)
                requires
                    mant1_pre == m2 * d + r,
                    mant1_pre * (10 * p) + 10 * m2 * acc_pre == rhs,
            ;
            // The banked digits never exceed the final quotient, so the
            // accumulator additions stay inside a u64.
            assert(10 * m2 * (acc_pre + d * p) <= rhs);
            assert(m2 * (acc_pre + d * p) <= pow10((PRECISION - 1) as nat) * m1) by (nonlinear_arith)
                requires
                    10 * m2 * (acc_pre + d * p) <= rhs,
                    rhs == pow10(PRECISION as nat) * m1,
                    pow10(PRECISION as nat) == 10 * pow10((PRECISION - 1) as nat),
            ;
            lemma_div_lower_bound(acc_pre + d * p, m2, pow10((PRECISION - 1) as nat) * m1);
            assert(pow10((PRECISION - 1) as nat) * m1 == m1 * pow10((PRECISION - 1) as nat))
                by (nonlinear_arith);
            assert(acc_pre + d * p <= q);
            assert((10 * r) % 10 == 0) by (nonlinear_arith);
        }

        new_mant = new_mant + div * pow;
        mant1 = (mant1 - mant2 * div) * 10;
        i = i + 1;
    }

    proof {
        // The loop banked exactly the floor of the scaled quotient: the
        // final remainder, a tenth of the running numerator, is below
        // the denominator, which pins the accumulated digits down.
        let acc: nat = new_mant as nat;
        let r10: nat = mant1 as nat;
        let rf: nat = r10 / 10;
        lemma_fundamental_div_mod(r10 as int, 10);
        assert(r10 == 10 * rf);
        assert(pow10(0nat) == 1);
        assert(rf + m2 * acc == pow10((PRECISION - 1) as nat) * m1) by (nonlinear_arith)
            requires
                r10 * pow10(0nat) + 10 * m2 * acc == pow10(PRECISION as nat) * m1,
                pow10(0nat) == 1,
                pow10(PRECISION as nat) == 10 * pow10((PRECISION - 1) as nat),
                r10 == 10 * rf,
        ;
        assert(acc * m2 == m2 * acc) by (nonlinear_arith);
        lemma_fundamental_div_mod_converse(
            (pow10((PRECISION - 1) as nat) * m1) as int,
            m2 as int,
            acc as int,
            rf as int,
        );
        assert(acc == q);
    }

    let new_exp: u8 = BIAS + exp1 - exp2 - PRECISION + 1;
    let positive: bool = x.positive == y.positive;

    let res = Float { positive, mantissa: new_mant, exponent: new_exp };
    proof {
        assert(res@ == raw_div(x@, y@));
    }
    truncate(res)
}

/// The canonicalized difference: addition of the negated subtrahend.
pub open spec fn spec_sub(x: FloatVal, y: FloatVal) -> FloatVal {
    spec_add(x, spec_negate(y))
}

/// The intermediate values of `sub_floats` stay inside their machine
/// widths.
pub open spec fn sub_ok(x: FloatVal, y: FloatVal) -> bool {
    add_ok(x, spec_negate(y))
}

/// Subtracts `y` from `x` by flipping `y`'s sign and adding.
pub fn sub_floats(x: Float, y: Float) -> (res: Float)
    requires
        sub_ok(x@, y@),
    ensures
        res@ == spec_sub(x@, y@),
{
    let z = Float { positive: !y.positive, mantissa: y.mantissa, exponent: y.exponent };
    add_floats(x, z)
}

} // verus!
