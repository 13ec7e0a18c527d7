//! Laws of the arithmetic core, stated over the mathematical model.

use vstd::prelude::*;

use vstd::arithmetic::div_mod::lemma_div_multiples_vanish;
use crate::digits::{
    pow10,
    digit_count,
    lemma_digit_count_after_shift,
    lemma_digit_count_pow10,
    lemma_pow10_pos,
};
use crate::{
    FloatVal,
    spec_truncate,
    canonical_zero,
    raw_mul,
    spec_mul,
    spec_add,
    spec_sub,
    spec_div,
    spec_negate,
    spec_relu,
    exp_diff,
    aligned_mantissa_x,
    aligned_mantissa_y,
    aligned_exponent,
    PRECISION,
    BIAS,
};

verus! {

/// Canonical-zero uniqueness: whenever truncation yields mantissa zero,
/// the whole result is the canonical zero sentinel, whatever sign and
/// exponent the input carried.
pub proof fn lemma_truncate_zero_unique(f: FloatVal)
    requires
        spec_truncate(f).mantissa == 0,
    ensures
        spec_truncate(f) == canonical_zero(),
{
}

/// Digit-count bound: a truncated mantissa never has more than
/// `PRECISION` decimal digits.
pub proof fn lemma_truncate_digit_bound(f: FloatVal)
    ensures
        digit_count(spec_truncate(f).mantissa) <= PRECISION,
{
    assert(digit_count(0nat) == 1);
    let d = digit_count(f.mantissa);
    if d > PRECISION {
        lemma_digit_count_after_shift(f.mantissa, PRECISION as nat);
    }
}

/// Truncation idempotence: a value already canonicalized passes through
/// a second truncation unchanged.
pub proof fn lemma_truncate_idempotent(f: FloatVal)
    ensures
        spec_truncate(spec_truncate(f)) == spec_truncate(f),
{
    lemma_truncate_digit_bound(f);
    assert(digit_count(0nat) == 1);
}

/// Multiplicative identity under truncation: when the raw product
/// already fits in `PRECISION` digits and is non-zero, multiplication
/// reproduces it exactly, with no truncation applied.
pub proof fn lemma_mul_exact(x: FloatVal, y: FloatVal)
    requires
        x.mantissa * y.mantissa >= 1,
        digit_count(x.mantissa * y.mantissa) <= PRECISION,
    ensures
        spec_mul(x, y) == raw_mul(x, y),
        spec_mul(x, y) == (FloatVal {
            positive: x.positive == y.positive,
            mantissa: x.mantissa * y.mantissa,
            exponent: x.exponent + y.exponent - BIAS,
        }),
{
}

/// Divide-by-self approximates one: for a non-zero value the quotient
/// mantissa is exactly `10^(PRECISION - 1)` at an exponent whose true
/// value is zero.
pub proof fn lemma_div_self(f: FloatVal)
    requires
        f.mantissa >= 1,
    ensures
        spec_div(f, f) == (FloatVal {
            positive: true,
            mantissa: pow10((PRECISION - 1) as nat),
            exponent: BIAS - PRECISION + 1,
        }),
{
    lemma_pow10_pos((PRECISION - 1) as nat);
    lemma_div_multiples_vanish(pow10((PRECISION - 1) as nat) as int, f.mantissa as int);
    lemma_digit_count_pow10((PRECISION - 1) as nat);
}

/// Additive commutativity: the two operands of addition can be swapped
/// without changing the canonicalized result.
pub proof fn lemma_add_commutes(x: FloatVal, y: FloatVal)
    ensures
        spec_add(x, y) == spec_add(y, x),
{
    assert(exp_diff(x, y) == exp_diff(y, x));
    if x.exponent == y.exponent {
        assert(pow10(0nat) == 1);
        assert(x.mantissa * pow10(0nat) == x.mantissa) by (nonlinear_arith)
            requires
                pow10(0nat) == 1,
        ;
        assert(y.mantissa * pow10(0nat) == y.mantissa) by (nonlinear_arith)
            requires
                pow10(0nat) == 1,
        ;
        assert(aligned_mantissa_x(x, y) == aligned_mantissa_y(y, x));
        assert(aligned_mantissa_y(x, y) == aligned_mantissa_x(y, x));
    } else {
        assert(aligned_mantissa_x(x, y) == aligned_mantissa_y(y, x));
        assert(aligned_mantissa_y(x, y) == aligned_mantissa_x(y, x));
    }
    assert(aligned_exponent(x, y) == aligned_exponent(y, x));
    assert(digit_count(0nat) == 1);
}

/// Subtraction consistency: subtracting is adding the negation of the
/// subtrahend.
pub proof fn lemma_sub_is_add_of_negation(x: FloatVal, y: FloatVal)
    ensures
        spec_sub(x, y) == spec_add(x, spec_negate(y)),
{
}

/// Relu sign enforcement: a negative value is clamped to the canonical
/// zero, and a non-negative value passes through exactly, including any
/// non-canonical exponent it may carry.
pub proof fn lemma_relu_clamps_sign(f: FloatVal)
    ensures
        f.positive ==> spec_relu(f) == f,
        !f.positive ==> spec_relu(f) == canonical_zero(),
{
}

} // verus!
