use zkfloat::{Float, relu, truncate, mul_floats, div_floats, add_floats, sub_floats};

#[test]
fn relu_test() {
    let float = Float { positive: true, mantissa: 12345, exponent: 98 };
    let res = relu(float);

    assert_eq!(res, Float { positive: true, mantissa: 12345, exponent: 98 });
}

#[test]
fn truncate_test() {
    let float = Float { positive: true, mantissa: 12345678, exponent: 98 };
    let res = truncate(float);

    assert_eq!(res, Float { positive: true, mantissa: 1234567, exponent: 99 });
}

#[test]
fn mul_test() {
    let float1 = Float { positive: true, mantissa: 123456, exponent: 98 };
    let float2 = Float { positive: true, mantissa: 123456, exponent: 98 };
    let res: Float = mul_floats(float1, float2);

    assert_eq!(res, Float { positive: true, mantissa: 1524138, exponent: 100 });
}

#[test]
fn div_test() {
    let float1 = Float { positive: true, mantissa: 123456, exponent: 98 };
    let float2 = Float { positive: true, mantissa: 123456, exponent: 98 };
    let res: Float = div_floats(float1, float2);

    assert_eq!(res, Float { positive: true, mantissa: 1000000, exponent: 94 });
}

#[test]
fn add_test() {
    let float1 = Float { positive: true, mantissa: 123456, exponent: 98 };
    let float2 = Float { positive: true, mantissa: 123456, exponent: 98 };
    let res: Float = add_floats(float1, float2);

    assert_eq!(res, Float { positive: true, mantissa: 246912, exponent: 98 });
}

#[test]
fn sub_test() {
    let float1 = Float { positive: true, mantissa: 469908, exponent: 98 };
    let float2 = Float { positive: true, mantissa: 134566, exponent: 96 };
    let res: Float = sub_floats(float1, float2);

    assert_eq!(res, Float { positive: true, mantissa: 4685623, exponent: 97 });
}

#[test]
fn relu_negative_clamps_to_canonical_zero() {
    let float = Float { positive: false, mantissa: 12345, exponent: 98 };
    let res = relu(float);

    assert_eq!(res, Float { positive: true, mantissa: 0, exponent: 100 });
}

#[test]
fn relu_positive_passes_through_verbatim() {
    // relu does not re-canonicalize: an over-long mantissa and an odd
    // exponent survive the non-negative branch untouched.
    let float = Float { positive: true, mantissa: 99999999999, exponent: 3 };
    let res = relu(float);

    assert_eq!(res, Float { positive: true, mantissa: 99999999999, exponent: 3 });
}

#[test]
fn truncate_zero_forgets_sign_and_exponent() {
    let float = Float { positive: false, mantissa: 0, exponent: 37 };
    let res = truncate(float);

    assert_eq!(res, Float { positive: true, mantissa: 0, exponent: 100 });
}

#[test]
fn truncate_short_mantissa_passes_through() {
    let float = Float { positive: false, mantissa: 123, exponent: 5 };
    let res = truncate(float);

    assert_eq!(res, Float { positive: false, mantissa: 123, exponent: 5 });
}

#[test]
fn truncate_is_idempotent() {
    let float = Float { positive: true, mantissa: 98765432101, exponent: 90 };
    let once = truncate(float);
    let twice = truncate(once.clone());

    assert_eq!(once, Float { positive: true, mantissa: 9876543, exponent: 94 });
    assert_eq!(twice, once);
}

#[test]
fn truncate_largest_mantissa_keeps_seven_digits() {
    let float = Float { positive: true, mantissa: 18446744073709551615, exponent: 98 };
    let res = truncate(float);

    assert_eq!(res, Float { positive: true, mantissa: 1844674, exponent: 111 });
}

#[test]
fn mul_exact_product_is_not_truncated() {
    let float1 = Float { positive: true, mantissa: 123, exponent: 100 };
    let float2 = Float { positive: false, mantissa: 45, exponent: 100 };
    let res = mul_floats(float1, float2);

    assert_eq!(res, Float { positive: false, mantissa: 5535, exponent: 100 });
}

#[test]
fn mul_by_zero_gives_canonical_zero() {
    let float1 = Float { positive: true, mantissa: 0, exponent: 100 };
    let float2 = Float { positive: false, mantissa: 5, exponent: 102 };
    let res = mul_floats(float1, float2);

    assert_eq!(res, Float { positive: true, mantissa: 0, exponent: 100 });
}

#[test]
fn div_by_self_approximates_one() {
    let float1 = Float { positive: false, mantissa: 333, exponent: 57 };
    let float2 = Float { positive: false, mantissa: 333, exponent: 57 };
    let res = div_floats(float1, float2);

    assert_eq!(res, Float { positive: true, mantissa: 1000000, exponent: 94 });
}

#[test]
fn div_scales_smaller_numerator() {
    let float1 = Float { positive: true, mantissa: 1, exponent: 100 };
    let float2 = Float { positive: true, mantissa: 2, exponent: 100 };
    let res = div_floats(float1, float2);

    assert_eq!(res, Float { positive: true, mantissa: 5000000, exponent: 93 });
}

#[test]
fn div_mixed_signs_gives_negative() {
    let float1 = Float { positive: false, mantissa: 123456, exponent: 98 };
    let float2 = Float { positive: true, mantissa: 123456, exponent: 98 };
    let res = div_floats(float1, float2);

    assert_eq!(res, Float { positive: false, mantissa: 1000000, exponent: 94 });
}

#[test]
fn add_is_commutative() {
    let a = Float { positive: true, mantissa: 5, exponent: 100 };
    let b = Float { positive: false, mantissa: 123, exponent: 98 };
    let left = add_floats(a.clone(), b.clone());
    let right = add_floats(b, a);

    assert_eq!(left, Float { positive: true, mantissa: 377, exponent: 98 });
    assert_eq!(right, left);
}

#[test]
fn add_opposite_equal_values_cancel_to_zero() {
    let a = Float { positive: true, mantissa: 777, exponent: 99 };
    let b = Float { positive: false, mantissa: 777, exponent: 99 };
    let res = add_floats(a, b);

    assert_eq!(res, Float { positive: true, mantissa: 0, exponent: 100 });
}

#[test]
fn add_truncates_long_sum() {
    let a = Float { positive: true, mantissa: 9999999, exponent: 100 };
    let b = Float { positive: true, mantissa: 9999999, exponent: 100 };
    let res = add_floats(a, b);

    assert_eq!(res, Float { positive: true, mantissa: 1999999, exponent: 101 });
}

#[test]
fn sub_is_addition_of_negation() {
    let x = Float { positive: true, mantissa: 469908, exponent: 98 };
    let y = Float { positive: true, mantissa: 134566, exponent: 96 };
    let negated = Float { positive: false, mantissa: 134566, exponent: 96 };
    let via_sub = sub_floats(x.clone(), y);
    let via_add = add_floats(x, negated);

    assert_eq!(via_sub, via_add);
}

#[test]
fn sub_larger_from_smaller_is_negative() {
    let x = Float { positive: true, mantissa: 100, exponent: 100 };
    let y = Float { positive: true, mantissa: 200, exponent: 100 };
    let res = sub_floats(x, y);

    assert_eq!(res, Float { positive: false, mantissa: 100, exponent: 100 });
}
