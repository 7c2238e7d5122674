use spirix::Scalar;

fn n(v: i64) -> Scalar {
    Scalar::from_int(v)
}

fn q(a: i64, b: i64) -> Scalar {
    n(a).scalar_divide_scalar(&n(b))
}

#[test]
fn add_exact_sums() {
    // 42 + 6.75 = 48.75
    assert_eq!(n(42).scalar_add_scalar(&q(27, 4)), q(195, 4));
    // 0.25 + 256 = 256.25
    assert_eq!(q(1, 4).scalar_add_scalar(&n(256)), q(1025, 4));
}

#[test]
fn add_cancels_to_zero() {
    let pos = q(9, 8);
    let neg = q(-9, 8);
    assert!(pos.scalar_add_scalar(&neg).is_zero());
    assert!(neg.scalar_add_scalar(&pos).is_zero());
}

#[test]
fn add_zero_is_identity() {
    let a = n(42);
    assert_eq!(a.scalar_add_scalar(&Scalar::zero()), a);
    assert_eq!(Scalar::zero().scalar_add_scalar(&a), a);
}

#[test]
fn add_vanished_is_negligible() {
    let tiny = Scalar::min_pos().scalar_divide_scalar(&n(3));
    assert!(tiny.vanished());
    let a = n(42);
    assert_eq!(a.scalar_add_scalar(&tiny), a);
}

#[test]
fn add_transfinite_is_undefined() {
    let a = n(42);
    let infinity = Scalar::one().scalar_divide_scalar(&Scalar::zero());
    assert!(infinity.is_infinite());
    assert!(infinity.scalar_add_scalar(&a).is_undefined());
    assert!(a.scalar_add_scalar(&infinity).is_undefined());
    assert!(infinity.scalar_add_scalar(&infinity).is_undefined());
    let huge = Scalar::max_value().scalar_multiply_scalar(&n(3));
    assert!(huge.exploded());
    assert!(a.scalar_add_scalar(&huge).is_undefined());
    assert!(huge.scalar_add_scalar(&huge).is_undefined());
    // the two orders record different causes
    assert!(huge.scalar_add_scalar(&a) != a.scalar_add_scalar(&huge));
}

#[test]
fn add_rounds_toward_negative_infinity() {
    // (2^31 - 1) + 1.5 = 2^31 + 0.5 needs 33 bits: rounds down to 2^31.
    assert_eq!(n(0x7FFF_FFFF).scalar_add_scalar(&q(3, 2)), n(0x8000_0000));
    // -(2^31 - 1) - 1.5 = -2^31 - 0.5 rounds down to -2^31 - 1.
    assert_eq!(n(-0x7FFF_FFFF).scalar_add_scalar(&q(-3, 2)), n(-0x8000_0001));
}

#[test]
fn add_drops_far_smaller_operand() {
    // 31 or more binades apart, the smaller operand is dropped.
    let big = n(0x8000_0001);
    assert_eq!(big.scalar_add_scalar(&Scalar::half()), big);
    let neg = n(-0x8000_0001);
    assert_eq!(neg.scalar_add_scalar(&q(-1, 2)), neg);
}

#[test]
fn multiply_exact_products() {
    assert_eq!(n(6).scalar_multiply_scalar(&n(7)), n(42));
    assert_eq!(n(-3).scalar_multiply_scalar(&Scalar::half()), q(-3, 2));
    assert_eq!(n(5).square(), n(25));
    assert!(n(5).scalar_multiply_scalar(&Scalar::zero()).is_zero());
}

#[test]
fn multiply_escapes() {
    let huge = Scalar::max_value().scalar_multiply_scalar(&n(2));
    assert!(huge.exploded());
    let tiny = Scalar::min_pos().scalar_multiply_scalar(&Scalar::half());
    assert!(tiny.vanished());
    assert!(huge.scalar_multiply_scalar(&tiny).is_undefined());
    assert!(huge.scalar_multiply_scalar(&n(-2)).exploded());
    assert!(huge.scalar_multiply_scalar(&n(-2)).is_negative());
    assert!(Scalar::infinity().scalar_multiply_scalar(&Scalar::zero()).is_undefined());
}

#[test]
fn divide_values() {
    assert_eq!(n(10).scalar_divide_scalar(&n(4)), q(5, 2));
    assert_eq!(n(-1).scalar_divide_scalar(&n(8)), q(-1, 8));
    assert!(n(1).scalar_divide_scalar(&Scalar::zero()).is_infinite());
    assert!(Scalar::zero().scalar_divide_scalar(&Scalar::zero()).is_undefined());
    assert!(Scalar::zero().scalar_divide_scalar(&n(3)).is_zero());
    assert_eq!(n(4).reciprocal(), q(1, 4));
}

#[test]
fn divide_rounds_down() {
    // 1/3 is below one third, and one more unit in the last place is above.
    let third = n(1).scalar_divide_scalar(&n(3));
    let three_thirds = third.scalar_multiply_scalar(&n(3));
    assert!(three_thirds.compare(&n(1)) == Some(std::cmp::Ordering::Less));
    // -1/3 rounds away from zero (toward negative infinity).
    let neg_third = n(-1).scalar_divide_scalar(&n(3));
    let back = neg_third.scalar_multiply_scalar(&n(3));
    assert!(back.compare(&n(-1)) == Some(std::cmp::Ordering::Less));
}

#[test]
fn modulus_takes_sign_of_period() {
    assert_eq!(n(7).scalar_modulus_scalar(&n(3)), n(1));
    assert_eq!(n(-7).scalar_modulus_scalar(&n(3)), n(2));
    assert_eq!(n(7).scalar_modulus_scalar(&n(-3)), n(-2));
    assert_eq!(n(-7).scalar_modulus_scalar(&n(-3)), n(-1));
    assert!(n(6).scalar_modulus_scalar(&n(3)).is_zero());
    // |a| < |b| with differing signs gives a + b
    assert_eq!(n(-1).scalar_modulus_scalar(&n(5)), n(4));
    assert_eq!(q(5, 2).scalar_modulus_scalar(&n(1)), q(1, 2));
}

#[test]
fn modulus_special_cases() {
    let huge = Scalar::max_value().scalar_multiply_scalar(&n(2));
    let pi_ish = q(355, 113);
    assert_eq!(pi_ish.scalar_modulus_scalar(&huge), pi_ish);
    let mut neg_huge = huge;
    neg_huge.scalar_negate();
    assert!(pi_ish.scalar_modulus_scalar(&neg_huge).is_undefined());
    let vanished = Scalar::min_pos().scalar_divide_scalar(&n(19));
    assert!(n(42).scalar_modulus_scalar(&vanished).is_undefined());
    assert!(Scalar::zero().scalar_modulus_scalar(&pi_ish).is_zero());
    assert!(pi_ish.scalar_modulus_scalar(&Scalar::zero()).is_zero());
}

#[test]
fn negate_and_magnitude() {
    let mut x = n(5);
    x.scalar_negate();
    assert_eq!(x, n(-5));
    x.scalar_negate();
    assert_eq!(x, n(5));
    let mut y = n(-12);
    y.scalar_negate_unified();
    assert_eq!(y, n(12));
    assert_eq!(n(-5).magnitude(), n(5));
    assert_eq!(n(-5).sign(), n(-1));
    assert_eq!(n(7).sign(), n(1));
    // a power of two negates into the next binade and back
    let mut p = n(4);
    p.scalar_negate();
    assert_eq!(p, n(-4));
    p.scalar_negate();
    assert_eq!(p, n(4));
}
