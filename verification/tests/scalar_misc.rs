use spirix::bitwise::BitwiseOp;
use spirix::Scalar;
use std::cmp::Ordering;

fn n(v: i64) -> Scalar {
    Scalar::from_int(v)
}

fn q(a: i64, b: i64) -> Scalar {
    n(a).scalar_divide_scalar(&n(b))
}

#[test]
fn named_values() {
    assert_eq!(Scalar::one(), n(1));
    assert_eq!(Scalar::neg_one(), n(-1));
    assert_eq!(Scalar::two(), n(2));
    assert_eq!(Scalar::half(), q(1, 2));
    assert!(Scalar::zero().is_zero());
    assert!(Scalar::infinity().is_infinite());
    assert!(Scalar::max_value().is_normal());
    assert!(Scalar::max_value().is_positive());
    assert!(Scalar::min_value().is_negative());
    assert!(Scalar::min_pos().is_positive());
    assert!(Scalar::max_neg().is_negative());
    assert!(Scalar::effectively_pos_one().compare(&n(1)) == Some(Ordering::Less));
}

#[test]
fn classification() {
    let huge = Scalar::max_value().scalar_multiply_scalar(&n(4));
    let tiny = Scalar::min_pos().scalar_divide_scalar(&n(4));
    assert!(huge.exploded() && huge.is_exploded() && huge.is_transfinite());
    assert!(!huge.is_finite());
    assert!(tiny.vanished() && tiny.is_vanished() && tiny.is_negligible());
    assert!(Scalar::zero().is_negligible() && Scalar::zero().is_finite());
    assert!(Scalar::infinity().is_transfinite() && Scalar::infinity().is_uniform());
    assert!(n(3).is_normal() && n(3).is_finite() && n(3).is_positive());
    assert!(!Scalar::zero().is_positive() && !Scalar::zero().is_negative());
    let undefined = Scalar::zero().scalar_divide_scalar(&Scalar::zero());
    assert!(undefined.is_undefined());
    assert!(!undefined.is_normal());
}

#[test]
fn rounding() {
    assert_eq!(q(5, 2).floor(), n(2));
    assert_eq!(q(-5, 2).floor(), n(-3));
    assert_eq!(q(5, 2).ceil(), n(3));
    assert_eq!(q(-5, 2).ceil(), n(-2));
    assert_eq!(q(5, 2).round(), n(2));
    assert_eq!(q(7, 2).round(), n(4));
    assert_eq!(q(11, 4).round(), n(3));
    assert_eq!(q(11, 4).frac(), q(3, 4));
    assert_eq!(n(7).floor(), n(7));
    assert!(q(1, 4).floor().is_zero());
    assert_eq!(q(-1, 4).floor(), n(-1));
}

#[test]
fn integer_tests() {
    assert!(n(12).is_integer());
    assert!(!q(5, 2).is_integer());
    assert!(Scalar::zero().is_integer());
    assert!(n(12).is_contiguous());
    assert!(!q(5, 2).is_contiguous());
}

#[test]
fn ordering() {
    assert!(n(1).compare(&n(2)) == Some(Ordering::Less));
    assert!(n(2).compare(&n(1)) == Some(Ordering::Greater));
    assert!(n(-2).compare(&n(-2)) == Some(Ordering::Equal));
    assert!(Scalar::zero().compare(&n(-1)) == Some(Ordering::Greater));
    assert!(Scalar::infinity().compare(&n(1)).is_none());
    assert_eq!(n(1).max(n(2)), n(2));
    assert_eq!(n(1).min(n(2)), n(1));
    assert_eq!(n(5).clamp(n(0), n(3)), n(3));
    assert_eq!(n(-5).clamp(n(0), n(3)), n(0));
    assert_eq!(n(2).clamp(n(0), n(3)), n(2));
    assert!(n(2).clamp(n(3), n(0)).is_undefined());
    assert!(n(2).greater_than(&n(1)));
}

#[test]
fn bitwise() {
    assert_eq!(n(12).aligned_and(&n(10)), n(8));
    assert_eq!(n(12).aligned_or(&n(10)), n(14));
    assert_eq!(n(12).aligned_xor(&n(10)), n(6));
    assert_eq!(n(12).bitwise_normal(&n(10), BitwiseOp::And), n(8));
    assert!(n(12).aligned_xor(&n(12)).is_zero());
    assert_eq!(n(5).aligned_and(&Scalar::infinity()), n(5));
    assert!(n(5).aligned_and(&Scalar::zero()).is_zero());
    assert_eq!(n(5).aligned_or(&Scalar::zero()), n(5));
    // NOT flips every fraction bit
    assert_eq!(n(5).not_scalar().not_scalar(), n(5));
}

#[test]
fn shifts() {
    assert_eq!(n(3).scalar_shl_integer(&2), n(12));
    assert_eq!(n(12).scalar_shr_integer(&2), n(3));
    assert!(Scalar::max_value().scalar_shl_integer(&1).exploded());
    assert!(Scalar::min_pos().scalar_shr_integer(&1).vanished());
}

#[test]
fn square_roots() {
    assert_eq!(n(16).sqrt(), n(4));
    assert_eq!(q(1, 4).sqrt(), q(1, 2));
    assert_eq!(n(9).sqrt_newton(), n(3));
    assert!(n(-4).sqrt().is_undefined());
    assert!(Scalar::zero().sqrt().is_zero());
    let r = n(2).sqrt();
    assert!(r.square().compare(&n(2)) == Some(Ordering::Less));
    assert_eq!(r, n(2).sqrt_newton());
}

#[test]
fn logarithms() {
    assert_eq!(n(8).lb(), n(3));
    assert!(n(1).lb().is_zero());
    assert_eq!(n(2).lb(), n(1));
    assert_eq!(q(1, 4).lb(), n(-2));
    assert!(n(-1).lb().is_undefined());
    assert!(Scalar::zero().lb().is_infinite());
    assert!(n(1).ln().is_zero());
    assert_eq!(n(8).scalar_logarithm_scalar(&n(2)), n(3));
    assert!(n(8).scalar_logarithm_scalar(&n(1)).is_undefined());
}

#[test]
fn exponentials() {
    assert_eq!(Scalar::zero().exp(), n(1));
    assert_eq!(Scalar::zero().powb(), n(1));
    let e = n(1).exp();
    // e^1 lies between 2.718 and 2.719
    assert!(e.compare(&q(2718, 1000)) == Some(Ordering::Greater));
    assert!(e.compare(&q(2719, 1000)) == Some(Ordering::Less));
    let huge = Scalar::max_value().scalar_multiply_scalar(&n(2));
    assert!(huge.exp().is_undefined());
    let mut neg_huge = huge;
    neg_huge.scalar_negate();
    assert!(neg_huge.exp().is_zero());
}

#[test]
fn powers() {
    assert_eq!(n(2).scalar_power_scalar(&n(10)), n(1024));
    assert_eq!(n(-3).scalar_power_scalar(&n(3)), n(-27));
    assert_eq!(n(2).scalar_power_scalar(&n(-1)), q(1, 2));
    assert_eq!(n(7).scalar_power_scalar(&Scalar::zero()), n(1));
    assert!(n(-2).scalar_power_scalar(&Scalar::half()).is_undefined());
    assert!(Scalar::zero().scalar_power_scalar(&n(-1)).is_infinite());
    assert_eq!(n(3).integer_power(&n(4)), n(81));
}

#[test]
fn primality() {
    assert!(n(2).is_prime());
    assert!(n(3).is_prime());
    assert!(n(17).is_prime());
    assert!(!n(4).is_prime());
    assert!(!n(68).is_prime());
    assert!(!n(1).is_prime());
    assert!(!Scalar::zero().is_prime());
    assert!(!n(-7).is_prime());
    assert!(!q(5, 2).is_prime());
    assert!(n(4_294_967_291).is_prime());
}
