use spirix::{Circle, Scalar};

fn n(v: i64) -> Scalar {
    Scalar::from_int(v)
}

fn q(a: i64, b: i64) -> Scalar {
    n(a).scalar_divide_scalar(&n(b))
}

fn c(re: Scalar, im: Scalar) -> Circle {
    Circle::from_ri(&re, &im)
}

fn parts(z: &Circle) -> (Scalar, Scalar) {
    (z.r(), z.i())
}

#[test]
fn from_parts_and_back() {
    let z = c(n(3), q(9, 2));
    assert!(z.is_normal());
    assert_eq!(parts(&z), (n(3), q(9, 2)));
    let w = c(n(-7), Scalar::zero());
    assert_eq!(parts(&w), (n(-7), Scalar::zero()));
    assert!(c(Scalar::zero(), Scalar::zero()).is_zero());
}

#[test]
fn add_circles() {
    let a = c(n(3), q(9, 2));
    let b = c(n(1), n(2));
    assert_eq!(parts(&a.circle_add_circle(&b)), (n(4), q(13, 2)));
    let small = c(q(1, 8), q(1, 4));
    let large = c(n(128), n(64));
    assert_eq!(parts(&small.circle_add_circle(&large)), (q(1025, 8), q(257, 4)));
    let pos = c(q(5, 2), q(15, 4));
    let neg = c(q(-5, 2), q(-15, 4));
    assert!(pos.circle_add_circle(&neg).is_zero());
    assert_eq!(a.circle_add_circle(&Circle::zero()), a);
    assert!(a.circle_add_circle(&Circle::infinity()).is_infinite());
}

#[test]
fn add_scalar_to_circle() {
    let a = c(n(3), n(4));
    assert_eq!(parts(&a.circle_add_scalar(&q(21, 4))), (q(33, 4), n(4)));
    assert_eq!(parts(&n(5).scalar_add_circle(&a)), (n(8), n(4)));
    assert_eq!(a.circle_add_scalar(&Scalar::zero()), a);
    assert_eq!(parts(&Circle::zero().circle_add_scalar(&q(21, 4))), (q(21, 4), Scalar::zero()));
    assert!(a.circle_add_scalar(&Scalar::infinity()).is_undefined());
    let cancel = c(q(-5, 2), q(7, 4));
    assert_eq!(parts(&cancel.circle_add_scalar(&q(5, 2))), (Scalar::zero(), q(7, 4)));
}

#[test]
fn multiply_circles() {
    let a = c(n(1), n(2));
    let b = c(n(3), n(4));
    assert_eq!(parts(&a.circle_multiply_circle(&b)), (n(-5), n(10)));
    assert_eq!(parts(&a.square()), (n(-3), n(4)));
    assert_eq!(parts(&a.circle_multiply_scalar(&n(3))), (n(3), n(6)));
    assert_eq!(parts(&n(-2).scalar_multiply_circle(&b)), (n(-6), n(-8)));
    assert!(a.circle_multiply_circle(&Circle::zero()).is_zero());
}

#[test]
fn divide_circles() {
    let p = c(n(-5), n(10));
    let b = c(n(3), n(4));
    assert_eq!(parts(&p.circle_divide_circle(&b)), (n(1), n(2)));
    assert_eq!(parts(&c(n(6), n(8)).circle_divide_scalar(&n(2))), (n(3), n(4)));
    // 25 / (3 + 4i) = 3 - 4i
    assert_eq!(parts(&n(25).scalar_divide_circle(&b)), (n(3), n(-4)));
    assert_eq!(parts(&c(Scalar::zero(), n(1)).reciprocal()), (Scalar::zero(), n(-1)));
    assert!(b.circle_divide_circle(&Circle::zero()).is_infinite());
}

#[test]
fn magnitude_and_direction() {
    let b = c(n(3), n(4));
    assert_eq!(b.magnitude_squared(), n(25));
    assert_eq!(b.magnitude(), n(5));
    let u = c(n(0), n(-7)).sign();
    assert_eq!(parts(&u), (Scalar::zero(), n(-1)));
    assert!(Circle::zero().sign().is_undefined());
}

#[test]
fn conjugate_and_negate() {
    let a = c(n(1), n(2));
    assert_eq!(parts(&a.conjugate()), (n(1), n(-2)));
    let mut m = a;
    m.conjugate_mut();
    assert_eq!(m, a.conjugate());
    let mut z = a;
    z.circle_negate();
    assert_eq!(parts(&z), (n(-1), n(-2)));
    z.circle_negate();
    assert_eq!(z, a);
}

#[test]
fn square_root() {
    let r = c(n(-4), Scalar::zero()).sqrt();
    assert_eq!(parts(&r), (Scalar::zero(), n(2)));
    let s = c(n(3), n(4)).sqrt();
    assert_eq!(parts(&s), (n(2), n(1)));
}

#[test]
fn shifts_and_not() {
    let a = c(n(3), n(-1));
    assert_eq!(parts(&a.circle_shl_integer(&3)), (n(24), n(-8)));
    assert_eq!(parts(&a.circle_shl_integer(&3).circle_shr_integer(&3)), (n(3), n(-1)));
    assert_eq!(a.not_circle().not_circle(), a);
}

#[test]
fn bitwise_circles() {
    let a = c(n(12), n(6));
    let b = c(n(10), n(3));
    assert_eq!(parts(&a.aligned_and(&b)), (n(8), n(2)));
    assert_eq!(parts(&a.aligned_or(&b)), (n(14), n(7)));
    assert_eq!(parts(&a.aligned_xor(&b)), (n(6), n(5)));
}

#[test]
fn modulus_of_circles() {
    let a = c(n(7), n(-7));
    assert_eq!(parts(&a.circle_modulo_scalar(&n(3))), (n(1), n(2)));
    assert_eq!(parts(&a.circle_modulo_circle(&c(n(3), n(3)))), (n(1), n(2)));
    assert_eq!(c(n(3), n(4)).circle_modulus_scalar(&n(3)), n(2));
    assert_eq!(parts(&n(7).scalar_modulo_circle(&c(n(3), n(5)))), (n(1), n(2)));
    assert!(a.circle_modulus_circle(&Circle::zero()).is_zero());
}

#[test]
fn circle_classification() {
    let a = c(n(1), n(2));
    assert!(a.is_normal() && a.is_finite() && !a.is_zero());
    assert!(Circle::zero().is_zero() && Circle::zero().is_n0());
    assert!(Circle::infinity().is_infinite() && Circle::infinity().is_transfinite());
    let huge = a.circle_multiply_scalar(&Scalar::max_value()).circle_multiply_scalar(&n(8));
    assert!(huge.exploded() && huge.is_n1());
    let tiny = a.circle_multiply_scalar(&Scalar::min_pos()).circle_multiply_scalar(&q(1, 8));
    assert!(tiny.vanished() && tiny.is_n2() && tiny.is_negligible());
    assert!(a.equals(&a));
    assert!(!a.equals(&a.conjugate()));
}
