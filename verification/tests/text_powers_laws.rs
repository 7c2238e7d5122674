use spirix::{Circle, Scalar};
use std::cmp::Ordering;

fn n(v: i64) -> Scalar {
    Scalar::from_int(v)
}

fn q(a: i64, b: i64) -> Scalar {
    n(a).scalar_divide_scalar(&n(b))
}

fn c(re: Scalar, im: Scalar) -> Circle {
    Circle::from_ri(&re, &im)
}

fn text(v: Vec<char>) -> String {
    v.into_iter().collect()
}

#[test]
fn debug_plain_of_one() {
    let one = Scalar::one();
    assert_eq!(
        text(one.format_debug_plain()),
        "1 0000000 00000000   00000000 00000000 *2^ 1 0000000 "
    );
    let zero = Scalar::zero();
    assert_eq!(
        text(zero.format_debug_plain()),
        "0 0000000 00000000   00000000 00000000 *2^ 0 0000000 "
    );
}

#[test]
fn debug_fancy_of_one() {
    let s = text(Scalar::one().format_debug_fancy());
    assert!(s.starts_with("\x1B[38;2;255;128;128m"));
    assert!(s.ends_with("\x1B[0m"));
    assert!(s.contains("*2^ "));
}

#[test]
fn debug_plain_of_circle_one() {
    let one = Circle::one();
    assert_eq!(
        text(one.format_debug_plain()),
        "0 1000000 00000000   00000000 00000000 | 0 0000000 00000000   00000000 00000000  *2^ 1 0000000 "
    );
}

#[test]
fn circle_integer_powers() {
    let z = c(n(1), n(1));
    let sq = z.integer_power(&n(2));
    assert_eq!((sq.r(), sq.i()), (Scalar::zero(), n(2)));
    let cube = z.integer_power(&n(3));
    assert_eq!((cube.r(), cube.i()), (n(-2), n(2)));
    assert_eq!(z.integer_power(&Scalar::zero()), Circle::one());
    let inv = c(n(0), n(2)).integer_power(&n(-1));
    assert_eq!((inv.r(), inv.i()), (Scalar::zero(), q(-1, 2)));
    let one = Circle::one();
    assert_eq!((one.r(), one.i()), (n(1), Scalar::zero()));
}

#[test]
fn scalar_plus_zero_circle_keeps_vanished() {
    let tiny = Scalar::min_pos().scalar_multiply_scalar(&Scalar::min_pos());
    assert!(tiny.vanished());
    let sum = tiny.scalar_add_circle(&Circle::zero());
    assert!(sum.vanished());
}

#[test]
fn negation_cancels() {
    for v in [n(7), q(-13, 4), q(1, 1024), n(-100000)] {
        let mut m = v;
        m.scalar_negate();
        assert!(v.scalar_add_scalar(&m).is_zero());
        m.scalar_negate();
        assert_eq!(m, v);
    }
}

#[test]
fn one_is_multiplicative_identity() {
    for v in [n(7), q(-13, 4), q(1, 1024), n(-100000)] {
        assert_eq!(v.scalar_multiply_scalar(&Scalar::one()), v);
        assert_eq!(Scalar::one().scalar_multiply_scalar(&v), v);
    }
}

#[test]
fn shifts_are_exact() {
    let v = q(-13, 4);
    assert_eq!(v.scalar_shl_integer(&3), n(-26));
    assert_eq!(v.scalar_shr_integer(&2), q(-13, 16));
    assert_eq!(v.scalar_shl_integer(&5).scalar_shr_integer(&5), v);
}

#[test]
fn bitwise_self_laws() {
    let v = q(45, 8);
    assert_eq!(v.aligned_and(&v), v);
    assert!(v.aligned_xor(&v).is_zero());
}

#[test]
fn commutation() {
    let a = q(9, 7);
    let b = n(-33);
    assert_eq!(a.scalar_add_scalar(&b), b.scalar_add_scalar(&a));
    assert_eq!(a.scalar_multiply_scalar(&b), b.scalar_multiply_scalar(&a));
    let z = c(n(1), n(2));
    let w = c(q(-3, 2), n(5));
    assert_eq!(z.circle_add_circle(&w), w.circle_add_circle(&z));
    assert_eq!(z.circle_multiply_circle(&w), w.circle_multiply_circle(&z));
}

#[test]
fn floor_is_greatest_integer_below() {
    assert_eq!(q(7, 2).floor(), n(3));
    assert_eq!(q(-7, 2).floor(), n(-4));
    assert!(q(1, 3).floor().is_zero());
    assert_eq!(n(5).floor(), n(5));
}

fn no_angle(_y: Scalar, _x: Scalar) -> Scalar {
    Scalar::zero()
}

fn unit_cos(_t: Scalar) -> Scalar {
    Scalar::one()
}

fn zero_sin(_t: Scalar) -> Scalar {
    Scalar::zero()
}

#[test]
fn circle_ln_and_exp_tables() {
    let any = q(1, 3);
    assert!(Circle::zero().ln(&any).is_infinite());
    assert!(Circle::infinity().ln(&any).is_infinite());
    let exploded = Circle::new(0x5000_0000, 0, 0);
    assert!(exploded.exploded());
    assert!(exploded.ln(&any).is_undefined());
    assert!(Circle::one().ln(&Scalar::zero()).is_zero());
    assert_eq!(Circle::zero().exp(&any, &any), Circle::one());
    assert!(Circle::new(-0x5000_0000, 0, 0).exp(&any, &any).is_zero());
    assert!(exploded.exp(&any, &any).is_undefined());
    assert!(Circle::infinity().exp(&any, &any).is_infinite());
}

#[test]
fn circle_exp_uses_given_cos_and_sin() {
    let z = c(n(1), n(2));
    let e = n(1).exp();
    let r = z.exp(&Scalar::one(), &Scalar::zero());
    assert_eq!(r, c(e, Scalar::zero()));
    let r2 = z.exp(&Scalar::zero(), &q(1, 2));
    assert_eq!(r2, c(Scalar::zero(), e.scalar_multiply_scalar(&q(1, 2))));
}

#[test]
fn circle_power_scalar_table() {
    let z = c(n(1), n(1));
    let sq = z.circle_power_scalar(&n(2), no_angle, unit_cos, zero_sin);
    assert_eq!((sq.r(), sq.i()), (Scalar::zero(), n(2)));
    assert_eq!(z.circle_power_scalar(&Scalar::zero(), no_angle, unit_cos, zero_sin), Circle::one());
    assert!(Circle::zero().circle_power_scalar(&n(-3), no_angle, unit_cos, zero_sin).is_infinite());
    assert!(Circle::zero().circle_power_scalar(&n(3), no_angle, unit_cos, zero_sin).is_zero());
    assert!(Circle::infinity().circle_power_scalar(&n(-3), no_angle, unit_cos, zero_sin).is_zero());
    let exploded = Circle::new(0x5000_0000, 0, 0);
    assert!(exploded.circle_power_scalar(&q(1, 2), no_angle, unit_cos, zero_sin).is_undefined());
    let rotated = exploded.circle_power_scalar(&q(5, 2), no_angle, unit_cos, zero_sin);
    assert!(rotated.exploded());
    let turned = exploded.circle_power_scalar(&q(-5, 2), no_angle, unit_cos, zero_sin);
    assert!(turned.vanished());
}

#[test]
fn circle_power_scalar_goes_through_ln_and_exp() {
    let z = c(n(1), n(1));
    let p = q(1, 2);
    let angle = |_y: Scalar, _x: Scalar| q(3, 4);
    let r = z.circle_power_scalar(&p, angle, unit_cos, zero_sin);
    let w = z.ln(&q(3, 4)).circle_multiply_scalar(&p);
    assert_eq!(r, w.exp(&Scalar::one(), &Scalar::zero()));
}

#[test]
fn circle_power_circle_table() {
    let z = c(n(2), n(1));
    let three = c(n(3), Scalar::zero());
    let cube = z.circle_power_circle(&three, no_angle, unit_cos, zero_sin);
    assert_eq!((cube.r(), cube.i()), (n(2), n(11)));
    assert!(Circle::zero().circle_power_circle(&three, no_angle, unit_cos, zero_sin).is_zero());
    assert!(Circle::zero()
        .circle_power_circle(&c(n(-1), n(1)), no_angle, unit_cos, zero_sin)
        .is_undefined());
    assert!(Circle::new(0x5000_0000, 0, 0)
        .circle_power_circle(&three, no_angle, unit_cos, zero_sin)
        .is_undefined());
    let w = c(q(1, 2), n(1));
    let r = z.circle_power_circle(&w, no_angle, unit_cos, zero_sin);
    let v = w.circle_multiply_circle(&z.ln(&Scalar::zero()));
    assert_eq!(r, v.exp(&Scalar::one(), &Scalar::zero()));
}

#[test]
fn scalar_power_circle_table() {
    let eight = n(2).scalar_power_circle(&c(n(3), Scalar::zero()), unit_cos, zero_sin);
    assert_eq!((eight.r(), eight.i()), (n(8), Scalar::zero()));
    assert!(n(-2).scalar_power_circle(&c(n(3), n(1)), unit_cos, zero_sin).is_undefined());
    assert!(Scalar::zero().scalar_power_circle(&c(n(3), n(1)), unit_cos, zero_sin).is_zero());
    let w = c(q(1, 2), n(1));
    let r = n(3).scalar_power_circle(&w, unit_cos, zero_sin);
    let v = w.circle_multiply_scalar(&n(3).ln());
    assert_eq!(r, v.exp(&Scalar::one(), &Scalar::zero()));
}

#[test]
fn circle_logarithms() {
    let z = c(n(3), n(4));
    let b = c(n(1), n(1));
    let za = q(9, 10);
    let ba = q(3, 4);
    assert_eq!(
        z.circle_logarithm_circle(&b, &za, &ba),
        z.ln(&za).circle_divide_circle(&b.ln(&ba))
    );
    assert!(Circle::zero().circle_logarithm_circle(&b, &za, &ba).is_undefined());
    assert!(z.circle_logarithm_circle(&Circle::zero(), &za, &ba).is_undefined());
    assert_eq!(
        z.circle_logarithm_scalar(&n(10), &za),
        z.ln(&za).circle_divide_scalar(&n(10).ln())
    );
    assert!(z.circle_logarithm_scalar(&n(-10), &za).is_undefined());
    assert_eq!(
        n(5).scalar_logarithm_circle(&b, &ba),
        n(5).ln().scalar_divide_circle(&b.ln(&ba))
    );
    assert!(n(-5).scalar_logarithm_circle(&b, &ba).is_undefined());
}

#[test]
fn conjugation_laws() {
    for z in [c(n(3), q(28, 5)), c(q(-7, 2), n(11)), c(n(1), q(-1, 3)), c(q(1, 64), n(-5))] {
        assert_eq!(z.conjugate().conjugate(), z);
        assert_eq!(z.conjugate().magnitude(), z.magnitude());
        assert_eq!(z.conjugate().magnitude_squared(), z.magnitude_squared());
    }
    let real = c(n(42), Scalar::zero());
    assert_eq!(real.conjugate(), real);
    let imag = c(Scalar::zero(), n(7));
    assert_eq!(imag.conjugate().i(), n(-7));
}

#[test]
fn integers_are_fixed_by_rounding() {
    for v in [n(42), n(-7), Scalar::zero(), n(1 << 40), n(-(1 << 33))] {
        assert_eq!(v.floor(), v);
        assert_eq!(v.ceil(), v);
        assert_eq!(v.round(), v);
    }
    let pi_ish = q(22, 7);
    assert_eq!(pi_ish.scalar_add_scalar(&{
        let mut f = pi_ish.frac();
        f.scalar_negate();
        f
    }), pi_ish.floor());
}

#[test]
fn laws_beyond_normal_values() {
    let huge = Scalar::max_value().scalar_multiply_scalar(&n(4));
    assert!(huge.exploded());
    let tiny = Scalar::min_pos().scalar_divide_scalar(&n(8));
    assert!(tiny.vanished());
    for v in [huge, tiny, Scalar::zero(), Scalar::infinity()] {
        let mut m = v;
        m.scalar_negate();
        m.scalar_negate();
        assert_eq!(m, v);
        assert_eq!(v.scalar_multiply_scalar(&Scalar::one()), v);
        assert_eq!(v.scalar_shl_integer(&5).scalar_shr_integer(&5), v);
    }
    assert_eq!(Scalar::zero().aligned_and(&Scalar::zero()), Scalar::zero());
    assert_eq!(Scalar::infinity().aligned_and(&Scalar::infinity()), Scalar::infinity());
    assert!(Scalar::infinity().aligned_xor(&Scalar::infinity()).is_zero());
    // A far smaller positive operand is dropped, which is its floor.
    let big = n(1 << 40);
    assert_eq!(big.scalar_add_scalar(&q(1, 1 << 20)), big);
    // A numerator of smaller exponent and the same sign is its own remainder.
    assert_eq!(n(3).scalar_modulus_scalar(&n(1000)), n(3));
    assert_eq!(n(-3).scalar_modulus_scalar(&n(1000)), n(997));
    let ez = Circle::new(0x5000_0000, -0x1234_5678, 0);
    assert!(ez.exploded());
    assert_eq!(ez.conjugate().conjugate(), ez);
    let vz = Circle::new(0x2000_0000, 0x0FFF_0000, 0);
    assert!(vz.vanished());
    assert_eq!(vz.conjugate().conjugate(), vz);
    let real_escape = Circle::new(0x5000_0000, 0, 0);
    assert_eq!(real_escape.conjugate(), real_escape);
}

#[test]
fn lb_lies_in_the_binade() {
    assert_eq!(n(8).lb(), n(3));
    assert_eq!(n(1).lb(), Scalar::zero());
    for (v, k) in [(n(10), 3), (n(100), 6), (q(1, 3), -2), (q(3, 2), 0), (n(1000000), 19)] {
        assert_eq!(v.lb().floor(), n(k));
    }
}

#[test]
fn fractional_part_lies_in_unit_interval() {
    assert_eq!(q(-13, 4).frac(), q(3, 4));
    assert!(n(42).frac().is_zero());
    assert!(n(-42).frac().is_zero());
    for v in [q(22, 7), q(-22, 7), q(1, 3), q(-1, 3), q(-1, 1 << 20), q(1 << 40, 3), q(-(1 << 40), 3)] {
        let f = v.frac();
        assert!(f.is_zero() || (f.is_positive() && f.compare(&n(1)) == Some(Ordering::Less)));
    }
    // A negative value far below one in magnitude is dropped beside one.
    assert_eq!(q(-1, 1 << 40).frac(), n(1));
}

#[test]
fn conjugation_negates_imaginary_part() {
    for (re, im) in [(6, -8), (3, -4), (1, 4), (5, 9), (-12, 1), (7, -1)] {
        let z = c(n(re), n(im));
        let w = z.conjugate();
        assert_eq!(w.r(), n(re));
        assert_eq!(w.i(), n(-im));
    }
}

#[test]
fn zero_and_all_ones_identities() {
    let huge = Scalar::max_value().scalar_multiply_scalar(&n(4));
    let tiny = Scalar::min_pos().scalar_divide_scalar(&n(8));
    let undefined = Scalar::zero().scalar_divide_scalar(&Scalar::zero());
    let z = Scalar::zero();
    let inf = Scalar::infinity();
    for v in [n(5), n(-9), q(1, 3), tiny, z] {
        assert_eq!(v.scalar_add_scalar(&z), v);
        assert_eq!(z.scalar_add_scalar(&v), v);
    }
    assert!(huge.scalar_add_scalar(&z).is_undefined());
    for v in [n(5), n(-9), q(1, 3), tiny, huge, z] {
        assert!(v.scalar_multiply_scalar(&z).is_zero());
        assert!(z.scalar_multiply_scalar(&v).is_zero());
    }
    assert!(inf.scalar_multiply_scalar(&z).is_undefined());
    for v in [n(5), n(-9), q(1, 3), tiny, huge, z, inf, undefined] {
        assert_eq!(inf.aligned_and(&v), v);
        assert_eq!(v.aligned_and(&inf), v);
        assert_eq!(z.aligned_or(&v), v);
        assert_eq!(v.aligned_or(&z), v);
        assert_eq!(z.aligned_xor(&v), v);
        assert_eq!(v.aligned_xor(&z), v);
        assert_eq!(inf.aligned_xor(&v), v.not_scalar());
        assert_eq!(v.aligned_xor(&inf), v.not_scalar());
    }
    for v in [n(5), n(-9), q(1, 3), tiny, huge, z, inf] {
        assert!(z.aligned_and(&v).is_zero());
        assert!(inf.aligned_or(&v).is_infinite());
    }
}

#[test]
fn mixed_operations_commute() {
    let huge = Scalar::max_value().scalar_multiply_scalar(&n(4));
    let tiny = Scalar::min_pos().scalar_divide_scalar(&n(8));
    let scalars = [n(5), n(-9), q(1, 3), tiny, Scalar::zero()];
    let circles = [c(n(3), n(4)), c(q(-7, 2), n(11)), c(n(1) , q(-1, 3)), Circle::from_ri(&Scalar::zero(), &Scalar::zero())];
    for s in scalars {
        for z in circles {
            assert_eq!(s.scalar_add_circle(&z), z.circle_add_scalar(&s));
            assert_eq!(s.scalar_multiply_circle(&z), z.circle_multiply_scalar(&s));
        }
    }
    // An exploded operand beside a finite one names the order in its cause.
    let z = c(n(3), n(4));
    assert!(huge.scalar_add_circle(&z).is_undefined());
    assert!(z.circle_add_scalar(&huge).is_undefined());
    assert_ne!(huge.scalar_add_circle(&z), z.circle_add_scalar(&huge));
}

#[test]
fn circle_zero_identities() {
    let z = Circle::zero();
    let big = Scalar::max_value().scalar_multiply_scalar(&n(4));
    let exploded = c(big, n(1));
    let tiny = Scalar::min_pos().scalar_divide_scalar(&n(8));
    let vanished = c(tiny, Scalar::zero());
    for v in [c(n(3), n(4)), c(q(-7, 2), n(11)), exploded, vanished, z, Circle::infinity()] {
        assert_eq!(v.circle_add_circle(&z), v);
        assert_eq!(z.circle_add_circle(&v), v);
    }
    for v in [c(n(3), n(4)), c(q(-7, 2), n(11)), exploded, vanished, z] {
        assert_eq!(v.circle_multiply_circle(&z), z);
        assert_eq!(z.circle_multiply_circle(&v), z);
    }
    assert!(Circle::infinity().circle_multiply_circle(&z).is_undefined());
}

#[test]
fn circle_division_rounds_down() {
    let r = c(n(5), n(-1)).circle_divide_circle(&c(n(1), n(1)));
    assert_eq!(r, c(n(2), n(-3)));
    // (3 + 4i) / (1 + 2i) = 11/5 - 2/5 i, each part rounded down.
    let r = c(n(3), n(4)).circle_divide_circle(&c(n(1), n(2)));
    let re = r.r();
    let im = r.i();
    assert!(re.compare(&q(11, 5)) != Some(Ordering::Greater));
    assert!(im.compare(&q(-2, 5)) != Some(Ordering::Greater));
    let eps = q(1, 1 << 28);
    assert_eq!(re.scalar_add_scalar(&eps).compare(&q(11, 5)), Some(Ordering::Greater));
    assert_eq!(im.scalar_add_scalar(&eps).compare(&q(-2, 5)), Some(Ordering::Greater));
}

#[test]
fn undefined_states_propagate() {
    let u1 = Scalar::zero().scalar_divide_scalar(&Scalar::zero());
    let u2 = Scalar::infinity().scalar_multiply_scalar(&Scalar::zero());
    assert!(u1.is_undefined() && u2.is_undefined());
    assert_ne!(u1, u2);
    for v in [n(3), q(-7, 2), Scalar::zero(), Scalar::infinity(), u2] {
        assert_eq!(u1.scalar_add_scalar(&v), u1);
        assert_eq!(u1.scalar_multiply_scalar(&v), u1);
        assert_eq!(u1.scalar_divide_scalar(&v), u1);
        assert_eq!(u1.scalar_modulus_scalar(&v), u1);
        assert_eq!(u1.aligned_and(&v), u1);
        assert_eq!(u1.aligned_or(&v), u1);
        assert_eq!(u1.aligned_xor(&v), u1);
    }
    for v in [n(3), q(-7, 2), Scalar::zero(), Scalar::infinity()] {
        assert_eq!(v.scalar_add_scalar(&u2), u2);
        assert_eq!(v.scalar_multiply_scalar(&u2), u2);
        assert_eq!(v.scalar_divide_scalar(&u2), u2);
        assert_eq!(v.scalar_modulus_scalar(&u2), u2);
    }
    let mut m = u1;
    m.scalar_negate();
    assert_eq!(m, u1);
    for f in [u1.floor(), u1.ceil(), u1.round(), u1.frac(), u1.sqrt()] {
        assert_eq!(f, u1);
    }
    let cu = Circle::zero().circle_divide_circle(&Circle::zero());
    let z = c(n(3), n(4));
    assert_eq!(cu.circle_add_circle(&z), cu);
    assert_eq!(z.circle_multiply_circle(&cu), cu);
    assert_eq!(cu.circle_divide_circle(&z), cu);
}

#[test]
fn magnitude_removes_sign() {
    assert_eq!(n(-5).magnitude(), n(5));
    assert_eq!(q(-7, 4).magnitude(), q(7, 4));
    assert_eq!(n(9).magnitude(), n(9));
    let huge_neg = Scalar::min_value().scalar_multiply_scalar(&n(4));
    let tiny_neg = Scalar::min_pos().scalar_divide_scalar(&n(-8));
    assert!(huge_neg.is_negative() && tiny_neg.is_negative());
    for v in [huge_neg, tiny_neg, Scalar::min_value(), n(-1)] {
        assert!(!v.magnitude().is_negative());
        assert!(v.magnitude().is_positive());
    }
    assert!(huge_neg.magnitude().exploded());
    assert!(tiny_neg.magnitude().vanished());
}

#[test]
fn ordering_is_transitive() {
    let huge = Scalar::max_value().scalar_multiply_scalar(&n(4));
    let huge_neg = Scalar::min_value().scalar_multiply_scalar(&n(4));
    let tiny = Scalar::min_pos().scalar_divide_scalar(&n(8));
    let tiny_neg = Scalar::min_pos().scalar_divide_scalar(&n(-8));
    let chain = [huge_neg, n(-5), q(-1, 3), tiny_neg, Scalar::zero(), tiny, q(1, 3), n(3), huge];
    for i in 0..chain.len() {
        for j in 0..chain.len() {
            let expected = if i < j {
                Ordering::Less
            } else if i == j {
                Ordering::Equal
            } else {
                Ordering::Greater
            };
            if i == j && (chain[i].exploded() || chain[i].vanished()) {
                assert_eq!(chain[i].compare(&chain[j]), None);
            } else {
                assert_eq!(chain[i].compare(&chain[j]), Some(expected));
            }
        }
    }
}

#[test]
fn ceiling_and_rounding_laws() {
    assert_eq!(q(-49, 2).ceil(), n(-24));
    assert_eq!(n(42).ceil(), n(42));
    assert_eq!(q(1, 3).ceil(), n(1));
    assert!(q(-1, 3).ceil().is_zero());
    assert!(q(-1, 1).ceil().compare(&n(-1)) == Some(Ordering::Equal));
    assert_eq!(q((1 << 31) - 1, 2).ceil(), n(1 << 30));
    for (a, b, r) in [(1, 2, 0), (3, 2, 2), (5, 2, 2), (7, 2, 4), (-1, 2, 0), (-3, 2, -2), (-5, 2, -2), (-7, 2, -4), (5, 3, 2), (-5, 3, -2)] {
        let got = q(a, b).round();
        if r == 0 {
            assert!(got.is_zero());
        } else {
            assert_eq!(got, n(r));
        }
    }
}

#[test]
fn clamping_stays_within_bounds() {
    assert_eq!(n(5).clamp(n(1), n(3)), n(3));
    assert_eq!(n(-2).clamp(n(1), n(3)), n(1));
    assert_eq!(n(2).clamp(n(1), n(3)), n(2));
    assert_eq!(q(5, 2).clamp(n(1), n(3)), q(5, 2));
    let tiny = Scalar::min_pos().scalar_divide_scalar(&n(8));
    assert_eq!(Scalar::zero().clamp(tiny, n(1)), tiny);
    assert!(n(2).clamp(n(3), n(1)).is_undefined());
}

#[test]
fn circle_negation_negates_both_parts() {
    for (re, im) in [(3, -4), (1, 4), (-8, 6), (5, 9), (-12, 1), (7, -1), (-1, -1)] {
        let z = c(n(re), n(im));
        let mut w = z;
        w.circle_negate();
        assert_eq!(w.r(), n(-re));
        assert_eq!(w.i(), n(-im));
        w.circle_negate();
        assert_eq!(w, z);
    }
}

#[test]
fn circle_scalar_product_rounds_down() {
    let z = c(n(3), n(-4));
    assert_eq!(z.circle_multiply_scalar(&n(5)), c(n(15), n(-20)));
    let third = q(1, 3);
    let r = z.circle_multiply_scalar(&third);
    assert_eq!(r, third.scalar_multiply_circle(&z));
    assert!(r.r().compare(&n(1)) != Some(Ordering::Greater));
    let eps = q(1, 1 << 28);
    assert_eq!(r.r().scalar_add_scalar(&eps).compare(&n(1)), Some(Ordering::Greater));
    assert_eq!(r.i().compare(&q(-4, 3).scalar_add_scalar(&eps)), Some(Ordering::Less));
    assert_eq!(r.i().scalar_add_scalar(&eps).compare(&q(-4, 3)), Some(Ordering::Greater));
}

#[test]
fn mixed_divisions_round_down() {
    assert_eq!(n(5).scalar_divide_circle(&c(n(1), n(2))), c(n(1), n(-2)));
    assert_eq!(n(1).scalar_divide_circle(&c(n(1), n(1))), c(q(1, 2), q(-1, 2)));
    assert_eq!(c(n(3), n(6)).circle_divide_scalar(&n(3)), c(n(1), n(2)));
    assert_eq!(c(n(3), n(6)).circle_divide_scalar(&n(-3)), c(n(-1), n(-2)));
    let r = c(n(1), n(2)).circle_divide_scalar(&n(3));
    assert!(r.r().compare(&q(1, 3)) != Some(Ordering::Greater));
    assert!(r.i().compare(&q(2, 3)) != Some(Ordering::Greater));
    let eps = q(1, 1 << 28);
    assert_eq!(r.r().scalar_add_scalar(&eps).compare(&q(1, 3)), Some(Ordering::Greater));
    let r = n(1).scalar_divide_circle(&c(n(0), n(3)));
    assert!(r.r().is_zero());
    assert!(r.i().compare(&q(-1, 3)) != Some(Ordering::Greater));
    assert_eq!(r.i().scalar_add_scalar(&eps).compare(&q(-1, 3)), Some(Ordering::Greater));
}

#[test]
fn circle_scalar_sum_rounds_down() {
    assert_eq!(c(n(3), n(4)).circle_add_scalar(&n(2)), c(n(5), n(4)));
    assert_eq!(n(-7).scalar_add_circle(&c(n(3), n(4))), c(n(-4), n(4)));
    let r = c(n(1), q(1, 3)).circle_add_scalar(&q(1, 3));
    assert!(r.r().compare(&q(4, 3)) != Some(Ordering::Greater));
    let eps = q(1, 1 << 28);
    assert_eq!(r.r().scalar_add_scalar(&eps).compare(&q(4, 3)), Some(Ordering::Greater));
    assert!(r.i().compare(&q(1, 3)) != Some(Ordering::Greater));
}

#[test]
fn circle_bitwise_laws() {
    let z = Circle::zero();
    let big = Scalar::max_value().scalar_multiply_scalar(&n(4));
    let tiny = Scalar::min_pos().scalar_divide_scalar(&n(8));
    for v in [c(n(3), n(4)), c(q(-7, 2), n(11)), c(n(1), q(-1, 3)), z] {
        assert_eq!(v.aligned_and(&v), v);
        assert_eq!(v.aligned_or(&v), v);
        assert!(v.aligned_xor(&v).is_zero());
    }
    for v in [c(n(3), n(4)), c(q(-7, 2), n(11)), c(big, n(1)), c(tiny, Scalar::zero()), z] {
        assert_eq!(z.aligned_or(&v), v);
        assert_eq!(v.aligned_or(&z), v);
        assert_eq!(z.aligned_xor(&v), v);
        assert_eq!(v.aligned_xor(&z), v);
        assert!(z.aligned_and(&v).is_zero());
        assert!(v.aligned_and(&z).is_zero());
    }
}

#[test]
fn bitwise_operations_commute() {
    let huge = Scalar::max_value().scalar_multiply_scalar(&n(4));
    let tiny = Scalar::min_pos().scalar_divide_scalar(&n(8));
    let vals = [n(12), n(-10), q(5, 3), q(-1, 7), n(1 << 40), huge, tiny, Scalar::zero(), Scalar::infinity()];
    for a in vals {
        for b in vals {
            assert_eq!(a.aligned_and(&b), b.aligned_and(&a));
            assert_eq!(a.aligned_or(&b), b.aligned_or(&a));
            assert_eq!(a.aligned_xor(&b), b.aligned_xor(&a));
        }
    }
    let cs = [c(n(3), n(4)), c(q(-7, 2), n(11)), c(n(1 << 40), n(-1)), c(huge, n(1)), c(tiny, Scalar::zero()), Circle::zero()];
    for a in cs {
        for b in cs {
            assert_eq!(a.aligned_and(&b), b.aligned_and(&a));
            assert_eq!(a.aligned_or(&b), b.aligned_or(&a));
            assert_eq!(a.aligned_xor(&b), b.aligned_xor(&a));
        }
    }
}

#[test]
fn circle_square_is_product() {
    let big = Scalar::max_value().scalar_multiply_scalar(&n(4));
    let tiny = Scalar::min_pos().scalar_divide_scalar(&n(8));
    assert_eq!(c(n(3), n(4)).square(), c(n(-7), n(24)));
    for z in [c(n(3), n(4)), c(q(-7, 2), n(11)), c(n(1), q(-1, 3)), c(big, n(1)), c(tiny, Scalar::zero()), Circle::zero(), Circle::infinity()] {
        assert_eq!(z.square(), z.circle_multiply_circle(&z));
    }
}

#[test]
fn integers_are_their_own_floor() {
    for v in [n(7), n(-7), q(7, 2), q(-7, 2), n(1 << 40), q(1, 3), q(-1, 1 << 20), n(1)] {
        assert_eq!(v.is_integer(), v.floor() == v);
    }
    assert!(n(7).is_integer());
    assert!(!q(7, 2).is_integer());
}

#[test]
fn circle_values_determine_bits() {
    let a = c(n(3), n(4));
    let b = c(q(6, 2), q(16, 4));
    assert!(a.equals(&b));
    assert_eq!(a, b);
    assert!(!a.equals(&c(n(3), n(5))));
    assert!(Circle::zero().equals(&Circle::zero()));
}

fn in_canonical_state(v: &Scalar) -> bool {
    v.is_normal() || v.is_zero() || v.is_infinite() || v.exploded() || v.vanished() || v.is_undefined()
}

#[test]
fn operations_keep_canonical_states() {
    let huge = Scalar::max_value().scalar_multiply_scalar(&n(4));
    let tiny = Scalar::min_pos().scalar_divide_scalar(&n(-8));
    let undefined = Scalar::zero().scalar_divide_scalar(&Scalar::zero());
    let vals = [n(12), n(-10), q(5, 3), q(-1, 7), huge, tiny, Scalar::zero(), Scalar::infinity(), undefined];
    for a in vals {
        let mut m = a;
        m.scalar_negate();
        for r in [m, a.floor(), a.ceil(), a.round(), a.frac(), a.magnitude(), a.sqrt(), a.not_scalar()] {
            assert!(in_canonical_state(&r));
        }
        for b in vals {
            for r in [
                a.scalar_add_scalar(&b),
                a.scalar_multiply_scalar(&b),
                a.scalar_divide_scalar(&b),
                a.scalar_modulus_scalar(&b),
                a.aligned_and(&b),
                a.aligned_or(&b),
                a.aligned_xor(&b),
            ] {
                assert!(in_canonical_state(&r));
            }
        }
    }
}

fn circle_in_canonical_state(v: &Circle) -> bool {
    v.is_normal() || v.is_zero() || v.is_infinite() || v.exploded() || v.vanished() || v.is_undefined()
}

#[test]
fn circle_operations_keep_canonical_states() {
    let huge = Scalar::max_value().scalar_multiply_scalar(&n(4));
    let tiny = Scalar::min_pos().scalar_divide_scalar(&n(-8));
    let undefined = Circle::zero().circle_divide_circle(&Circle::zero());
    let cs = [c(n(3), n(4)), c(q(-7, 2), n(11)), c(n(1 << 40), n(-1)), c(huge, n(1)), c(tiny, Scalar::zero()), Circle::zero(), Circle::infinity(), undefined];
    for a in cs {
        let mut m = a;
        m.circle_negate();
        for r in [m, a.conjugate(), a.square()] {
            assert!(circle_in_canonical_state(&r));
        }
        for b in cs {
            for r in [a.circle_add_circle(&b), a.circle_multiply_circle(&b), a.circle_divide_circle(&b)] {
                assert!(circle_in_canonical_state(&r));
            }
        }
    }
}

#[test]
fn escaped_products_follow_sign_rule() {
    let a = Scalar::new(0x4000_0001, 0);
    assert!(a.exploded());
    let p = a.scalar_multiply_scalar(&n(3));
    let mut neg_p = p;
    neg_p.scalar_negate();
    assert_eq!(a.scalar_multiply_scalar(&n(-3)), neg_p);
    assert_eq!(neg_p.fraction, -0x6000_0001);
    let tiny = Scalar::min_pos().scalar_divide_scalar(&n(7));
    assert!(tiny.vanished());
    for b in [n(3), n(-5), q(7, 3), n(-1)] {
        let mut nb = b;
        nb.scalar_negate();
        let mut m = tiny.scalar_multiply_scalar(&b);
        m.scalar_negate();
        assert_eq!(tiny.scalar_multiply_scalar(&nb), m);
    }
    // Normal products beyond the range escape the same way.
    let big = Scalar::max_value();
    let mut up = big.scalar_multiply_scalar(&n(3));
    up.scalar_negate();
    assert_eq!(big.scalar_multiply_scalar(&n(-3)), up);
}

#[test]
fn circle_infinity_and_magnitude_states() {
    let inf = Circle::infinity();
    assert!(inf.circle_add_circle(&inf).is_undefined());
    assert!(inf.circle_add_circle(&c(n(3), n(4))).is_infinite());
    assert!(inf.magnitude().is_infinite());
    assert!(inf.magnitude_squared().is_infinite());
    assert!(Circle::zero().magnitude().is_zero());
    assert_eq!(c(n(3), n(4)).magnitude(), n(5));
    assert_eq!(c(n(3), n(4)).magnitude_squared(), n(25));
    let big = Scalar::max_value().scalar_multiply_scalar(&n(4));
    let exploded = c(big, big);
    assert!(exploded.exploded());
    assert!(exploded.magnitude().exploded());
    assert!(exploded.magnitude_squared().exploded());
    let tiny = Scalar::min_pos().scalar_divide_scalar(&n(8));
    let vanished = c(tiny, tiny);
    assert!(vanished.vanished());
    assert!(vanished.magnitude().vanished());
    assert!(vanished.magnitude_squared().vanished());
    let undefined = Circle::zero().circle_divide_circle(&Circle::zero());
    assert!(undefined.magnitude().is_undefined());
}

#[test]
fn leading_zero_count_of_words() {
    assert_eq!(spirix::random::leading_count(&vec![0, 0, 5]), 93);
    assert_eq!(spirix::random::leading_count(&vec![-1]), 0);
    assert_eq!(spirix::random::leading_count(&vec![1]), 31);
    assert_eq!(spirix::random::leading_count(&vec![0, 0, 0, 0, 0]), 128);
    assert_eq!(spirix::random::leading_count(&vec![]), 0);
}

#[test]
fn square_underflow_is_canonical_vanished() {
    let s = Scalar::min_pos().square();
    assert!(s.vanished() && s.is_positive());
    assert_eq!(s.fraction, 0x2000_0000);
    assert_eq!(q(-7, 2).square(), q(49, 4));
}

#[test]
fn or_with_one_negative_part_keeps_all_ones() {
    let big = Scalar::max_value().scalar_multiply_scalar(&n(4));
    let exploded = c(big, n(1));
    let tiny = Scalar::min_pos().scalar_divide_scalar(&n(8));
    let mut neg_tiny = tiny;
    neg_tiny.scalar_negate();
    let v = c(neg_tiny, tiny);
    assert!(exploded.exploded() && v.vanished());
    let r = exploded.aligned_or(&v);
    assert_eq!(r.real, -1);
    assert_eq!(r, v.aligned_or(&exploded));
}

#[test]
fn text_with_negative_digit_counts() {
    let t: String = n(255).format_scalar(10, -1).into_iter().collect();
    assert!(t.starts_with('+'));
    let u: String = c(n(3), n(4)).format_circle(10, -2).into_iter().collect();
    assert!(!u.is_empty());
    let z: String = Scalar::zero().format_scalar(10, -3).into_iter().collect();
    assert_eq!(z, "0");
}

#[test]
fn magnitude_squared_of_tiny_part_is_canonical_vanished() {
    let x = Scalar::min_pos().scalar_multiply_scalar(&n(3));
    assert!(x.is_normal());
    let z = c(x, n(0));
    assert!(z.is_normal());
    let m = z.magnitude_squared();
    assert!(m.vanished() && m.is_positive());
    assert_eq!(m.fraction, 0x2000_0000);
    assert_eq!(m, x.square());
}

#[test]
fn or_far_below_normalizes_kept_part_as_scalar() {
    let z = c(n(3), n(1));
    let tiny = Scalar::min_pos().scalar_divide_scalar(&n(8));
    let mut neg_tiny = tiny;
    neg_tiny.scalar_negate();
    let v = c(neg_tiny, tiny);
    assert!(z.is_normal() && v.vanished());
    let r = z.aligned_or(&v);
    let mut kept = Scalar { fraction: z.imaginary, exponent: z.exponent };
    kept.normalize();
    assert_eq!(r.real, -1);
    assert_eq!(r.imaginary, kept.fraction);
    assert_eq!(r.exponent, kept.exponent);
    assert_eq!(r.imaginary, q(1, 2).fraction);
    assert_eq!(r.exponent, q(1, 2).exponent);
    assert_eq!(r, v.aligned_or(&z));
}

#[test]
fn vanished_modulus_exploded_of_other_sign_is_undefined() {
    let tiny = Scalar::min_pos().scalar_divide_scalar(&n(8));
    let big = Scalar::max_value().scalar_multiply_scalar(&n(4));
    let mut neg_big = big;
    neg_big.scalar_negate();
    assert!(tiny.vanished() && neg_big.exploded());
    let r = tiny.scalar_modulus_scalar(&neg_big);
    assert!(r.is_undefined());
    assert_eq!(r.fraction, spirix::undefined::MODULUS_TRANSFINITE);
    assert_eq!(tiny.scalar_modulus_scalar(&big), tiny);
}
