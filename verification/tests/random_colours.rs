use spirix::random::Polar;
use spirix::{Circle, Scalar};
use std::cmp::Ordering;

fn n(v: i64) -> Scalar {
    Scalar::from_int(v)
}

#[test]
fn scalar_draws() {
    // a fraction with no leading words of zeros lands in [0.5, 1) or [-1, -0.5)
    let x = Scalar::from_draws(-1, 0);
    assert!(x.is_normal());
    assert_eq!(x, Scalar::effectively_pos_one());
    let y = Scalar::from_draws(0, 0);
    assert_eq!(y, n(-1));
    // three leading zero bits move the value three binades down
    let z = Scalar::from_draws(i32::MIN, 3);
    assert_eq!(z, Scalar::one().scalar_shr_integer(&4));
    // from 127 leading zeros on the draw is vanished, signed by the fraction
    let v = Scalar::from_draws(-5, 127);
    assert!(v.vanished() && v.is_positive());
    let w = Scalar::from_draws(5, 200);
    assert!(w.vanished() && w.is_negative());
}

#[test]
fn circle_draws() {
    let z = Circle::from_draws(0x4000_0000, 0, 0);
    assert_eq!(z.r(), Scalar::half());
    assert!(z.i().is_zero());
    let v = Circle::from_draws(-3, 3, 127);
    assert!(v.vanished());
}

#[test]
fn random_scalars_in_range() {
    for _ in 0..200 {
        let x = Scalar::random();
        assert!(x.is_normal() || x.vanished());
        if x.is_normal() {
            assert!(x.magnitude().compare(&n(1)) != Some(Ordering::Greater));
        }
    }
}

#[test]
fn random_circles_in_disk() {
    for _ in 0..200 {
        let z = Circle::random();
        let m2 = z.magnitude_squared();
        assert!(z.vanished() || m2.is_zero() || m2.vanished()
            || m2.compare(&n(1)) == Some(Ordering::Less));
    }
}

#[test]
fn polar_method() {
    // s = 0.25 + 0.25 = 0.5 is accepted
    let h = Scalar::half();
    match Scalar::polar(&h, &h) {
        Polar::Factor(f) => {
            // sqrt(-2 ln 0.5 / 0.5) = sqrt(4 ln 2) ~ 1.665
            assert!(f.compare(&n(1)) == Some(Ordering::Greater));
            assert!(f.compare(&n(2)) == Some(Ordering::Less));
        },
        _ => panic!("pair inside the unit circle was rejected"),
    }
    // s >= 1 is rejected
    assert_eq!(Scalar::polar(&n(1), &h), Polar::Retry);
    assert_eq!(Scalar::polar(&Scalar::zero(), &Scalar::zero()), Polar::Retry);
}

#[test]
fn gaussian_samples() {
    let mut normal_count = 0;
    for _ in 0..100 {
        let g = Scalar::random_gauss();
        if g.is_normal() {
            normal_count += 1;
        }
        let c = Circle::random_gauss();
        assert!(!c.is_undefined());
    }
    assert!(normal_count > 50);
}

#[test]
fn colour_choices() {
    assert_eq!(n(3).get_colour_scheme().colour, [0xff, 0x80, 0x80]);
    assert_eq!(n(-3).get_colour_scheme().colour, [0x80, 0x80, 0xff]);
    assert_eq!(Scalar::zero().get_colour_scheme().colour, [0x80, 0xff, 0x80]);
    let undefined = Scalar::zero().scalar_divide_scalar(&Scalar::zero());
    assert_eq!(undefined.get_colour_scheme().colour, [0xff, 0x80, 0xff]);
    let huge = Scalar::max_value().scalar_multiply_scalar(&n(2));
    assert_eq!(huge.get_colour_scheme().colour, [0xff, 0x00, 0x00]);
    let palette = spirix::colours::colours();
    assert_eq!(palette.integer_exponent.colour, [0xff, 0xff, 0x80]);
    assert_eq!(palette.fractional_exponent.colour, [0x80, 0xff, 0xff]);
    let z = Circle::from_ri(&n(1), &n(-1));
    assert_eq!(z.get_real_colour_scheme().colour, [0xff, 0x80, 0x80]);
    assert_eq!(z.get_imag_colour_scheme().colour, [0x80, 0x80, 0xff]);
}

#[test]
fn glyphs() {
    assert_eq!(n(3).get_binary_chars(), ('□', '■'));
    assert_eq!(Scalar::zero().get_binary_chars(), ('0', '|'));
    let huge = Scalar::max_value().scalar_multiply_scalar(&n(2));
    assert_eq!(huge.get_binary_chars(), ('○', '●'));
    assert_eq!(Circle::zero().get_binary_chars(), ('0', '|'));
}
