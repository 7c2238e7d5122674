//! Addition, multiplication and division between Circles, and between a
//! Circle and a Scalar.
use crate::bits::{
    fdiv, floor_div, floor_shr, lemma_sbits_le, lemma_scale_fits, pow2_u128, sbits, scale, scale_by,
    sig_bits,
};
use crate::circle::{cc, cpack, cpack_spec, hb, level, level_spec, part_spec, Circle};
use crate::scalar::{
    lemma_mant, lemma_pow2_30_32, logical_exp, sc, stored_exp, stored_exp_of, undefined_frac,
    uniform_frac, Scalar,
};
use crate::arith::{add_spec, escaped_spec, mul_spec, sig, square_spec};
use crate::cmodular::from_ri_spec;
use crate::roots::{isqrt, sqrt_spec};
use crate::undefined::{
    FINITE_PLUS_TRANSFINITE, NEGLIGIBLE_DIVIDE_NEGLIGIBLE, NEGLIGIBLE_MULTIPLY_TRANSFINITE,
    TRANSFINITE_DIVIDE_TRANSFINITE, TRANSFINITE_MULTIPLY_NEGLIGIBLE, TRANSFINITE_PLUS_FINITE,
    TRANSFINITE_PLUS_TRANSFINITE, VANISHED_PLUS_VANISHED, SIGN_INDETERMINATE,
};
use vstd::arithmetic::power2::*;
use vstd::prelude::*;

verus! {

/// An undefined Circle carrying the given cause in both fractions.
pub open spec fn cu(code: i32) -> Circle {
    cc(code, code, 0)
}

/// Infinity or an exploded Circle.
pub open spec fn ctrans(c: Circle) -> bool {
    !c.normal_c() && (c.n1_c() || (c.real == -1 && c.imaginary == -1))
}

/// Infinity or an exploded Scalar.
pub open spec fn strans(s: Scalar) -> bool {
    s.exploded_s() || s.infinite_s()
}

/// A normal Scalar as a Circle on the real axis: its significand halved to
/// the Circle's fraction scale (rounding toward negative infinity), same
/// exponent.
pub open spec fn from_scalar_spec(s: Scalar) -> Circle {
    cc(fdiv(s.w(), 2) as i32, 0, s.exponent)
}

/// Sum of two normal Circles: the one with the larger exponent is the big
/// one (the second on a tie); exponents 32 or more apart leave the big one,
/// otherwise the exact sum is rounded toward negative infinity.
pub open spec fn cadd_normal_spec(a: Circle, b: Circle) -> Circle {
    let big = if a.k() > b.k() {
        a
    } else {
        b
    };
    let small = if a.k() > b.k() {
        b
    } else {
        a
    };
    let shift = big.k() - small.k();
    if shift >= 32 {
        big
    } else {
        let p = pow2(shift as nat) as int;
        cpack_spec(big.real * p + small.real, big.imaginary * p + small.imaginary, small.k() - 30)
    }
}

/// Circle addition over all states: undefined propagates; infinity plus
/// infinity is undefined, infinity absorbs anything else; zero is the
/// identity; otherwise the Scalar addition's rules for escaped operands.
pub open spec fn cadd_spec(a: Circle, b: Circle) -> Circle {
    if a.normal_c() && b.normal_c() {
        cadd_normal_spec(a, b)
    } else if a.undefined_c() {
        a
    } else if b.undefined_c() {
        b
    } else if a.infinite_c() && b.infinite_c() {
        cu(TRANSFINITE_PLUS_TRANSFINITE)
    } else if a.infinite_c() || b.infinite_c() {
        cc(-1i32, -1i32, 0)
    } else if a.zero_c() {
        b
    } else if b.zero_c() {
        a
    } else if a.exploded_c() && b.exploded_c() {
        cu(TRANSFINITE_PLUS_TRANSFINITE)
    } else if a.n2_c() && b.n2_c() {
        cu(VANISHED_PLUS_VANISHED)
    } else if a.exploded_c() {
        if b.n2_c() {
            a
        } else {
            cu(TRANSFINITE_PLUS_FINITE)
        }
    } else if b.exploded_c() {
        if a.n2_c() {
            b
        } else {
            cu(FINITE_PLUS_TRANSFINITE)
        }
    } else if a.n2_c() {
        b
    } else {
        a
    }
}

/// Sum of a normal Circle and a normal Scalar (added to the real part):
/// the operand with the larger exponent is the big one; 32 or more binades
/// apart the big one is the result, otherwise the exact sum is rounded
/// toward negative infinity.
pub open spec fn cs_add_normal_spec(c: Circle, s: Scalar) -> Circle {
    let h = fdiv(s.w(), 2);
    if c.k() > s.k() {
        let shift = c.k() - s.k();
        if shift >= 32 {
            c
        } else {
            let p = pow2(shift as nat) as int;
            cpack_spec(c.real * p + h, c.imaginary * p, s.k() - 30)
        }
    } else {
        let shift = s.k() - c.k();
        if shift >= 32 {
            from_scalar_spec(s)
        } else {
            let p = pow2(shift as nat) as int;
            cpack_spec(h * p + c.real, c.imaginary as int, c.k() - 30)
        }
    }
}

/// A Scalar's undefined state carried into a Circle.
pub open spec fn undefined_into(s: Scalar) -> Circle {
    cc(s.fraction, s.fraction, s.exponent)
}

/// Circle plus Scalar over all states.
pub open spec fn cs_add_spec(c: Circle, s: Scalar) -> Circle {
    if c.normal_c() && s.normal_s() {
        cs_add_normal_spec(c, s)
    } else if c.undefined_c() {
        c
    } else if s.undefined_s() {
        undefined_into(s)
    } else if ctrans(c) && strans(s) {
        cu(TRANSFINITE_PLUS_TRANSFINITE)
    } else if c.n2_c() && s.vanished_s() {
        cu(VANISHED_PLUS_VANISHED)
    } else if ctrans(c) {
        cu(TRANSFINITE_PLUS_FINITE)
    } else if strans(s) {
        cu(FINITE_PLUS_TRANSFINITE)
    } else if s.zero_s() {
        c
    } else if s.vanished_s() {
        if c.zero_c() {
            from_ri_spec(s, sc(0i32, 0i8))
        } else {
            c
        }
    } else if c.n2_c() || c.zero_c() {
        from_scalar_spec(s)
    } else {
        c
    }
}

/// Scalar plus Circle over all states (the causes of undefined results name
/// the Scalar first).
pub open spec fn sc_add_spec(s: Scalar, c: Circle) -> Circle {
    if s.normal_s() && c.normal_c() {
        cs_add_normal_spec(c, s)
    } else if s.undefined_s() {
        undefined_into(s)
    } else if c.undefined_c() {
        c
    } else if strans(s) && ctrans(c) {
        cu(TRANSFINITE_PLUS_TRANSFINITE)
    } else if s.vanished_s() && c.n2_c() {
        cu(VANISHED_PLUS_VANISHED)
    } else if strans(s) {
        cu(TRANSFINITE_PLUS_FINITE)
    } else if ctrans(c) {
        cu(FINITE_PLUS_TRANSFINITE)
    } else if s.vanished_s() {
        if c.zero_c() {
            from_ri_spec(s, sc(0i32, 0i8))
        } else {
            c
        }
    } else if s.zero_s() {
        c
    } else {
        from_scalar_spec(s)
    }
}

/// Exec form of `from_scalar_spec`.
fn from_scalar(s: &Scalar) -> (r: Circle)
    ensures
        r == from_scalar_spec(*s),
{
    proof {
        lemma_mant(s.fraction);
        lemma_pow2_30_32();
    }
    let f = s.fraction as i64;
    let w: i64 = if f < 0 {
        f + 0x1_0000_0000
    } else {
        f - 0x1_0000_0000
    };
    proof {
        lemma2_to64();
        assert(w as int == s.w());
    }
    let h = floor_shr(w as i128, 1);
    proof {
        assert(fdiv(s.w(), 2) == s.w() / 2);
        assert(-0x8000_0000 <= h < 0x8000_0000);
    }
    Circle { real: h as i32, imaginary: 0, exponent: s.exponent }
}

/// Undefined Circle with the given cause.
/// `re^2 + im^2` of an escaped Circle's fractions: positive and below `2^63`.
fn escaped_norm(c: &Circle) -> (n: i128)
    requires
        circle_escaped(*c),
    ensures
        n == c.real * c.real + c.imaginary * c.imaginary,
        0 < n <= 0x8000_0000_0000_0000,
        sbits(n as int) <= 126,
{
    let re = c.real as i128;
    let im = c.imaginary as i128;
    proof {
        lemma_pow2_30_32();
        assert(re != 0 || im != 0);
        assert(0 <= re * re <= 0x4000_0000_0000_0000) by (nonlinear_arith)
            requires
                -0x8000_0000 <= re < 0x8000_0000,
        ;
        assert(0 <= im * im <= 0x4000_0000_0000_0000) by (nonlinear_arith)
            requires
                -0x8000_0000 <= im < 0x8000_0000,
        ;
        assert(re * re + im * im > 0) by (nonlinear_arith)
            requires
                re != 0 || im != 0,
        ;
        lemma2_to64_rest();
        crate::bits::lemma_sbits_le((re * re + im * im) as int, 64);
    }
    re * re + im * im
}

fn undefined_circle(code: i32) -> (r: Circle)
    ensures
        r == cu(code),
{
    Circle { real: code, imaginary: code, exponent: 0 }
}

impl Circle {
    fn is_transfinite_c(&self) -> (r: bool)
        ensures
            r == ctrans(*self),
    {
        !self.is_normal() && (self.is_n1() || (self.real == -1 && self.imaginary == -1))
    }

    /// Sum of two normal Circles.
    fn add_normal(&self, other: &Circle) -> (r: Circle)
        requires
            self.normal_c(),
            other.normal_c(),
        ensures
            r == cadd_normal_spec(*self, *other),
    {
        let ka = logical_exp(self.exponent);
        let kb = logical_exp(other.exponent);
        let (big, small, kbig, ksmall) = if ka > kb {
            (*self, *other, ka, kb)
        } else {
            (*other, *self, kb, ka)
        };
        let shift = kbig - ksmall;
        if shift >= 32 {
            return big;
        }
        let p = pow2_u128(shift as u32);
        proof {
            lemma_pow2_pos(shift as nat);
            crate::bits::lemma_pow2_le(shift as nat, 31);
            lemma_pow2_30_32();
        }
        let pi = p as i128;
        let xr = big.real as i128;
        let xi = big.imaginary as i128;
        proof {
            assert(-0x4000_0000_0000_0000 <= xr * pi <= 0x4000_0000_0000_0000)
                by (nonlinear_arith)
                requires
                    -0x8000_0000 <= xr <= 0x8000_0000,
                    0 < pi <= 0x8000_0000,
            ;
            assert(-0x4000_0000_0000_0000 <= xi * pi <= 0x4000_0000_0000_0000)
                by (nonlinear_arith)
                requires
                    -0x8000_0000 <= xi <= 0x8000_0000,
                    0 < pi <= 0x8000_0000,
            ;
        }
        let sr = xr * pi + small.real as i128;
        let si = xi * pi + small.imaginary as i128;
        proof {
            lemma2_to64_rest();
            lemma_pow2_unfold(64);
            lemma_sbits_le(sr as int, 64);
            lemma_sbits_le(si as int, 64);
        }
        cpack(sr, si, ksmall - 30)
    }

    /// Adds another Circle.
    pub fn circle_add_circle(&self, other: &Circle) -> (r: Circle)
        ensures
            r == cadd_spec(*self, *other),
    {
        if self.is_normal() && other.is_normal() {
            return self.add_normal(other);
        }
        if self.is_undefined() {
            return *self;
        }
        if other.is_undefined() {
            return *other;
        }
        if self.is_infinite() && other.is_infinite() {
            return undefined_circle(TRANSFINITE_PLUS_TRANSFINITE);
        }
        if self.is_infinite() || other.is_infinite() {
            return Circle::infinity();
        }
        if self.is_zero() {
            return *other;
        }
        if other.is_zero() {
            return *self;
        }
        if self.exploded() && other.exploded() {
            return undefined_circle(TRANSFINITE_PLUS_TRANSFINITE);
        }
        if self.vanished() && other.vanished() {
            return undefined_circle(VANISHED_PLUS_VANISHED);
        }
        if self.exploded() {
            if other.vanished() {
                return *self;
            }
            return undefined_circle(TRANSFINITE_PLUS_FINITE);
        }
        if other.exploded() {
            if self.vanished() {
                return *other;
            }
            return undefined_circle(FINITE_PLUS_TRANSFINITE);
        }
        if self.vanished() {
            return *other;
        }
        *self
    }

    /// Sum of a normal Circle and a normal Scalar.
    fn add_scalar_normal(&self, s: &Scalar) -> (r: Circle)
        requires
            self.normal_c(),
            s.normal_s(),
        ensures
            r == cs_add_normal_spec(*self, *s),
    {
        let kc = logical_exp(self.exponent);
        let ks = logical_exp(s.exponent);
        let h = from_scalar(s).real as i128;
        proof {
            lemma_pow2_30_32();
        }
        if kc > ks {
            let shift = kc - ks;
            if shift >= 32 {
                return *self;
            }
            let p = pow2_u128(shift as u32);
            proof {
                lemma_pow2_pos(shift as nat);
                crate::bits::lemma_pow2_le(shift as nat, 31);
            }
            let pi = p as i128;
            let xr = self.real as i128;
            let xi = self.imaginary as i128;
            proof {
                assert(-0x4000_0000_0000_0000 <= xr * pi <= 0x4000_0000_0000_0000)
                    by (nonlinear_arith)
                    requires
                        -0x8000_0000 <= xr <= 0x8000_0000,
                        0 < pi <= 0x8000_0000,
                ;
                assert(-0x4000_0000_0000_0000 <= xi * pi <= 0x4000_0000_0000_0000)
                    by (nonlinear_arith)
                    requires
                        -0x8000_0000 <= xi <= 0x8000_0000,
                        0 < pi <= 0x8000_0000,
                ;
            }
            let sr = xr * pi + h;
            let si = xi * pi;
            proof {
                lemma2_to64_rest();
                lemma_pow2_unfold(64);
                lemma_sbits_le(sr as int, 64);
                lemma_sbits_le(si as int, 64);
            }
            cpack(sr, si, ks - 30)
        } else {
            let shift = ks - kc;
            if shift >= 32 {
                return from_scalar(s);
            }
            let p = pow2_u128(shift as u32);
            proof {
                lemma_pow2_pos(shift as nat);
                crate::bits::lemma_pow2_le(shift as nat, 31);
                assert(-0x4000_0000_0000_0000 <= h * p <= 0x4000_0000_0000_0000)
                    by (nonlinear_arith)
                    requires
                        -0x8000_0000 <= h <= 0x8000_0000,
                        0 < p <= 0x8000_0000,
                ;
            }
            let sr = h * (p as i128) + self.real as i128;
            let si = self.imaginary as i128;
            proof {
                lemma2_to64_rest();
                lemma_pow2_unfold(64);
                lemma_sbits_le(sr as int, 64);
                lemma_sbits_le(si as int, 64);
            }
            cpack(sr, si, kc - 30)
        }
    }

    /// Adds a Scalar to the real part.
    pub fn circle_add_scalar(&self, s: &Scalar) -> (r: Circle)
        ensures
            r == cs_add_spec(*self, *s),
    {
        if self.is_normal() && s.is_normal() {
            return self.add_scalar_normal(s);
        }
        if self.is_undefined() {
            return *self;
        }
        if s.is_undefined() {
            return Circle { real: s.fraction, imaginary: s.fraction, exponent: s.exponent };
        }
        let ct = self.is_transfinite_c();
        let st = s.is_transfinite();
        if ct && st {
            return undefined_circle(TRANSFINITE_PLUS_TRANSFINITE);
        }
        if self.vanished() && s.vanished() {
            return undefined_circle(VANISHED_PLUS_VANISHED);
        }
        if ct {
            return undefined_circle(TRANSFINITE_PLUS_FINITE);
        }
        if st {
            return undefined_circle(FINITE_PLUS_TRANSFINITE);
        }
        if s.is_zero() {
            return *self;
        }
        if s.vanished() {
            if self.is_zero() {
                return Circle::from_ri(s, &Scalar::zero());
            }
            return *self;
        }
        if self.vanished() || self.is_zero() {
            return from_scalar(s);
        }
        *self
    }
}

impl Scalar {
    /// Adds a Circle, the Scalar going to the real part.
    pub fn scalar_add_circle(&self, c: &Circle) -> (r: Circle)
        ensures
            r == sc_add_spec(*self, *c),
    {
        if self.is_normal() && c.is_normal() {
            return c.add_scalar_normal(self);
        }
        if self.is_undefined() {
            return Circle { real: self.fraction, imaginary: self.fraction, exponent: self.exponent };
        }
        if c.is_undefined() {
            return *c;
        }
        let st = self.is_transfinite();
        let ct = c.is_transfinite_c();
        if st && ct {
            return undefined_circle(TRANSFINITE_PLUS_TRANSFINITE);
        }
        if self.vanished() && c.vanished() {
            return undefined_circle(VANISHED_PLUS_VANISHED);
        }
        if st {
            return undefined_circle(TRANSFINITE_PLUS_FINITE);
        }
        if ct {
            return undefined_circle(FINITE_PLUS_TRANSFINITE);
        }
        if self.vanished() {
            if c.is_zero() {
                return Circle::from_ri(self, &Scalar::zero());
            }
            return *c;
        }
        if self.is_zero() {
            return *c;
        }
        from_scalar(self)
    }
}


/// Product of two Circles over all states. Two normal Circles multiply
/// exactly and round toward negative infinity; zero times infinity and
/// exploded times vanished are undefined; infinity absorbs and zero
/// annihilates; otherwise an escaped operand makes an escaped product
/// (exploded if either operand is) in the direction of the exact product.
pub open spec fn cmul_spec(x: Circle, y: Circle) -> Circle {
    let re = x.real * y.real - x.imaginary * y.imaginary;
    let im = x.real * y.imaginary + x.imaginary * y.real;
    if x.normal_c() && y.normal_c() {
        cpack_spec(re, im, x.k() + y.k() - 60)
    } else if x.undefined_c() {
        x
    } else if y.undefined_c() {
        y
    } else if x.infinite_c() && y.zero_c() {
        cu(TRANSFINITE_MULTIPLY_NEGLIGIBLE)
    } else if x.zero_c() && y.infinite_c() {
        cu(NEGLIGIBLE_MULTIPLY_TRANSFINITE)
    } else if x.infinite_c() || y.infinite_c() {
        cc(-1i32, -1i32, 0)
    } else if x.zero_c() || y.zero_c() {
        cc(0, 0, 0)
    } else if x.exploded_c() && y.n2_c() {
        cu(TRANSFINITE_MULTIPLY_NEGLIGIBLE)
    } else if x.n2_c() && y.exploded_c() {
        cu(NEGLIGIBLE_MULTIPLY_TRANSFINITE)
    } else {
        level_spec(re, im, if x.exploded_c() || y.exploded_c() { 31 } else { 30 })
    }
}

/// Circle times Scalar over all states, with the rules of `cmul_spec`; the
/// causes of undefined results name the Circle first.
pub open spec fn cs_mul_spec(c: Circle, s: Scalar) -> Circle {
    if c.normal_c() && s.normal_s() {
        cpack_spec(c.real * s.w(), c.imaginary * s.w(), c.k() + s.k() - 61)
    } else if c.undefined_c() {
        c
    } else if s.undefined_s() {
        undefined_into(s)
    } else if c.infinite_c() && s.zero_s() {
        cu(TRANSFINITE_MULTIPLY_NEGLIGIBLE)
    } else if c.zero_c() && s.infinite_s() {
        cu(NEGLIGIBLE_MULTIPLY_TRANSFINITE)
    } else if c.infinite_c() || s.infinite_s() {
        cc(-1i32, -1i32, 0)
    } else if c.zero_c() || s.zero_s() {
        cc(0, 0, 0)
    } else if c.exploded_c() && s.vanished_s() {
        cu(TRANSFINITE_MULTIPLY_NEGLIGIBLE)
    } else if c.n2_c() && s.exploded_s() {
        cu(NEGLIGIBLE_MULTIPLY_TRANSFINITE)
    } else {
        level_spec(
            c.real * sig(s),
            c.imaginary * sig(s),
            if c.exploded_c() || s.exploded_s() { 31 } else { 30 },
        )
    }
}

/// Scalar times Circle over all states; the causes of undefined results
/// name the Scalar first.
pub open spec fn sc_mul_spec(s: Scalar, c: Circle) -> Circle {
    if s.normal_s() && c.normal_c() {
        cpack_spec(c.real * s.w(), c.imaginary * s.w(), c.k() + s.k() - 61)
    } else if s.undefined_s() {
        undefined_into(s)
    } else if c.undefined_c() {
        c
    } else if s.infinite_s() && c.zero_c() {
        cu(TRANSFINITE_MULTIPLY_NEGLIGIBLE)
    } else if s.zero_s() && c.infinite_c() {
        cu(NEGLIGIBLE_MULTIPLY_TRANSFINITE)
    } else if s.infinite_s() || c.infinite_c() {
        cc(-1i32, -1i32, 0)
    } else if s.zero_s() || c.zero_c() {
        cc(0, 0, 0)
    } else if s.exploded_s() && c.n2_c() {
        cu(TRANSFINITE_MULTIPLY_NEGLIGIBLE)
    } else if s.vanished_s() && c.exploded_c() {
        cu(NEGLIGIBLE_MULTIPLY_TRANSFINITE)
    } else {
        level_spec(
            c.real * sig(s),
            c.imaginary * sig(s),
            if c.exploded_c() || s.exploded_s() { 31 } else { 30 },
        )
    }
}

/// Significant bits of the wider of two fractions.
pub open spec fn msb(x: int, y: int) -> int {
    if sbits(x) >= sbits(y) {
        sbits(x) as int
    } else {
        sbits(y) as int
    }
}

/// `z`, one of the pair `(x, y)`, shifted left together with the other
/// until the wider of the two has 31 significant bits (exact).
pub open spec fn lifted(x: int, y: int, z: int) -> int {
    scale(z, msb(x, y) - 31)
}

/// Floor of the real part of `(xr + i xi) / (yr + i yi)`, scaled by `2^33`.
pub open spec fn dq_re(xr: int, xi: int, yr: int, yi: int) -> int {
    fdiv((xr * yr + xi * yi) * pow2(33), yr * yr + yi * yi)
}

/// Floor of the imaginary part of `(xr + i xi) / (yr + i yi)`, scaled by `2^33`.
pub open spec fn dq_im(xr: int, xi: int, yr: int, yi: int) -> int {
    fdiv((xi * yr - xr * yi) * pow2(33), yr * yr + yi * yi)
}

/// Quotient of two Circles over all states. Two normal Circles divide with
/// both fraction pairs first lifted to full width, so the quotient is the
/// exact one rounded toward negative infinity; a zero-valued denominator
/// gives infinity (undefined over a zero-valued numerator). The other rules
/// follow Scalar division.
pub open spec fn cdiv_spec(x: Circle, y: Circle) -> Circle {
    let xr = lifted(x.real as int, x.imaginary as int, x.real as int);
    let xi = lifted(x.real as int, x.imaginary as int, x.imaginary as int);
    let yr = lifted(y.real as int, y.imaginary as int, y.real as int);
    let yi = lifted(y.real as int, y.imaginary as int, y.imaginary as int);
    let qr = dq_re(xr, xi, yr, yi);
    let qi = dq_im(xr, xi, yr, yi);
    if x.normal_c() && y.normal_c() {
        if yr == 0 && yi == 0 {
            if xr == 0 && xi == 0 {
                cu(NEGLIGIBLE_DIVIDE_NEGLIGIBLE)
            } else {
                cc(-1i32, -1i32, 0)
            }
        } else {
            cpack_spec(
                qr,
                qi,
                x.k() - y.k() - 33 + msb(x.real as int, x.imaginary as int) - msb(
                    y.real as int,
                    y.imaginary as int,
                ),
            )
        }
    } else if x.undefined_c() {
        x
    } else if y.undefined_c() {
        y
    } else if y.zero_c() {
        if x.zero_c() {
            cu(NEGLIGIBLE_DIVIDE_NEGLIGIBLE)
        } else {
            cc(-1i32, -1i32, 0)
        }
    } else if x.infinite_c() {
        if y.infinite_c() {
            cu(TRANSFINITE_DIVIDE_TRANSFINITE)
        } else {
            cc(-1i32, -1i32, 0)
        }
    } else if x.zero_c() || y.infinite_c() {
        cc(0, 0, 0)
    } else if x.exploded_c() && y.exploded_c() {
        cu(TRANSFINITE_DIVIDE_TRANSFINITE)
    } else if x.n2_c() && y.n2_c() {
        cu(NEGLIGIBLE_DIVIDE_NEGLIGIBLE)
    } else {
        level_spec(qr, qi, if x.n2_c() || y.exploded_c() { 30 } else { 31 })
    }
}

/// Circle divided by Scalar over all states, each part divided by the
/// Scalar (the Circle's fractions lifted first); rules as in `cdiv_spec`.
pub open spec fn cs_div_spec(c: Circle, s: Scalar) -> Circle {
    let xr = lifted(c.real as int, c.imaginary as int, c.real as int);
    let xi = lifted(c.real as int, c.imaginary as int, c.imaginary as int);
    if c.normal_c() && s.normal_s() {
        cpack_spec(
            fdiv(xr * pow2(33), s.w()),
            fdiv(xi * pow2(33), s.w()),
            c.k() - s.k() - 32 + msb(c.real as int, c.imaginary as int) - 31,
        )
    } else if c.undefined_c() {
        c
    } else if s.undefined_s() {
        undefined_into(s)
    } else if s.zero_s() {
        if c.zero_c() {
            cu(NEGLIGIBLE_DIVIDE_NEGLIGIBLE)
        } else {
            cc(-1i32, -1i32, 0)
        }
    } else if c.infinite_c() {
        if s.infinite_s() {
            cu(TRANSFINITE_DIVIDE_TRANSFINITE)
        } else {
            cc(-1i32, -1i32, 0)
        }
    } else if c.zero_c() || s.infinite_s() {
        cc(0, 0, 0)
    } else if c.exploded_c() && s.exploded_s() {
        cu(TRANSFINITE_DIVIDE_TRANSFINITE)
    } else if c.n2_c() && s.vanished_s() {
        cu(NEGLIGIBLE_DIVIDE_NEGLIGIBLE)
    } else {
        level_spec(
            fdiv(xr * pow2(33), sig(s)),
            fdiv(xi * pow2(33), sig(s)),
            if c.n2_c() || s.exploded_s() { 30 } else { 31 },
        )
    }
}

/// Scalar divided by Circle over all states: `s * conj(c) / |c|^2` with the
/// Circle's fractions lifted first; rules as in `cdiv_spec`.
pub open spec fn sc_div_spec(s: Scalar, c: Circle) -> Circle {
    let yr = lifted(c.real as int, c.imaginary as int, c.real as int);
    let yi = lifted(c.real as int, c.imaginary as int, c.imaginary as int);
    if s.normal_s() && c.normal_c() {
        if yr == 0 && yi == 0 {
            cc(-1i32, -1i32, 0)
        } else {
            cpack_spec(
                dq_re(s.w(), 0, yr, yi),
                dq_im(s.w(), 0, yr, yi),
                s.k() - c.k() - 34 - msb(c.real as int, c.imaginary as int) + 31,
            )
        }
    } else if s.undefined_s() {
        undefined_into(s)
    } else if c.undefined_c() {
        c
    } else if c.zero_c() {
        if s.zero_s() {
            cu(NEGLIGIBLE_DIVIDE_NEGLIGIBLE)
        } else {
            cc(-1i32, -1i32, 0)
        }
    } else if s.infinite_s() {
        if c.infinite_c() {
            cu(TRANSFINITE_DIVIDE_TRANSFINITE)
        } else {
            cc(-1i32, -1i32, 0)
        }
    } else if s.zero_s() || c.infinite_c() {
        cc(0, 0, 0)
    } else if s.exploded_s() && c.exploded_c() {
        cu(TRANSFINITE_DIVIDE_TRANSFINITE)
    } else if s.vanished_s() && c.n2_c() {
        cu(NEGLIGIBLE_DIVIDE_NEGLIGIBLE)
    } else {
        level_spec(
            dq_re(sig(s), 0, yr, yi),
            dq_im(sig(s), 0, yr, yi),
            if s.vanished_s() || c.exploded_c() { 30 } else { 31 },
        )
    }
}

proof fn lemma_prod_bound(a: int, b: int, ba: int, bb: int)
    requires
        -ba <= a <= ba,
        -bb <= b <= bb,
    ensures
        -(ba * bb) <= a * b <= ba * bb,
{
    assert(-(ba * bb) <= a * b <= ba * bb) by (nonlinear_arith)
        requires
            -ba <= a <= ba,
            -bb <= b <= bb,
    ;
}

/// Exact complex product of two fraction pairs.
fn cprod(a: i32, b: i32, c: i32, d: i32) -> (r: (i128, i128))
    ensures
        r.0 == a * c - b * d,
        r.1 == a * d + b * c,
        sbits(r.0 as int) <= 64,
        sbits(r.1 as int) <= 64,
{
    proof {
        lemma_prod_bound(a as int, c as int, 0x8000_0000, 0x8000_0000);
        lemma_prod_bound(b as int, d as int, 0x8000_0000, 0x8000_0000);
        lemma_prod_bound(a as int, d as int, 0x8000_0000, 0x8000_0000);
        lemma_prod_bound(b as int, c as int, 0x8000_0000, 0x8000_0000);
    }
    let re = (a as i128) * (c as i128) - (b as i128) * (d as i128);
    let im = (a as i128) * (d as i128) + (b as i128) * (c as i128);
    proof {
        crate::bits::lemma_sbits_64(re as int);
        crate::bits::lemma_sbits_64(im as int);
    }
    (re, im)
}

/// Both fractions of a pair as multiples of one value, with the significand
/// product of an escaped or normal Scalar.
fn scaled_pair(x: i32, y: i32, m: i64) -> (r: (i128, i128))
    requires
        -0x1_0000_0000 <= m <= 0x1_0000_0000,
    ensures
        r.0 == x * m,
        r.1 == y * m,
        sbits(r.0 as int) <= 64,
        sbits(r.1 as int) <= 64,
{
    proof {
        lemma_prod_bound(x as int, m as int, 0x8000_0000, 0x1_0000_0000);
        lemma_prod_bound(y as int, m as int, 0x8000_0000, 0x1_0000_0000);
    }
    let re = (x as i128) * (m as i128);
    let im = (y as i128) * (m as i128);
    proof {
        crate::bits::lemma_sbits_64(re as int);
        crate::bits::lemma_sbits_64(im as int);
    }
    (re, im)
}

impl Circle {
    /// Multiplies by another Circle.
    pub fn circle_multiply_circle(&self, other: &Circle) -> (r: Circle)
        ensures
            r == cmul_spec(*self, *other),
    {
        let (re, im) = cprod(self.real, self.imaginary, other.real, other.imaginary);
        if self.is_normal() && other.is_normal() {
            let ka = logical_exp(self.exponent);
            let kb = logical_exp(other.exponent);
            return cpack(re, im, ka + kb - 60);
        }
        if self.is_undefined() {
            return *self;
        }
        if other.is_undefined() {
            return *other;
        }
        if self.is_infinite() && other.is_zero() {
            return undefined_circle(TRANSFINITE_MULTIPLY_NEGLIGIBLE);
        }
        if self.is_zero() && other.is_infinite() {
            return undefined_circle(NEGLIGIBLE_MULTIPLY_TRANSFINITE);
        }
        if self.is_infinite() || other.is_infinite() {
            return Circle::infinity();
        }
        if self.is_zero() || other.is_zero() {
            return Circle::zero();
        }
        if self.exploded() && other.vanished() {
            return undefined_circle(TRANSFINITE_MULTIPLY_NEGLIGIBLE);
        }
        if self.vanished() && other.exploded() {
            return undefined_circle(NEGLIGIBLE_MULTIPLY_TRANSFINITE);
        }
        let n: u32 = if self.exploded() || other.exploded() {
            31
        } else {
            30
        };
        level(re, im, n)
    }

    /// Multiplies by a Scalar.
    pub fn circle_multiply_scalar(&self, s: &Scalar) -> (r: Circle)
        ensures
            r == cs_mul_spec(*self, *s),
    {
        if self.is_normal() && s.is_normal() {
            let w = s.significand();
            let (re, im) = scaled_pair(self.real, self.imaginary, w);
            let kc = logical_exp(self.exponent);
            let ks = logical_exp(s.exponent);
            return cpack(re, im, kc + ks - 61);
        }
        if self.is_undefined() {
            return *self;
        }
        if s.is_undefined() {
            return Circle { real: s.fraction, imaginary: s.fraction, exponent: s.exponent };
        }
        if self.is_infinite() && s.is_zero() {
            return undefined_circle(TRANSFINITE_MULTIPLY_NEGLIGIBLE);
        }
        if self.is_zero() && s.is_infinite() {
            return undefined_circle(NEGLIGIBLE_MULTIPLY_TRANSFINITE);
        }
        if self.is_infinite() || s.is_infinite() {
            return Circle::infinity();
        }
        if self.is_zero() || s.is_zero() {
            return Circle::zero();
        }
        if self.exploded() && s.vanished() {
            return undefined_circle(TRANSFINITE_MULTIPLY_NEGLIGIBLE);
        }
        if self.vanished() && s.exploded() {
            return undefined_circle(NEGLIGIBLE_MULTIPLY_TRANSFINITE);
        }
        let m = s.significand();
        let (re, im) = scaled_pair(self.real, self.imaginary, m);
        let n: u32 = if self.exploded() || s.exploded() {
            31
        } else {
            30
        };
        level(re, im, n)
    }
}

impl Scalar {
    /// Multiplies a Circle by this Scalar.
    pub fn scalar_multiply_circle(&self, c: &Circle) -> (r: Circle)
        ensures
            r == sc_mul_spec(*self, *c),
    {
        if self.is_normal() && c.is_normal() {
            let w = self.significand();
            let (re, im) = scaled_pair(c.real, c.imaginary, w);
            let kc = logical_exp(c.exponent);
            let ks = logical_exp(self.exponent);
            return cpack(re, im, kc + ks - 61);
        }
        if self.is_undefined() {
            return Circle { real: self.fraction, imaginary: self.fraction, exponent: self.exponent };
        }
        if c.is_undefined() {
            return *c;
        }
        if self.is_infinite() && c.is_zero() {
            return undefined_circle(TRANSFINITE_MULTIPLY_NEGLIGIBLE);
        }
        if self.is_zero() && c.is_infinite() {
            return undefined_circle(NEGLIGIBLE_MULTIPLY_TRANSFINITE);
        }
        if self.is_infinite() || c.is_infinite() {
            return Circle::infinity();
        }
        if self.is_zero() || c.is_zero() {
            return Circle::zero();
        }
        if self.exploded() && c.vanished() {
            return undefined_circle(TRANSFINITE_MULTIPLY_NEGLIGIBLE);
        }
        if self.vanished() && c.exploded() {
            return undefined_circle(NEGLIGIBLE_MULTIPLY_TRANSFINITE);
        }
        let m = self.significand();
        let (re, im) = scaled_pair(c.real, c.imaginary, m);
        let n: u32 = if c.exploded() || self.exploded() {
            31
        } else {
            30
        };
        level(re, im, n)
    }
}


/// Exec form of `lifted` for both fractions of a pair, with `msb`.
fn lift_pair(x: i32, y: i32) -> (r: (i128, i128, i32))
    ensures
        r.0 == lifted(x as int, y as int, x as int),
        r.1 == lifted(x as int, y as int, y as int),
        r.2 == msb(x as int, y as int),
        -0x8000_0000 <= r.0 < 0x8000_0000,
        -0x8000_0000 <= r.1 < 0x8000_0000,
        0 <= r.2 <= 31,
        (x != 0 || y != 0) ==> (r.0 != 0 || r.1 != 0),
{
    let mx = sig_bits(x as i128);
    let my = sig_bits(y as i128);
    let m = if mx >= my {
        mx
    } else {
        my
    };
    proof {
        lemma_pow2_30_32();
        lemma_sbits_le(x as int, 31);
        lemma_sbits_le(y as int, 31);
        lemma_scale_fits(x as int, m as nat, 31);
        lemma_scale_fits(y as int, m as nat, 31);
        crate::bits::lemma_pow2_le(31, 63);
        let p = pow2((31 - m) as nat) as int;
        lemma_pow2_pos((31 - m) as nat);
        assert(x != 0 ==> x * p != 0) by (nonlinear_arith)
            requires
                p > 0,
        ;
        assert(y != 0 ==> y * p != 0) by (nonlinear_arith)
            requires
                p > 0,
        ;
    }
    let a = scale_by(x as i128, m as i32 - 31);
    let b = scale_by(y as i128, m as i32 - 31);
    proof {
        if m == 31 {
            lemma2_to64();
            assert(a as int == x as int / 1);
            assert(b as int == y as int / 1);
        }
    }
    (a, b, m as i32)
}

/// Exec form of `dq_re` and `dq_im`.
fn cquot(xr: i128, xi: i128, yr: i128, yi: i128) -> (r: (i128, i128))
    requires
        -0x1_0000_0000 <= xr <= 0x1_0000_0000,
        -0x1_0000_0000 <= xi <= 0x1_0000_0000,
        -0x8000_0000 <= yr <= 0x8000_0000,
        -0x8000_0000 <= yi <= 0x8000_0000,
        yr != 0 || yi != 0,
    ensures
        r.0 == dq_re(xr as int, xi as int, yr as int, yi as int),
        r.1 == dq_im(xr as int, xi as int, yr as int, yi as int),
        sbits(r.0 as int) <= 100,
        sbits(r.1 as int) <= 100,
{
    proof {
        lemma_prod_bound(xr as int, yr as int, 0x1_0000_0000, 0x8000_0000);
        lemma_prod_bound(xi as int, yi as int, 0x1_0000_0000, 0x8000_0000);
        lemma_prod_bound(xi as int, yr as int, 0x1_0000_0000, 0x8000_0000);
        lemma_prod_bound(xr as int, yi as int, 0x1_0000_0000, 0x8000_0000);
        lemma_prod_bound(yr as int, yr as int, 0x8000_0000, 0x8000_0000);
        lemma_prod_bound(yi as int, yi as int, 0x8000_0000, 0x8000_0000);
        assert(yr * yr + yi * yi > 0) by (nonlinear_arith)
            requires
                yr != 0 || yi != 0,
        ;
        lemma2_to64_rest();
    }
    let d = yr * yr + yi * yi;
    let a = xr * yr + xi * yi;
    let b = xi * yr - xr * yi;
    proof {
        lemma_prod_bound(a as int, 0x2_0000_0000, 0x1_0000_0000_0000_0000, 0x2_0000_0000);
        lemma_prod_bound(b as int, 0x2_0000_0000, 0x1_0000_0000_0000_0000, 0x2_0000_0000);
    }
    let na = a * 0x2_0000_0000;
    let nb = b * 0x2_0000_0000;
    let qa = floor_div(na, d);
    let qb = floor_div(nb, d);
    proof {
        crate::bits::lemma_fdiv_bound(na as int, d as int);
        crate::bits::lemma_fdiv_bound(nb as int, d as int);
        crate::bits::lemma_sbits_100(qa as int);
        crate::bits::lemma_sbits_100(qb as int);
    }
    (qa, qb)
}

/// `x * 2^33 / m` rounded toward negative infinity, for a lifted fraction.
fn squot(x: i128, m: i64) -> (r: i128)
    requires
        -0x8000_0000 <= x <= 0x8000_0000,
        m != 0,
        -0x1_0000_0000 <= m <= 0x1_0000_0000,
    ensures
        r == fdiv(x * pow2(33), m as int),
        sbits(r as int) <= 100,
{
    proof {
        lemma2_to64_rest();
        lemma_prod_bound(x as int, 0x2_0000_0000, 0x8000_0000, 0x2_0000_0000);
    }
    let n = x * 0x2_0000_0000;
    let q = floor_div(n, m as i128);
    proof {
        crate::bits::lemma_fdiv_bound(n as int, m as int);
        crate::bits::lemma_sbits_100(q as int);
    }
    q
}

impl Circle {
    /// Divides by another Circle.
    pub fn circle_divide_circle(&self, other: &Circle) -> (r: Circle)
        ensures
            r == cdiv_spec(*self, *other),
    {
        let (xr, xi, mx) = lift_pair(self.real, self.imaginary);
        let (yr, yi, my) = lift_pair(other.real, other.imaginary);
        if self.is_normal() && other.is_normal() {
            if yr == 0 && yi == 0 {
                if xr == 0 && xi == 0 {
                    return undefined_circle(NEGLIGIBLE_DIVIDE_NEGLIGIBLE);
                }
                return Circle::infinity();
            }
            let (qr, qi) = cquot(xr, xi, yr, yi);
            let ka = logical_exp(self.exponent);
            let kb = logical_exp(other.exponent);
            return cpack(qr, qi, ka - kb - 33 + mx - my);
        }
        if self.is_undefined() {
            return *self;
        }
        if other.is_undefined() {
            return *other;
        }
        if other.is_zero() {
            if self.is_zero() {
                return undefined_circle(NEGLIGIBLE_DIVIDE_NEGLIGIBLE);
            }
            return Circle::infinity();
        }
        if self.is_infinite() {
            if other.is_infinite() {
                return undefined_circle(TRANSFINITE_DIVIDE_TRANSFINITE);
            }
            return Circle::infinity();
        }
        if self.is_zero() || other.is_infinite() {
            return Circle::zero();
        }
        if self.exploded() && other.exploded() {
            return undefined_circle(TRANSFINITE_DIVIDE_TRANSFINITE);
        }
        if self.vanished() && other.vanished() {
            return undefined_circle(NEGLIGIBLE_DIVIDE_NEGLIGIBLE);
        }
        let (qr, qi) = cquot(xr, xi, yr, yi);
        let n: u32 = if self.vanished() || other.exploded() {
            30
        } else {
            31
        };
        level(qr, qi, n)
    }

    /// Divides by a Scalar.
    pub fn circle_divide_scalar(&self, s: &Scalar) -> (r: Circle)
        ensures
            r == cs_div_spec(*self, *s),
    {
        let (xr, xi, mx) = lift_pair(self.real, self.imaginary);
        if self.is_normal() && s.is_normal() {
            let w = s.significand();
            let qr = squot(xr, w);
            let qi = squot(xi, w);
            let kc = logical_exp(self.exponent);
            let ks = logical_exp(s.exponent);
            return cpack(qr, qi, kc - ks - 32 + mx - 31);
        }
        if self.is_undefined() {
            return *self;
        }
        if s.is_undefined() {
            return Circle { real: s.fraction, imaginary: s.fraction, exponent: s.exponent };
        }
        if s.is_zero() {
            if self.is_zero() {
                return undefined_circle(NEGLIGIBLE_DIVIDE_NEGLIGIBLE);
            }
            return Circle::infinity();
        }
        if self.is_infinite() {
            if s.is_infinite() {
                return undefined_circle(TRANSFINITE_DIVIDE_TRANSFINITE);
            }
            return Circle::infinity();
        }
        if self.is_zero() || s.is_infinite() {
            return Circle::zero();
        }
        if self.exploded() && s.exploded() {
            return undefined_circle(TRANSFINITE_DIVIDE_TRANSFINITE);
        }
        if self.vanished() && s.vanished() {
            return undefined_circle(NEGLIGIBLE_DIVIDE_NEGLIGIBLE);
        }
        let m = s.significand();
        let qr = squot(xr, m);
        let qi = squot(xi, m);
        let n: u32 = if self.vanished() || s.exploded() {
            30
        } else {
            31
        };
        level(qr, qi, n)
    }
}

impl Scalar {
    /// Divides this Scalar by a Circle.
    pub fn scalar_divide_circle(&self, c: &Circle) -> (r: Circle)
        ensures
            r == sc_div_spec(*self, *c),
    {
        let (yr, yi, my) = lift_pair(c.real, c.imaginary);
        if self.is_normal() && c.is_normal() {
            if yr == 0 && yi == 0 {
                return Circle::infinity();
            }
            let w = self.significand();
            let (qr, qi) = cquot(w as i128, 0, yr, yi);
            let ks = logical_exp(self.exponent);
            let kc = logical_exp(c.exponent);
            return cpack(qr, qi, ks - kc - 34 - my + 31);
        }
        if self.is_undefined() {
            return Circle { real: self.fraction, imaginary: self.fraction, exponent: self.exponent };
        }
        if c.is_undefined() {
            return *c;
        }
        if c.is_zero() {
            if self.is_zero() {
                return undefined_circle(NEGLIGIBLE_DIVIDE_NEGLIGIBLE);
            }
            return Circle::infinity();
        }
        if self.is_infinite() {
            if c.is_infinite() {
                return undefined_circle(TRANSFINITE_DIVIDE_TRANSFINITE);
            }
            return Circle::infinity();
        }
        if self.is_zero() || c.is_infinite() {
            return Circle::zero();
        }
        if self.exploded() && c.exploded() {
            return undefined_circle(TRANSFINITE_DIVIDE_TRANSFINITE);
        }
        if self.vanished() && c.vanished() {
            return undefined_circle(NEGLIGIBLE_DIVIDE_NEGLIGIBLE);
        }
        let m = self.significand();
        let (qr, qi) = cquot(m as i128, 0, yr, yi);
        let n: u32 = if self.vanished() || c.exploded() {
            30
        } else {
            31
        };
        level(qr, qi, n)
    }
}

/// Square of a Circle: exact and rounded toward negative infinity for a
/// normal Circle; zero, infinity and undefined states are unchanged; an
/// escaped Circle squares to the same escape level.
pub open spec fn csquare_spec(c: Circle) -> Circle {
    let re = c.real * c.real - c.imaginary * c.imaginary;
    let im = c.real * c.imaginary + c.imaginary * c.real;
    if c.normal_c() {
        cpack_spec(re, im, 2 * c.k() - 60)
    } else if c.undefined_c() || c.n0_c() {
        c
    } else {
        level_spec(re, im, if c.exploded_c() { 31 } else { 30 })
    }
}

/// `|c|^2 = r^2 + i^2`: an infinite Circle gives infinity, an exploded or
/// vanished one the sum of its squared fractions at its own escape level,
/// any other the Scalar sum of the squares of its two parts.
pub open spec fn magnitude_squared_spec(c: Circle) -> Scalar {
    let r = part_spec(c, c.real);
    let i = part_spec(c, c.imaginary);
    if !c.normal_c() && c.infinite_c() {
        sc(-1i32, 0i8)
    } else if circle_escaped(c) {
        escaped_spec(c.real * c.real + c.imaginary * c.imaginary, c.exploded_c())
    } else {
        add_spec(square_spec(r), square_spec(i))
    }
}

/// `|c|`, the square root of `magnitude_squared_spec`.
pub open spec fn cmagnitude_spec(c: Circle) -> Scalar {
    if circle_escaped(c) {
        escaped_spec(isqrt(c.real * c.real + c.imaginary * c.imaginary), c.exploded_c())
    } else {
        sqrt_spec(magnitude_squared_spec(c))
    }
}

/// An exploded or vanished Circle.
pub open spec fn circle_escaped(c: Circle) -> bool {
    !c.normal_c() && (c.exploded_c() || c.n2_c())
}

/// Direction of a Circle: zero and infinity have none (undefined), an
/// undefined Circle is unchanged, any other fraction pair is taken at
/// exponent zero and divided by its magnitude.
pub open spec fn csign_spec(c: Circle) -> Circle {
    if c.exponent == 0 && hb(c.real) == hb(c.imaginary) && uniform_frac(c.real) {
        cu(SIGN_INDETERMINATE)
    } else if c.exponent == 0 && hb(c.real) == hb(c.imaginary) && undefined_frac(c.real) {
        c
    } else {
        let u = cc(c.real, c.imaginary, stored_exp(0));
        cs_div_spec(u, cmagnitude_spec(u))
    }
}

impl Circle {
    /// The square of this Circle.
    pub fn square(&self) -> (r: Circle)
        ensures
            r == csquare_spec(*self),
    {
        let (re, im) = cprod(self.real, self.imaginary, self.real, self.imaginary);
        if self.is_normal() {
            let k = logical_exp(self.exponent);
            return cpack(re, im, 2 * k - 60);
        }
        if self.is_undefined() || self.is_n0() {
            return *self;
        }
        let n: u32 = if self.exploded() {
            31
        } else {
            30
        };
        level(re, im, n)
    }

    /// `|c|^2` as a Scalar.
    pub fn magnitude_squared(&self) -> (r: Scalar)
        ensures
            r == magnitude_squared_spec(*self),
    {
        if !self.is_normal() {
            if self.is_infinite() {
                return Scalar::infinity();
            }
            if self.exploded() || self.vanished() {
                let n = escaped_norm(self);
                return Scalar::escaped(n, self.exploded());
            }
        }
        let r = self.r();
        let i = self.i();
        r.square().scalar_add_scalar(&i.square())
    }

    /// `|c|` as a Scalar.
    pub fn magnitude(&self) -> (r: Scalar)
        ensures
            r == cmagnitude_spec(*self),
    {
        if !self.is_normal() && (self.exploded() || self.vanished()) {
            let n = escaped_norm(self);
            let root = crate::roots::isqrt_newton(n as u128);
            proof {
                crate::roots::lemma_isqrt_unique(n as int, root as int);
                let rr = root as int;
                assert(rr > 0) by (nonlinear_arith)
                    requires
                        rr >= 0,
                        n < (rr + 1) * (rr + 1),
                        n > 0,
                        rr * rr <= n,
                ;
                lemma2_to64_rest();
                crate::bits::lemma_sbits_le(rr, 64);
            }
            return Scalar::escaped(root as i128, self.exploded());
        }
        self.magnitude_squared().sqrt()
    }

    /// `1 / c`.
    pub fn reciprocal(&self) -> (r: Circle)
        ensures
            r == sc_div_spec(sc(-0x8000_0000i32, stored_exp(0)), *self),
    {
        Scalar::one().scalar_divide_circle(self)
    }

    /// The unit Circle in the direction of this one.
    pub fn sign(&self) -> (r: Circle)
        ensures
            r == csign_spec(*self),
    {
        if self.exponent == 0 && crate::circle::high_byte(self.real) == crate::circle::high_byte(
            self.imaginary,
        ) {
            let s = self.real;
            if -0x0100_0000 <= s && s < 0x0100_0000 {
                return undefined_circle(SIGN_INDETERMINATE);
            }
            if (0x0100_0000 <= s && s < 0x2000_0000) || (-0x2000_0000 <= s && s < -0x0100_0000) {
                return *self;
            }
        }
        let u = Circle { real: self.real, imaginary: self.imaginary, exponent: stored_exp_of(0) };
        let m = u.magnitude();
        u.circle_divide_scalar(&m)
    }
}
} // verus!
