//! Circles built from two Scalars, and the modulus operations between
//! Circles and Scalars.
use crate::arith::{add_spec, mul_spec, sig};
use crate::bits::{lemma_sbits_le, scale, scale_by};
use crate::circle::{cc, cpack, cpack_spec, level, level_spec, part_spec, Circle};
use crate::circle_arith::{
    cmagnitude_spec, ctrans, cu, magnitude_squared_spec, strans, undefined_into,
};
use crate::modular::mod_spec;
use crate::neg::negate_spec;
use crate::scalar::{lemma_mant, lemma_pow2_30_32, logical_exp, sc, Scalar};
use crate::undefined::{
    GENERAL, MODULO_VANISHED, MODULUS_TRANSFINITE, MODULUS_VANISHED, TRANSFINITE_MODULO,
    TRANSFINITE_MODULUS, TRANSFINITE_MODULUS_TRANSFINITE, VANISHED_MODULUS_VANISHED,
};
use vstd::arithmetic::power2::*;
use vstd::prelude::*;

verus! {

/// Two normal parts at one exponent: the part with the larger exponent (the
/// real one on a tie) sets the scale; the other is aligned to it exactly
/// when they are at most 33 binades apart, and otherwise floored to 64
/// binades below the larger one before the pair is rounded.
pub open spec fn ri_normal_spec(a: Scalar, b: Scalar) -> Circle {
    if a.k() >= b.k() {
        let d = a.k() - b.k();
        if d <= 33 {
            cpack_spec(a.w() * pow2(d as nat), b.w(), b.k() - 31)
        } else {
            let j = if d - 33 > 64 { 64 } else { d - 33 };
            cpack_spec(a.w() * pow2(33), scale(b.w(), j), a.k() - 64)
        }
    } else {
        let d = b.k() - a.k();
        if d <= 33 {
            cpack_spec(a.w(), b.w() * pow2(d as nat), a.k() - 31)
        } else {
            let j = if d - 33 > 64 { 64 } else { d - 33 };
            cpack_spec(scale(a.w(), j), b.w() * pow2(33), b.k() - 64)
        }
    }
}

/// The Circle `a + i b`: an undefined part carries over (the real one
/// first); infinity absorbs; exploded parts dominate and form an exploded
/// Circle; two normal parts are aligned; a zero or vanished part beside a
/// normal one is dropped; vanished parts alone form a vanished Circle.
pub open spec fn from_ri_spec(a: Scalar, b: Scalar) -> Circle {
    if a.undefined_s() {
        undefined_into(a)
    } else if b.undefined_s() {
        undefined_into(b)
    } else if a.infinite_s() || b.infinite_s() {
        cc(-1i32, -1i32, 0)
    } else if a.exploded_s() || b.exploded_s() {
        level_spec(
            if a.exploded_s() { sig(a) } else { 0 },
            if b.exploded_s() { sig(b) } else { 0 },
            31,
        )
    } else if a.normal_s() && b.normal_s() {
        ri_normal_spec(a, b)
    } else if a.normal_s() {
        cpack_spec(a.w(), 0, a.k() - 31)
    } else if b.normal_s() {
        cpack_spec(0, b.w(), b.k() - 31)
    } else if a.vanished_s() || b.vanished_s() {
        level_spec(
            if a.vanished_s() { sig(a) } else { 0 },
            if b.vanished_s() { sig(b) } else { 0 },
            30,
        )
    } else {
        cc(0, 0, 0)
    }
}

/// `a - b` as a Scalar addition of the negation.
pub open spec fn sub_spec(a: Scalar, b: Scalar) -> Scalar {
    add_spec(a, negate_spec(b))
}

/// Complex modulus: `((ac + bd) % |y|^2) + i ((bc - ad) % |y|^2)` from
/// Scalar operations on the parts, for two normal Circles.
pub open spec fn cmod_cc_spec(x: Circle, y: Circle) -> Circle {
    if x.normal_c() && y.normal_c() {
        let m2 = magnitude_squared_spec(y);
        let a = part_spec(x, x.real);
        let b = part_spec(x, x.imaginary);
        let c = part_spec(y, y.real);
        let d = part_spec(y, y.imaginary);
        from_ri_spec(
            mod_spec(add_spec(mul_spec(a, c), mul_spec(b, d)), m2),
            mod_spec(sub_spec(mul_spec(b, c), mul_spec(a, d)), m2),
        )
    } else {
        cmod_escape_spec(x, y)
    }
}

/// Component-wise modulo of two Circles: `(a % c) + i (b % d)`.
pub open spec fn cmodulo_cc_spec(x: Circle, y: Circle) -> Circle {
    if x.normal_c() && y.normal_c() {
        from_ri_spec(
            mod_spec(part_spec(x, x.real), part_spec(y, y.real)),
            mod_spec(part_spec(x, x.imaginary), part_spec(y, y.imaginary)),
        )
    } else {
        cmod_escape_spec(x, y)
    }
}

/// Escaped operands of a Circle-by-Circle modulus: undefined propagates,
/// zero gives zero, a transfinite numerator or a vanished divisor is
/// undefined, and otherwise the numerator is left.
pub open spec fn cmod_escape_spec(x: Circle, y: Circle) -> Circle {
    if x.undefined_c() {
        x
    } else if y.undefined_c() {
        y
    } else if x.zero_c() || y.zero_c() {
        cc(0, 0, 0)
    } else if ctrans(x) {
        cu(TRANSFINITE_MODULUS)
    } else if y.infinite_c() {
        x
    } else if y.n2_c() {
        cu(MODULUS_VANISHED)
    } else {
        x
    }
}

/// `|c| % s` as a Scalar.
pub open spec fn cmod_cs_spec(c: Circle, s: Scalar) -> Scalar {
    if c.normal_c() && s.normal_s() {
        mod_spec(cmagnitude_spec(c), s)
    } else if c.undefined_c() {
        sc(c.real, c.exponent)
    } else if s.undefined_s() {
        s
    } else if c.zero_c() || s.zero_s() {
        sc(0i32, 0i8)
    } else if ctrans(c) {
        if strans(s) {
            sc(TRANSFINITE_MODULUS_TRANSFINITE, 0)
        } else {
            sc(TRANSFINITE_MODULUS, 0)
        }
    } else if s.vanished_s() {
        if c.n2_c() {
            sc(VANISHED_MODULUS_VANISHED, 0)
        } else {
            sc(MODULUS_VANISHED, 0)
        }
    } else if s.infinite_s() {
        sc(MODULUS_TRANSFINITE, 0)
    } else if s.exploded_s() {
        if !s.negative_s() {
            part_spec(c, c.real)
        } else if c.n2_c() {
            s
        } else {
            sc(MODULUS_TRANSFINITE, 0)
        }
    } else if c.n2_c() {
        if !s.negative_s() {
            part_spec(c, c.real)
        } else {
            s
        }
    } else {
        part_spec(c, c.real)
    }
}

/// Component-wise modulo of a Circle by a Scalar: `(a % s) + i (b % s)`.
pub open spec fn cmodulo_cs_spec(c: Circle, s: Scalar) -> Circle {
    if c.normal_c() && s.normal_s() {
        from_ri_spec(mod_spec(part_spec(c, c.real), s), mod_spec(part_spec(c, c.imaginary), s))
    } else if c.undefined_c() {
        c
    } else if s.undefined_s() {
        undefined_into(s)
    } else if c.zero_c() || s.zero_s() {
        cc(0, 0, 0)
    } else if ctrans(c) {
        cu(TRANSFINITE_MODULUS)
    } else if s.infinite_s() {
        c
    } else if s.vanished_s() {
        cu(MODULUS_VANISHED)
    } else {
        cu(GENERAL)
    }
}

/// Modulus of a Scalar by a Circle: `(s c % |c|^2) + i (s d % |c|^2)`.
pub open spec fn smod_sc_spec(s: Scalar, c: Circle) -> Circle {
    let zero = sc(0i32, 0i8);
    if s.normal_s() && c.normal_c() {
        let m2 = magnitude_squared_spec(c);
        from_ri_spec(
            mod_spec(mul_spec(s, part_spec(c, c.real)), m2),
            mod_spec(mul_spec(s, part_spec(c, c.imaginary)), m2),
        )
    } else if s.undefined_s() {
        undefined_into(s)
    } else if c.undefined_c() {
        c
    } else if s.zero_s() || c.zero_c() {
        cc(0, 0, 0)
    } else if strans(s) {
        if ctrans(c) {
            cu(TRANSFINITE_MODULUS_TRANSFINITE)
        } else {
            cu(TRANSFINITE_MODULUS)
        }
    } else if c.n2_c() {
        if s.vanished_s() {
            cu(VANISHED_MODULUS_VANISHED)
        } else {
            cu(MODULUS_VANISHED)
        }
    } else if c.infinite_c() {
        cu(MODULUS_TRANSFINITE)
    } else if c.exploded_c() {
        if !s.negative_s() {
            from_ri_spec(s, zero)
        } else if s.vanished_s() {
            c
        } else {
            cu(MODULUS_TRANSFINITE)
        }
    } else if s.vanished_s() {
        if !s.negative_s() {
            from_ri_spec(s, zero)
        } else {
            c
        }
    } else {
        from_ri_spec(s, zero)
    }
}

/// Component-wise modulo of a Scalar by a Circle: `(s % c) + i (s % d)`.
pub open spec fn smodulo_sc_spec(s: Scalar, c: Circle) -> Circle {
    if s.normal_s() && c.normal_c() {
        from_ri_spec(mod_spec(s, part_spec(c, c.real)), mod_spec(s, part_spec(c, c.imaginary)))
    } else if s.undefined_s() {
        undefined_into(s)
    } else if c.undefined_c() {
        c
    } else if s.zero_s() || c.zero_c() {
        cc(0, 0, 0)
    } else if strans(s) {
        cu(TRANSFINITE_MODULO)
    } else if c.infinite_c() {
        cc(-1i32, -1i32, 0)
    } else if c.n2_c() {
        cu(MODULO_VANISHED)
    } else {
        from_ri_spec(s, s)
    }
}

/// `x * 2^-j` rounded toward negative infinity, for a significand.
fn shift_down(x: i64, j: i32) -> (r: i128)
    requires
        -0x1_0000_0000 <= x <= 0x1_0000_0000,
        0 <= j <= 64,
    ensures
        r == scale(x as int, j as int),
        -0x1_0000_0000 <= r <= 0x1_0000_0000,
{
    proof {
        lemma2_to64();
        lemma_pow2_pos(j as nat);
        lemma_pow2_30_32();
        crate::bits::lemma_fdiv_bound(x as int, pow2(j as nat) as int);
        assert(crate::bits::fdiv(x as int, pow2(j as nat) as int) == x as int / pow2(j as nat) as int);
        lemma2_to64_rest();
    }
    scale_by(x as i128, j)
}

impl Circle {
    /// The Circle with real part `re` and imaginary part `im`.
    pub fn from_ri(re: &Scalar, im: &Scalar) -> (r: Circle)
        ensures
            r == from_ri_spec(*re, *im),
    {
        proof {
            lemma_pow2_30_32();
            lemma_mant(re.fraction);
            lemma_mant(im.fraction);
        }
        if re.is_undefined() {
            return Circle { real: re.fraction, imaginary: re.fraction, exponent: re.exponent };
        }
        if im.is_undefined() {
            return Circle { real: im.fraction, imaginary: im.fraction, exponent: im.exponent };
        }
        if re.is_infinite() || im.is_infinite() {
            return Circle::infinity();
        }
        if re.exploded() || im.exploded() {
            let x: i64 = if re.exploded() {
                re.significand()
            } else {
                0
            };
            let y: i64 = if im.exploded() {
                im.significand()
            } else {
                0
            };
            proof {
                crate::bits::lemma_sbits_64(x as int);
                crate::bits::lemma_sbits_64(y as int);
            }
            return level(x as i128, y as i128, 31);
        }
        if re.is_normal() && im.is_normal() {
            let wa = re.significand();
            let wb = im.significand();
            let ka = logical_exp(re.exponent);
            let kb = logical_exp(im.exponent);
            proof {
                lemma2_to64_rest();
            }
            if ka >= kb {
                let d = ka - kb;
                if d <= 33 {
                    let p = crate::bits::pow2_u128(d as u32);
                    proof {
                        crate::bits::lemma_pow2_le(d as nat, 33);
                        lemma_pow2_pos(d as nat);
                        assert(-0x2_0000_0000_0000_0000 <= wa * p <= 0x2_0000_0000_0000_0000)
                            by (nonlinear_arith)
                            requires
                                -0x1_0000_0000 <= wa <= 0x1_0000_0000,
                                0 < p <= 0x2_0000_0000,
                        ;
                    }
                    let x = (wa as i128) * (p as i128);
                    proof {
                        crate::bits::lemma_sbits_100(x as int);
                        crate::bits::lemma_sbits_64(wb as int);
                    }
                    return cpack(x, wb as i128, kb - 31);
                } else {
                    let j: i32 = if d - 33 > 64 {
                        64
                    } else {
                        d - 33
                    };
                    let y = shift_down(wb, j);
                    let x = (wa as i128) * 0x2_0000_0000;
                    proof {
                        crate::bits::lemma_sbits_100(x as int);
                        crate::bits::lemma_sbits_64(y as int);
                    }
                    return cpack(x, y, ka - 64);
                }
            } else {
                let d = kb - ka;
                if d <= 33 {
                    let p = crate::bits::pow2_u128(d as u32);
                    proof {
                        crate::bits::lemma_pow2_le(d as nat, 33);
                        lemma_pow2_pos(d as nat);
                        assert(-0x2_0000_0000_0000_0000 <= wb * p <= 0x2_0000_0000_0000_0000)
                            by (nonlinear_arith)
                            requires
                                -0x1_0000_0000 <= wb <= 0x1_0000_0000,
                                0 < p <= 0x2_0000_0000,
                        ;
                    }
                    let y = (wb as i128) * (p as i128);
                    proof {
                        crate::bits::lemma_sbits_100(y as int);
                        crate::bits::lemma_sbits_64(wa as int);
                    }
                    return cpack(wa as i128, y, ka - 31);
                } else {
                    let j: i32 = if d - 33 > 64 {
                        64
                    } else {
                        d - 33
                    };
                    let x = shift_down(wa, j);
                    let y = (wb as i128) * 0x2_0000_0000;
                    proof {
                        crate::bits::lemma_sbits_100(y as int);
                        crate::bits::lemma_sbits_64(x as int);
                    }
                    return cpack(x, y, kb - 64);
                }
            }
        }
        if re.is_normal() {
            let wa = re.significand();
            proof {
                crate::bits::lemma_sbits_64(wa as int);
                crate::bits::lemma_sbits_64(0);
            }
            return cpack(wa as i128, 0, logical_exp(re.exponent) - 31);
        }
        if im.is_normal() {
            let wb = im.significand();
            proof {
                crate::bits::lemma_sbits_64(wb as int);
                crate::bits::lemma_sbits_64(0);
            }
            return cpack(0, wb as i128, logical_exp(im.exponent) - 31);
        }
        if re.vanished() || im.vanished() {
            let x: i64 = if re.vanished() {
                re.significand()
            } else {
                0
            };
            let y: i64 = if im.vanished() {
                im.significand()
            } else {
                0
            };
            proof {
                crate::bits::lemma_sbits_64(x as int);
                crate::bits::lemma_sbits_64(y as int);
            }
            return level(x as i128, y as i128, 30);
        }
        Circle::zero()
    }
}


/// Exec form of `sub_spec`.
pub(crate) fn subtract(a: &Scalar, b: &Scalar) -> (r: Scalar)
    ensures
        r == sub_spec(*a, *b),
{
    let mut nb = *b;
    nb.scalar_negate();
    a.scalar_add_scalar(&nb)
}

impl Circle {
    fn mod_escape(&self, y: &Circle) -> (r: Circle)
        ensures
            r == cmod_escape_spec(*self, *y),
    {
        if self.is_undefined() {
            return *self;
        }
        if y.is_undefined() {
            return *y;
        }
        if self.is_zero() || y.is_zero() {
            return Circle::zero();
        }
        if !self.is_normal() && (self.is_n1() || (self.real == -1 && self.imaginary == -1)) {
            return Circle { real: TRANSFINITE_MODULUS, imaginary: TRANSFINITE_MODULUS, exponent: 0 };
        }
        if y.is_infinite() {
            return *self;
        }
        if y.vanished() {
            return Circle { real: MODULUS_VANISHED, imaginary: MODULUS_VANISHED, exponent: 0 };
        }
        *self
    }

    /// Complex modulus by another Circle.
    pub fn circle_modulus_circle(&self, y: &Circle) -> (r: Circle)
        ensures
            r == cmod_cc_spec(*self, *y),
    {
        if self.is_normal() && y.is_normal() {
            let m2 = y.magnitude_squared();
            let a = self.r();
            let b = self.i();
            let c = y.r();
            let d = y.i();
            let re = a.scalar_multiply_scalar(&c).scalar_add_scalar(&b.scalar_multiply_scalar(&d));
            let im = subtract(&b.scalar_multiply_scalar(&c), &a.scalar_multiply_scalar(&d));
            return Circle::from_ri(
                &re.scalar_modulus_scalar(&m2),
                &im.scalar_modulus_scalar(&m2),
            );
        }
        self.mod_escape(y)
    }

    /// Component-wise modulo by another Circle.
    pub fn circle_modulo_circle(&self, y: &Circle) -> (r: Circle)
        ensures
            r == cmodulo_cc_spec(*self, *y),
    {
        if self.is_normal() && y.is_normal() {
            return Circle::from_ri(
                &self.r().scalar_modulus_scalar(&y.r()),
                &self.i().scalar_modulus_scalar(&y.i()),
            );
        }
        self.mod_escape(y)
    }

    /// `|c| % s`.
    pub fn circle_modulus_scalar(&self, s: &Scalar) -> (r: Scalar)
        ensures
            r == cmod_cs_spec(*self, *s),
    {
        if self.is_normal() && s.is_normal() {
            return self.magnitude().scalar_modulus_scalar(s);
        }
        if self.is_undefined() {
            return Scalar { fraction: self.real, exponent: self.exponent };
        }
        if s.is_undefined() {
            return *s;
        }
        if self.is_zero() || s.is_zero() {
            return Scalar::zero();
        }
        if !self.is_normal() && (self.is_n1() || (self.real == -1 && self.imaginary == -1)) {
            if s.is_transfinite() {
                return Scalar { fraction: TRANSFINITE_MODULUS_TRANSFINITE, exponent: 0 };
            }
            return Scalar { fraction: TRANSFINITE_MODULUS, exponent: 0 };
        }
        if s.vanished() {
            if self.vanished() {
                return Scalar { fraction: VANISHED_MODULUS_VANISHED, exponent: 0 };
            }
            return Scalar { fraction: MODULUS_VANISHED, exponent: 0 };
        }
        if s.is_infinite() {
            return Scalar { fraction: MODULUS_TRANSFINITE, exponent: 0 };
        }
        if s.exploded() {
            if !s.is_negative() {
                return self.r();
            }
            if self.vanished() {
                return *s;
            }
            return Scalar { fraction: MODULUS_TRANSFINITE, exponent: 0 };
        }
        if self.vanished() {
            if !s.is_negative() {
                return self.r();
            }
            return *s;
        }
        self.r()
    }

    /// Component-wise modulo by a Scalar.
    pub fn circle_modulo_scalar(&self, s: &Scalar) -> (r: Circle)
        ensures
            r == cmodulo_cs_spec(*self, *s),
    {
        if self.is_normal() && s.is_normal() {
            return Circle::from_ri(
                &self.r().scalar_modulus_scalar(s),
                &self.i().scalar_modulus_scalar(s),
            );
        }
        if self.is_undefined() {
            return *self;
        }
        if s.is_undefined() {
            return Circle { real: s.fraction, imaginary: s.fraction, exponent: s.exponent };
        }
        if self.is_zero() || s.is_zero() {
            return Circle::zero();
        }
        if !self.is_normal() && (self.is_n1() || (self.real == -1 && self.imaginary == -1)) {
            return Circle { real: TRANSFINITE_MODULUS, imaginary: TRANSFINITE_MODULUS, exponent: 0 };
        }
        if s.is_infinite() {
            return *self;
        }
        if s.vanished() {
            return Circle { real: MODULUS_VANISHED, imaginary: MODULUS_VANISHED, exponent: 0 };
        }
        Circle { real: GENERAL, imaginary: GENERAL, exponent: 0 }
    }
}

impl Scalar {
    /// Modulus by a Circle.
    pub fn scalar_modulus_circle(&self, c: &Circle) -> (r: Circle)
        ensures
            r == smod_sc_spec(*self, *c),
    {
        let zero = Scalar::zero();
        if self.is_normal() && c.is_normal() {
            let m2 = c.magnitude_squared();
            let re = self.scalar_multiply_scalar(&c.r()).scalar_modulus_scalar(&m2);
            let im = self.scalar_multiply_scalar(&c.i()).scalar_modulus_scalar(&m2);
            return Circle::from_ri(&re, &im);
        }
        if self.is_undefined() {
            return Circle { real: self.fraction, imaginary: self.fraction, exponent: self.exponent };
        }
        if c.is_undefined() {
            return *c;
        }
        if self.is_zero() || c.is_zero() {
            return Circle::zero();
        }
        let ct = !c.is_normal() && (c.is_n1() || (c.real == -1 && c.imaginary == -1));
        if self.is_transfinite() {
            let code = if ct {
                TRANSFINITE_MODULUS_TRANSFINITE
            } else {
                TRANSFINITE_MODULUS
            };
            return Circle { real: code, imaginary: code, exponent: 0 };
        }
        if c.vanished() {
            let code = if self.vanished() {
                VANISHED_MODULUS_VANISHED
            } else {
                MODULUS_VANISHED
            };
            return Circle { real: code, imaginary: code, exponent: 0 };
        }
        if c.is_infinite() {
            return Circle { real: MODULUS_TRANSFINITE, imaginary: MODULUS_TRANSFINITE, exponent: 0 };
        }
        if c.exploded() {
            if !self.is_negative() {
                return Circle::from_ri(self, &zero);
            }
            if self.vanished() {
                return *c;
            }
            return Circle { real: MODULUS_TRANSFINITE, imaginary: MODULUS_TRANSFINITE, exponent: 0 };
        }
        if self.vanished() {
            if !self.is_negative() {
                return Circle::from_ri(self, &zero);
            }
            return *c;
        }
        Circle::from_ri(self, &zero)
    }

    /// Component-wise modulo by a Circle.
    pub fn scalar_modulo_circle(&self, c: &Circle) -> (r: Circle)
        ensures
            r == smodulo_sc_spec(*self, *c),
    {
        if self.is_normal() && c.is_normal() {
            return Circle::from_ri(
                &self.scalar_modulus_scalar(&c.r()),
                &self.scalar_modulus_scalar(&c.i()),
            );
        }
        if self.is_undefined() {
            return Circle { real: self.fraction, imaginary: self.fraction, exponent: self.exponent };
        }
        if c.is_undefined() {
            return *c;
        }
        if self.is_zero() || c.is_zero() {
            return Circle::zero();
        }
        if self.is_transfinite() {
            return Circle { real: TRANSFINITE_MODULO, imaginary: TRANSFINITE_MODULO, exponent: 0 };
        }
        if c.is_infinite() {
            return Circle::infinity();
        }
        if c.vanished() {
            return Circle { real: MODULO_VANISHED, imaginary: MODULO_VANISHED, exponent: 0 };
        }
        Circle::from_ri(self, self)
    }
}
} // verus!
