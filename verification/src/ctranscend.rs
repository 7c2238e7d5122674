//! Logarithms, exponentials and powers involving Circles.
//!
//! This library has no trigonometric routines. Where a result needs the
//! argument of a Circle (`atan2(im, re)`) or the cosine and sine of an
//! angle, the caller supplies them: as values where they are angles of the
//! inputs themselves, as functions where they are angles of intermediate
//! results. Every other part of each result is computed and specified here.
use crate::arith::mul_spec;
use crate::bits::floor_shr;
use crate::cexponents::{cinteger_power_spec, cone_spec};
use crate::circle::{cc, part_spec, Circle};
use crate::circle_arith::{
    cdiv_spec, cmagnitude_spec, cmul_spec, cs_div_spec, cs_mul_spec, cu, undefined_into,
};
use crate::cmodular::from_ri_spec;
use crate::exponents::{exp_spec, integer_power_spec, ln_spec, one_spec};
use crate::neg::magnitude_spec;
use crate::order::gt_spec;
use crate::rounding::integer_spec;
use crate::scalar::{sc, stored_exp, stored_exp_of, Scalar};
use crate::undefined::{
    LOG_NEGATIVE, LOG_NEGLIGIBLE, LOG_TRANSFINITE, NEGATIVE_LOG, NEGATIVE_POWER, NEGLIGIBLE_LOG,
    NEGLIGIBLE_POWER, POWER_NEGLIGIBLE, POWER_TRANSFINITE, POWER_VANISHED, TRANSFINITE_LOG,
    TRANSFINITE_POWER, VANISHED_POWER,
};
use vstd::prelude::*;

verus! {

/// The real part of a Circle as a Scalar.
pub open spec fn re_part(c: Circle) -> Scalar {
    part_spec(c, c.real)
}

/// The imaginary part of a Circle as a Scalar.
pub open spec fn im_part(c: Circle) -> Scalar {
    part_spec(c, c.imaginary)
}

/// Natural logarithm of `z`, given its argument `angle`: undefined states
/// propagate; zero and infinity give infinity; escaped values are
/// undefined (vanished: negligible log, exploded: transfinite log);
/// otherwise `ln|z| + i angle`.
pub open spec fn cln_spec(z: Circle, angle: Scalar) -> Circle {
    if !z.normal_c() && z.undefined_c() {
        z
    } else if !z.normal_c() && (z.zero_c() || z.infinite_c()) {
        cc(-1i32, -1i32, 0)
    } else if !z.normal_c() && z.n2_c() {
        cu(NEGLIGIBLE_LOG)
    } else if !z.normal_c() && z.exploded_c() {
        cu(TRANSFINITE_LOG)
    } else {
        from_ri_spec(ln_spec(cmagnitude_spec(z)), angle)
    }
}

/// `e^z`, given the cosine and sine of its imaginary part: undefined
/// states propagate; zero and vanished values give one; an exploded value
/// gives zero when its real fraction is negative and is undefined
/// otherwise; infinity stays; otherwise `e^re * (cos + i sin)`.
pub open spec fn cexp_spec(z: Circle, cos_im: Scalar, sin_im: Scalar) -> Circle {
    let e = exp_spec(re_part(z));
    if !z.normal_c() && z.undefined_c() {
        z
    } else if !z.normal_c() && (z.zero_c() || z.n2_c()) {
        cone_spec()
    } else if !z.normal_c() && z.exploded_c() {
        if z.real < 0 {
            cc(0i32, 0i32, 0)
        } else {
            cu(POWER_TRANSFINITE)
        }
    } else if !z.normal_c() && z.infinite_c() {
        cc(-1i32, -1i32, 0)
    } else {
        from_ri_spec(mul_spec(e, cos_im), mul_spec(e, sin_im))
    }
}

/// `log_b(z)` for Circles, given the arguments of `z` and `b`.
pub open spec fn clog_cc_spec(z: Circle, b: Circle, z_angle: Scalar, b_angle: Scalar) -> Circle {
    if !z.normal_c() && z.undefined_c() {
        z
    } else if !b.normal_c() && b.undefined_c() {
        b
    } else if (!z.normal_c() || !b.normal_c()) && z.zero_c() {
        cu(NEGLIGIBLE_LOG)
    } else if (!z.normal_c() || !b.normal_c()) && b.zero_c() {
        cu(LOG_NEGLIGIBLE)
    } else if z.exploded_c() {
        cu(TRANSFINITE_LOG)
    } else if (!z.normal_c() || !b.normal_c()) && z.n2_c() {
        cu(NEGLIGIBLE_LOG)
    } else if b.exploded_c() {
        cu(LOG_TRANSFINITE)
    } else if (!z.normal_c() || !b.normal_c()) && b.n2_c() {
        cu(LOG_NEGLIGIBLE)
    } else {
        cdiv_spec(cln_spec(z, z_angle), cln_spec(b, b_angle))
    }
}

/// `log_b(z)` for a Circle `z` and a Scalar base, given the argument of `z`.
pub open spec fn clog_cs_spec(z: Circle, b: Scalar, z_angle: Scalar) -> Circle {
    if !z.normal_c() && z.undefined_c() {
        z
    } else if b.undefined_s() {
        undefined_into(b)
    } else if (!z.normal_c() || !b.normal_s()) && z.zero_c() {
        cu(NEGLIGIBLE_LOG)
    } else if b.zero_s() {
        cu(LOG_NEGLIGIBLE)
    } else if z.exploded_c() {
        cu(TRANSFINITE_LOG)
    } else if (!z.normal_c() || !b.normal_s()) && z.n2_c() {
        cu(NEGLIGIBLE_LOG)
    } else if b.exploded_s() {
        cu(LOG_TRANSFINITE)
    } else if b.vanished_s() {
        cu(LOG_NEGLIGIBLE)
    } else if b.negative_s() {
        cu(LOG_NEGATIVE)
    } else {
        cs_div_spec(cln_spec(z, z_angle), ln_spec(b))
    }
}

/// `log_b(x)` for a Scalar `x` and a Circle base, given the argument of `b`.
pub open spec fn clog_sc_spec(x: Scalar, b: Circle, b_angle: Scalar) -> Circle {
    if x.undefined_s() {
        undefined_into(x)
    } else if !b.normal_c() && b.undefined_c() {
        b
    } else if x.zero_s() {
        cu(NEGLIGIBLE_LOG)
    } else if (!x.normal_s() || !b.normal_c()) && b.zero_c() {
        cu(LOG_NEGLIGIBLE)
    } else if x.exploded_s() {
        cu(TRANSFINITE_LOG)
    } else if x.vanished_s() {
        cu(NEGLIGIBLE_LOG)
    } else if b.exploded_c() {
        cu(LOG_TRANSFINITE)
    } else if (!x.normal_s() || !b.normal_c()) && b.n2_c() {
        cu(LOG_NEGLIGIBLE)
    } else if x.negative_s() {
        cu(NEGATIVE_LOG)
    } else {
        crate::circle_arith::sc_div_spec(ln_spec(x), cln_spec(b, b_angle))
    }
}

impl Circle {
    /// Natural logarithm `ln|z| + i angle`, where `angle` is the argument of
    /// `self`, `atan2(im, re)`, supplied by the caller.
    pub fn ln(&self, angle: &Scalar) -> (r: Circle)
        ensures
            r == cln_spec(*self, *angle),
    {
        if !self.is_normal() {
            if self.is_undefined() {
                return *self;
            }
            if self.is_zero() || self.is_infinite() {
                return Circle::infinity();
            }
            if self.vanished() {
                return Circle { real: NEGLIGIBLE_LOG, imaginary: NEGLIGIBLE_LOG, exponent: 0 };
            }
            if self.exploded() {
                return Circle { real: TRANSFINITE_LOG, imaginary: TRANSFINITE_LOG, exponent: 0 };
            }
        }
        Circle::from_ri(&self.magnitude().ln(), angle)
    }

    /// `e^self = e^re * (cos im + i sin im)`, where `cos_im` and `sin_im`
    /// are the cosine and sine of the imaginary part `self.i()`, supplied by
    /// the caller.
    pub fn exp(&self, cos_im: &Scalar, sin_im: &Scalar) -> (r: Circle)
        ensures
            r == cexp_spec(*self, *cos_im, *sin_im),
    {
        if !self.is_normal() {
            if self.is_undefined() {
                return *self;
            }
            if self.is_zero() || self.vanished() {
                return Circle::one();
            }
            if self.exploded() {
                if self.real < 0 {
                    return Circle::zero();
                }
                return Circle {
                    real: POWER_TRANSFINITE,
                    imaginary: POWER_TRANSFINITE,
                    exponent: 0,
                };
            }
            if self.is_infinite() {
                return Circle::infinity();
            }
        }
        let e = self.r().exp();
        Circle::from_ri(&e.scalar_multiply_scalar(cos_im), &e.scalar_multiply_scalar(sin_im))
    }

    /// `log_base(self)` for two Circles, given the argument of each.
    pub fn circle_logarithm_circle(&self, base: &Circle, angle: &Scalar, base_angle: &Scalar) -> (r:
        Circle)
        ensures
            r == clog_cc_spec(*self, *base, *angle, *base_angle),
    {
        if !self.is_normal() || !base.is_normal() {
            if self.is_undefined() {
                return *self;
            }
            if base.is_undefined() {
                return *base;
            }
            if self.is_zero() {
                return Circle { real: NEGLIGIBLE_LOG, imaginary: NEGLIGIBLE_LOG, exponent: 0 };
            }
            if base.is_zero() {
                return Circle { real: LOG_NEGLIGIBLE, imaginary: LOG_NEGLIGIBLE, exponent: 0 };
            }
            if self.exploded() {
                return Circle { real: TRANSFINITE_LOG, imaginary: TRANSFINITE_LOG, exponent: 0 };
            }
            if self.vanished() {
                return Circle { real: NEGLIGIBLE_LOG, imaginary: NEGLIGIBLE_LOG, exponent: 0 };
            }
            if base.exploded() {
                return Circle { real: LOG_TRANSFINITE, imaginary: LOG_TRANSFINITE, exponent: 0 };
            }
            if base.vanished() {
                return Circle { real: LOG_NEGLIGIBLE, imaginary: LOG_NEGLIGIBLE, exponent: 0 };
            }
        }
        self.ln(angle).circle_divide_circle(&base.ln(base_angle))
    }

    /// `log_base(self)` for a Scalar base, given the argument of `self`.
    pub fn circle_logarithm_scalar(&self, base: &Scalar, angle: &Scalar) -> (r: Circle)
        ensures
            r == clog_cs_spec(*self, *base, *angle),
    {
        if !self.is_normal() || !base.is_normal() {
            if self.is_undefined() {
                return *self;
            }
            if base.is_undefined() {
                return Circle { real: base.fraction, imaginary: base.fraction, exponent: base.exponent };
            }
            if self.is_zero() {
                return Circle { real: NEGLIGIBLE_LOG, imaginary: NEGLIGIBLE_LOG, exponent: 0 };
            }
            if base.is_zero() {
                return Circle { real: LOG_NEGLIGIBLE, imaginary: LOG_NEGLIGIBLE, exponent: 0 };
            }
            if self.exploded() {
                return Circle { real: TRANSFINITE_LOG, imaginary: TRANSFINITE_LOG, exponent: 0 };
            }
            if self.vanished() {
                return Circle { real: NEGLIGIBLE_LOG, imaginary: NEGLIGIBLE_LOG, exponent: 0 };
            }
            if base.exploded() {
                return Circle { real: LOG_TRANSFINITE, imaginary: LOG_TRANSFINITE, exponent: 0 };
            }
            if base.vanished() {
                return Circle { real: LOG_NEGLIGIBLE, imaginary: LOG_NEGLIGIBLE, exponent: 0 };
            }
        }
        if base.is_negative() {
            return Circle { real: LOG_NEGATIVE, imaginary: LOG_NEGATIVE, exponent: 0 };
        }
        self.ln(angle).circle_divide_scalar(&base.ln())
    }
}

impl Scalar {
    /// `log_base(self)` for a Circle base, given the argument of `base`.
    pub fn scalar_logarithm_circle(&self, base: &Circle, base_angle: &Scalar) -> (r: Circle)
        ensures
            r == clog_sc_spec(*self, *base, *base_angle),
    {
        if !self.is_normal() || !base.is_normal() {
            if self.is_undefined() {
                return Circle { real: self.fraction, imaginary: self.fraction, exponent: self.exponent };
            }
            if base.is_undefined() {
                return *base;
            }
            if self.is_zero() {
                return Circle { real: NEGLIGIBLE_LOG, imaginary: NEGLIGIBLE_LOG, exponent: 0 };
            }
            if base.is_zero() {
                return Circle { real: LOG_NEGLIGIBLE, imaginary: LOG_NEGLIGIBLE, exponent: 0 };
            }
            if self.exploded() {
                return Circle { real: TRANSFINITE_LOG, imaginary: TRANSFINITE_LOG, exponent: 0 };
            }
            if self.vanished() {
                return Circle { real: NEGLIGIBLE_LOG, imaginary: NEGLIGIBLE_LOG, exponent: 0 };
            }
            if base.exploded() {
                return Circle { real: LOG_TRANSFINITE, imaginary: LOG_TRANSFINITE, exponent: 0 };
            }
            if base.vanished() {
                return Circle { real: LOG_NEGLIGIBLE, imaginary: LOG_NEGLIGIBLE, exponent: 0 };
            }
        }
        if self.is_negative() {
            return Circle { real: NEGATIVE_LOG, imaginary: NEGATIVE_LOG, exponent: 0 };
        }
        self.ln().scalar_divide_circle(&base.ln(base_angle))
    }
}

/// The direction of an escaped Circle as a normal Circle near the unit
/// circle: its fractions at the exploded level (doubled from the vanished
/// level), with the exponent of one.
pub open spec fn escaped_direction_spec(z: Circle, exploded: bool) -> Circle {
    if exploded {
        cc(z.real, z.imaginary, stored_exp(0))
    } else {
        cc((2 * z.real) as i32, (2 * z.imaginary) as i32, stored_exp(0))
    }
}

/// An escaped Circle raised to a non-integer power `p` with `|p| > 1`,
/// given the cosine and sine of the rotated angle: the unit direction
/// `cos + i sin` when that is not normal; otherwise that direction at the
/// exploded level when the result explodes (the base's class for `p > 0`,
/// the other class for `p < 0`), or halved to the vanished level.
pub open spec fn rotate_spec(p: Scalar, base_exploded: bool, cos_phi: Scalar, sin_phi: Scalar) -> Circle {
    let unit = from_ri_spec(cos_phi, sin_phi);
    let result_exploded = if p.positive_s() {
        base_exploded
    } else {
        !base_exploded
    };
    if !unit.normal_c() {
        unit
    } else if result_exploded {
        cc(unit.real, unit.imaginary, 0)
    } else {
        cc((unit.real as int / 2) as i32, (unit.imaginary as int / 2) as i32, 0)
    }
}

/// `z^p` (Circle base, Scalar exponent) takes the escaped rotation: an
/// escaped base with a normal, non-integer exponent of magnitude above one.
pub open spec fn cps_rotates(z: Circle, p: Scalar) -> bool {
    &&& !z.normal_c()
    &&& !z.undefined_c()
    &&& !z.zero_c()
    &&& z.exploded_c() || z.n2_c()
    &&& p.normal_s()
    &&& !integer_spec(p)
    &&& gt_spec(magnitude_spec(p), one_spec())
}

/// `z^p` goes through `e^(p ln z)`: both normal, `p` not an integer.
pub open spec fn cps_logexp(z: Circle, p: Scalar) -> bool {
    z.normal_c() && p.normal_s() && !integer_spec(p)
}

/// `z^p` where neither the rotation nor `e^(p ln z)` is needed: undefined
/// states propagate; `z^0 = 1`; `0^p` is zero or infinity by the sign of
/// `p`; an integer `p` raises by squaring; an escaped base with a small
/// non-integer exponent is undefined; infinity gives zero or infinity by
/// the sign of `p`; a non-normal exponent is otherwise undefined.
pub open spec fn cps_exact(z: Circle, p: Scalar) -> Circle {
    let escaped_exponent = cu(
        if p.vanished_s() {
            POWER_VANISHED
        } else {
            POWER_TRANSFINITE
        },
    );
    if z.normal_c() && p.normal_s() {
        cinteger_power_spec(z, p)
    } else if z.undefined_c() {
        z
    } else if p.undefined_s() {
        undefined_into(p)
    } else if p.zero_s() {
        cone_spec()
    } else if z.zero_c() {
        if p.negative_s() {
            cc(-1i32, -1i32, 0)
        } else {
            cc(0i32, 0i32, 0)
        }
    } else if z.exploded_c() || z.n2_c() {
        if p.normal_s() {
            if integer_spec(p) {
                cinteger_power_spec(z, p)
            } else if z.exploded_c() {
                cu(TRANSFINITE_POWER)
            } else {
                cu(VANISHED_POWER)
            }
        } else {
            escaped_exponent
        }
    } else if z.infinite_c() {
        if p.negative_s() {
            cc(0i32, 0i32, 0)
        } else {
            cc(-1i32, -1i32, 0)
        }
    } else {
        escaped_exponent
    }
}

/// `z^w` for Circles goes through `e^(w ln z)`: both normal, `w` not a
/// real integer.
pub open spec fn cpc_logexp(z: Circle, w: Circle) -> bool {
    z.normal_c() && w.normal_c() && !(im_part(w).zero_s() && integer_spec(re_part(w)))
}

/// `z^w` for Circles where `e^(w ln z)` is not needed: undefined states
/// propagate; `0^w` is zero when `w`'s real fraction is positive and
/// undefined otherwise; escaped bases and non-normal exponents are
/// undefined (each with its cause); a real integer `w` raises by squaring.
pub open spec fn cpc_exact(z: Circle, w: Circle) -> Circle {
    if z.normal_c() && w.normal_c() {
        cinteger_power_spec(z, re_part(w))
    } else if z.undefined_c() {
        z
    } else if w.undefined_c() {
        w
    } else if z.zero_c() {
        if w.real > 0 {
            cc(0i32, 0i32, 0)
        } else {
            cu(NEGLIGIBLE_POWER)
        }
    } else if z.exploded_c() {
        cu(TRANSFINITE_POWER)
    } else if z.n2_c() {
        cu(NEGLIGIBLE_POWER)
    } else if w.exploded_c() {
        cu(POWER_TRANSFINITE)
    } else {
        cu(POWER_NEGLIGIBLE)
    }
}

/// `x^w` (Scalar base, Circle exponent) goes through `e^(w ln x)`: both
/// normal, `x` positive, `w` not a real integer.
pub open spec fn spc_logexp(x: Scalar, w: Circle) -> bool {
    &&& x.normal_s()
    &&& w.normal_c()
    &&& !x.negative_s()
    &&& !(im_part(w).zero_s() && integer_spec(re_part(w)))
}

/// `x^w` where `e^(w ln x)` is not needed: as for two Circles, except that
/// a negative base is undefined and a real integer `w` raises the Scalar by
/// squaring, placed on the real axis.
pub open spec fn spc_exact(x: Scalar, w: Circle) -> Circle {
    if x.normal_s() && w.normal_c() {
        if x.negative_s() {
            cu(NEGATIVE_POWER)
        } else {
            from_ri_spec(integer_power_spec(x, re_part(w)), sc(0i32, 0i8))
        }
    } else if x.undefined_s() {
        undefined_into(x)
    } else if w.undefined_c() {
        w
    } else if x.zero_s() {
        if w.real > 0 {
            cc(0i32, 0i32, 0)
        } else {
            cu(NEGLIGIBLE_POWER)
        }
    } else if x.exploded_s() {
        cu(TRANSFINITE_POWER)
    } else if x.vanished_s() {
        cu(NEGLIGIBLE_POWER)
    } else if w.exploded_c() {
        cu(POWER_TRANSFINITE)
    } else {
        cu(POWER_NEGLIGIBLE)
    }
}

/// `p ln z`, the exponent whose exponential is `z^p`, given the argument of `z`.
pub open spec fn cps_step(z: Circle, p: Scalar, angle: Scalar) -> Circle {
    cs_mul_spec(cln_spec(z, angle), p)
}

fn escaped_direction(z: &Circle, exploded: bool) -> (d: Circle)
    requires
        exploded == z.exploded_c(),
        z.exploded_c() || z.n2_c(),
    ensures
        d == escaped_direction_spec(*z, exploded),
{
    if exploded {
        Circle { real: z.real, imaginary: z.imaginary, exponent: stored_exp_of(0) }
    } else {
        Circle { real: 2 * z.real, imaginary: 2 * z.imaginary, exponent: stored_exp_of(0) }
    }
}

fn rotate(p: &Scalar, base_exploded: bool, cos_phi: &Scalar, sin_phi: &Scalar) -> (r: Circle)
    ensures
        r == rotate_spec(*p, base_exploded, *cos_phi, *sin_phi),
{
    let unit = Circle::from_ri(cos_phi, sin_phi);
    if !unit.is_normal() {
        return unit;
    }
    let result_exploded = if p.is_positive() {
        base_exploded
    } else {
        !base_exploded
    };
    if result_exploded {
        Circle { real: unit.real, imaginary: unit.imaginary, exponent: 0 }
    } else {
        let re = floor_shr(unit.real as i128, 1);
        let im = floor_shr(unit.imaginary as i128, 1);
        proof {
            vstd::arithmetic::power2::lemma2_to64();
        }
        Circle { real: re as i32, imaginary: im as i32, exponent: 0 }
    }
}

impl Circle {
    /// `self^p` for a Scalar exponent. `atan2(y, x)` gives the angle of
    /// `x + i y`; `cos` and `sin` give the cosine and sine of an angle.
    pub fn circle_power_scalar(
        &self,
        p: &Scalar,
        atan2: impl Fn(Scalar, Scalar) -> Scalar,
        cos: impl Fn(Scalar) -> Scalar,
        sin: impl Fn(Scalar) -> Scalar,
    ) -> (r: Circle)
        requires
            forall|y: Scalar, x: Scalar| #[trigger] atan2.requires((y, x)),
            forall|t: Scalar| #[trigger] cos.requires((t,)),
            forall|t: Scalar| #[trigger] sin.requires((t,)),
        ensures
            !cps_logexp(*self, *p) && !cps_rotates(*self, *p) ==> r == cps_exact(*self, *p),
            cps_logexp(*self, *p) ==> exists|a: Scalar, c: Scalar, s: Scalar|
                {
                    &&& #[trigger] atan2.ensures((im_part(*self), re_part(*self)), a)
                    &&& #[trigger] cos.ensures((im_part(cps_step(*self, *p, a)),), c)
                    &&& #[trigger] sin.ensures((im_part(cps_step(*self, *p, a)),), s)
                    &&& r == cexp_spec(cps_step(*self, *p, a), c, s)
                },
            cps_rotates(*self, *p) ==> exists|a: Scalar, c: Scalar, s: Scalar|
                {
                    &&& #[trigger] atan2.ensures(
                        (
                            im_part(escaped_direction_spec(*self, self.exploded_c())),
                            re_part(escaped_direction_spec(*self, self.exploded_c())),
                        ),
                        a,
                    )
                    &&& #[trigger] cos.ensures((mul_spec(a, *p),), c)
                    &&& #[trigger] sin.ensures((mul_spec(a, *p),), s)
                    &&& r == rotate_spec(*p, self.exploded_c(), c, s)
                },
    {
        if !self.is_normal() || !p.is_normal() {
            if self.is_undefined() {
                return *self;
            }
            if p.is_undefined() {
                return Circle { real: p.fraction, imaginary: p.fraction, exponent: p.exponent };
            }
            if p.is_zero() {
                return Circle::one();
            }
            if self.is_zero() {
                if p.is_negative() {
                    return Circle::infinity();
                }
                return Circle::zero();
            }
            if self.exploded() || self.vanished() {
                let base_exploded = self.exploded();
                if p.is_normal() {
                    if p.is_integer() {
                        return self.integer_power(p);
                    }
                    if p.magnitude().greater_than(&Scalar::one()) {
                        let d = escaped_direction(self, base_exploded);
                        let a = atan2(d.i(), d.r());
                        let phi = a.scalar_multiply_scalar(p);
                        let c = cos(phi);
                        let s = sin(phi);
                        let r = rotate(p, base_exploded, &c, &s);
                        proof {
                            assert(atan2.ensures(
                                (
                                    im_part(escaped_direction_spec(*self, self.exploded_c())),
                                    re_part(escaped_direction_spec(*self, self.exploded_c())),
                                ),
                                a,
                            ) && cos.ensures((mul_spec(a, *p),), c) && sin.ensures(
                                (mul_spec(a, *p),),
                                s,
                            ) && r == rotate_spec(*p, self.exploded_c(), c, s));
                        }
                        return r;
                    }
                    let code = if base_exploded {
                        TRANSFINITE_POWER
                    } else {
                        VANISHED_POWER
                    };
                    return Circle { real: code, imaginary: code, exponent: 0 };
                }
                let code = if p.vanished() {
                    POWER_VANISHED
                } else {
                    POWER_TRANSFINITE
                };
                return Circle { real: code, imaginary: code, exponent: 0 };
            }
            if self.is_infinite() {
                if p.is_negative() {
                    return Circle::zero();
                }
                return Circle::infinity();
            }
            let code = if p.vanished() {
                POWER_VANISHED
            } else {
                POWER_TRANSFINITE
            };
            return Circle { real: code, imaginary: code, exponent: 0 };
        }
        if p.is_integer() {
            return self.integer_power(p);
        }
        let a = atan2(self.i(), self.r());
        let w = self.ln(&a).circle_multiply_scalar(p);
        let wi = w.i();
        let c = cos(wi);
        let s = sin(wi);
        let r = w.exp(&c, &s);
        proof {
            assert(w == cps_step(*self, *p, a));
            assert(atan2.ensures((im_part(*self), re_part(*self)), a) && cos.ensures(
                (im_part(cps_step(*self, *p, a)),),
                c,
            ) && sin.ensures((im_part(cps_step(*self, *p, a)),), s) && r == cexp_spec(
                cps_step(*self, *p, a),
                c,
                s,
            ));
        }
        r
    }
}

/// `w ln z`, the exponent whose exponential is `z^w`, given the argument of `z`.
pub open spec fn cpc_step(z: Circle, w: Circle, angle: Scalar) -> Circle {
    cmul_spec(w, cln_spec(z, angle))
}

/// `w ln x`, the exponent whose exponential is `x^w`.
pub open spec fn spc_step(x: Scalar, w: Circle) -> Circle {
    cs_mul_spec(w, ln_spec(x))
}

impl Circle {
    /// `self^w` for a Circle exponent. `atan2(y, x)` gives the angle of
    /// `x + i y`; `cos` and `sin` give the cosine and sine of an angle.
    pub fn circle_power_circle(
        &self,
        w: &Circle,
        atan2: impl Fn(Scalar, Scalar) -> Scalar,
        cos: impl Fn(Scalar) -> Scalar,
        sin: impl Fn(Scalar) -> Scalar,
    ) -> (r: Circle)
        requires
            forall|y: Scalar, x: Scalar| #[trigger] atan2.requires((y, x)),
            forall|t: Scalar| #[trigger] cos.requires((t,)),
            forall|t: Scalar| #[trigger] sin.requires((t,)),
        ensures
            !cpc_logexp(*self, *w) ==> r == cpc_exact(*self, *w),
            cpc_logexp(*self, *w) ==> exists|a: Scalar, c: Scalar, s: Scalar|
                {
                    &&& #[trigger] atan2.ensures((im_part(*self), re_part(*self)), a)
                    &&& #[trigger] cos.ensures((im_part(cpc_step(*self, *w, a)),), c)
                    &&& #[trigger] sin.ensures((im_part(cpc_step(*self, *w, a)),), s)
                    &&& r == cexp_spec(cpc_step(*self, *w, a), c, s)
                },
    {
        if !self.is_normal() || !w.is_normal() {
            if self.is_undefined() {
                return *self;
            }
            if w.is_undefined() {
                return *w;
            }
            if self.is_zero() {
                if w.real > 0 {
                    return Circle::zero();
                }
                return Circle { real: NEGLIGIBLE_POWER, imaginary: NEGLIGIBLE_POWER, exponent: 0 };
            }
            if self.exploded() {
                return Circle { real: TRANSFINITE_POWER, imaginary: TRANSFINITE_POWER, exponent: 0 };
            }
            if self.vanished() {
                return Circle { real: NEGLIGIBLE_POWER, imaginary: NEGLIGIBLE_POWER, exponent: 0 };
            }
            if w.exploded() {
                return Circle { real: POWER_TRANSFINITE, imaginary: POWER_TRANSFINITE, exponent: 0 };
            }
            return Circle { real: POWER_NEGLIGIBLE, imaginary: POWER_NEGLIGIBLE, exponent: 0 };
        }
        let wr = w.r();
        if w.i().is_zero() && wr.is_integer() {
            return self.integer_power(&wr);
        }
        let a = atan2(self.i(), self.r());
        let v = w.circle_multiply_circle(&self.ln(&a));
        let vi = v.i();
        let c = cos(vi);
        let s = sin(vi);
        let r = v.exp(&c, &s);
        proof {
            assert(v == cpc_step(*self, *w, a));
            assert(atan2.ensures((im_part(*self), re_part(*self)), a) && cos.ensures(
                (im_part(cpc_step(*self, *w, a)),),
                c,
            ) && sin.ensures((im_part(cpc_step(*self, *w, a)),), s) && r == cexp_spec(
                cpc_step(*self, *w, a),
                c,
                s,
            ));
        }
        r
    }
}

impl Scalar {
    /// `self^w` for a Circle exponent. `cos` and `sin` give the cosine and
    /// sine of an angle.
    pub fn scalar_power_circle(
        &self,
        w: &Circle,
        cos: impl Fn(Scalar) -> Scalar,
        sin: impl Fn(Scalar) -> Scalar,
    ) -> (r: Circle)
        requires
            forall|t: Scalar| #[trigger] cos.requires((t,)),
            forall|t: Scalar| #[trigger] sin.requires((t,)),
        ensures
            !spc_logexp(*self, *w) ==> r == spc_exact(*self, *w),
            spc_logexp(*self, *w) ==> exists|c: Scalar, s: Scalar|
                {
                    &&& #[trigger] cos.ensures((im_part(spc_step(*self, *w)),), c)
                    &&& #[trigger] sin.ensures((im_part(spc_step(*self, *w)),), s)
                    &&& r == cexp_spec(spc_step(*self, *w), c, s)
                },
    {
        if !self.is_normal() || !w.is_normal() {
            if self.is_undefined() {
                return Circle { real: self.fraction, imaginary: self.fraction, exponent: self.exponent };
            }
            if w.is_undefined() {
                return *w;
            }
            if self.is_zero() {
                if w.real > 0 {
                    return Circle::zero();
                }
                return Circle { real: NEGLIGIBLE_POWER, imaginary: NEGLIGIBLE_POWER, exponent: 0 };
            }
            if self.exploded() {
                return Circle { real: TRANSFINITE_POWER, imaginary: TRANSFINITE_POWER, exponent: 0 };
            }
            if self.vanished() {
                return Circle { real: NEGLIGIBLE_POWER, imaginary: NEGLIGIBLE_POWER, exponent: 0 };
            }
            if w.exploded() {
                return Circle { real: POWER_TRANSFINITE, imaginary: POWER_TRANSFINITE, exponent: 0 };
            }
            return Circle { real: POWER_NEGLIGIBLE, imaginary: POWER_NEGLIGIBLE, exponent: 0 };
        }
        if self.is_negative() {
            return Circle { real: NEGATIVE_POWER, imaginary: NEGATIVE_POWER, exponent: 0 };
        }
        let wr = w.r();
        if w.i().is_zero() && wr.is_integer() {
            return Circle::from_ri(&self.integer_power(&wr), &Scalar::zero());
        }
        let v = w.circle_multiply_scalar(&self.ln());
        let vi = v.i();
        let c = cos(vi);
        let s = sin(vi);
        let r = v.exp(&c, &s);
        proof {
            assert(v == spc_step(*self, *w));
            assert(cos.ensures((im_part(spc_step(*self, *w)),), c) && sin.ensures(
                (im_part(spc_step(*self, *w)),),
                s,
            ) && r == cexp_spec(spc_step(*self, *w), c, s));
        }
        r
    }
}

} // verus!
