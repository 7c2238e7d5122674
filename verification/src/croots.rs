//! Square root of a `Circle`, by the half-angle formulas.
use crate::arith::add_spec;
use crate::bitwise::shl_spec;
use crate::circle::{part_spec, Circle};
use crate::circle_arith::{cmagnitude_spec, cu};
use crate::cmodular::{from_ri_spec, sub_spec};
use crate::neg::negate_spec;
use crate::roots::sqrt_spec;
use crate::scalar::{sc, Scalar};
use crate::undefined::{SQRT_EXPLODED, SQRT_VANISHED};
use vstd::prelude::*;

verus! {

/// `sqrt((v) / 2)` with a negative `v` (a rounding artefact, as `|z| >= |Re z|`)
/// taken as zero.
pub open spec fn half_root(v: Scalar) -> Scalar {
    let w = if v.negative_s() {
        sc(0i32, 0i8)
    } else {
        v
    };
    sqrt_spec(shl_spec(w, -1))
}

/// Principal square root: `sqrt((|z| + Re z) / 2) + i sgn(Im z) sqrt((|z| - Re z) / 2)`
/// with Scalar operations. Zero, infinity and undefined states are
/// unchanged; escaped Circles are undefined (the root could land anywhere).
pub open spec fn csqrt_spec(c: Circle) -> Circle {
    if c.undefined_c() || c.n0_c() {
        c
    } else if c.exploded_c() {
        cu(SQRT_EXPLODED)
    } else if c.n2_c() {
        cu(SQRT_VANISHED)
    } else {
        let m = cmagnitude_spec(c);
        let r = part_spec(c, c.real);
        let re = half_root(add_spec(m, r));
        let im = half_root(sub_spec(m, r));
        from_ri_spec(
            re,
            if c.imaginary < 0 {
                negate_spec(im)
            } else {
                im
            },
        )
    }
}

fn half_root_exec(v: Scalar) -> (r: Scalar)
    ensures
        r == half_root(v),
{
    let w = if v.is_negative() {
        Scalar::zero()
    } else {
        v
    };
    w.scalar_shr_integer(&1i8).sqrt()
}

impl Circle {
    /// Principal square root.
    pub fn sqrt(&self) -> (r: Circle)
        ensures
            r == csqrt_spec(*self),
    {
        if self.is_undefined() || self.is_n0() {
            return *self;
        }
        if self.exploded() {
            return Circle { real: SQRT_EXPLODED, imaginary: SQRT_EXPLODED, exponent: 0 };
        }
        if self.vanished() {
            return Circle { real: SQRT_VANISHED, imaginary: SQRT_VANISHED, exponent: 0 };
        }
        let m = self.magnitude();
        let r = self.r();
        let re = half_root_exec(m.scalar_add_scalar(&r));
        let mut nr = r;
        nr.scalar_negate();
        let mut im = half_root_exec(m.scalar_add_scalar(&nr));
        if self.imaginary < 0 {
            im.scalar_negate();
        }
        Circle::from_ri(&re, &im)
    }
}

} // verus!
