//! Integer powers of a `Circle` by repeated squaring.
use crate::bitwise::{and_spec, shl_spec};
use crate::circle::{cc, Circle};
use crate::circle_arith::{cdiv_spec, cmul_spec, csquare_spec, cu};
use crate::exponents::{lemma_halve_floor, one_spec, pow_left, pow_measure};
use crate::neg::magnitude_spec;
use crate::rounding::floor_spec;
use crate::scalar::{stored_exp, stored_exp_of, Scalar};
use crate::undefined::POWER_TRANSFINITE;
use vstd::prelude::*;

verus! {

/// The Circle `1`.
pub open spec fn cone_spec() -> Circle {
    cc(0x4000_0000i32, 0i32, stored_exp(0))
}

/// Exponentiation by squaring on Circles: multiply the accumulator by the
/// base for each one bit of the exponent, squaring the base and halving the
/// exponent.
pub open spec fn cpow_loop(base: Circle, e: Scalar, acc: Circle) -> Circle
    decreases pow_measure(e),
{
    if e.zero_s() || !pow_left(e) {
        acc
    } else {
        proof {
            lemma_halve_floor(e);
        }
        let acc2 = if and_spec(e, one_spec()) == one_spec() {
            cmul_spec(acc, base)
        } else {
            acc
        };
        cpow_loop(csquare_spec(base), floor_spec(shl_spec(e, -1)), acc2)
    }
}

/// `c^n` for an integer-valued `n`: `c^0 = 1`; a negative `n` raises `1/c`;
/// an exponent whose magnitude is not normal gives the base when that is
/// undefined and is otherwise undefined.
pub open spec fn cinteger_power_spec(c: Circle, n: Scalar) -> Circle {
    let base = if n.negative_s() {
        cdiv_spec(cone_spec(), c)
    } else {
        c
    };
    let m = magnitude_spec(n);
    if n.zero_s() {
        cone_spec()
    } else if !m.normal_s() {
        if base.undefined_c() {
            base
        } else {
            cu(POWER_TRANSFINITE)
        }
    } else {
        cpow_loop(base, m, cone_spec())
    }
}

impl Circle {
    /// The Circle `1`.
    pub fn one() -> (r: Circle)
        ensures
            r == cone_spec(),
    {
        Circle { real: 0x4000_0000, imaginary: 0, exponent: stored_exp_of(0) }
    }

    /// `self^n` by squaring, for an integer-valued `n`.
    pub fn integer_power(&self, n: &Scalar) -> (r: Circle)
        ensures
            r == cinteger_power_spec(*self, *n),
    {
        let one = Circle::one();
        if n.is_zero() {
            return one;
        }
        let mut base = if n.is_negative() {
            one.circle_divide_circle(self)
        } else {
            *self
        };
        let mut e = n.magnitude();
        if !e.is_normal() {
            if base.is_undefined() {
                return base;
            }
            return Circle { real: POWER_TRANSFINITE, imaginary: POWER_TRANSFINITE, exponent: 0 };
        }
        let sone = Scalar::one();
        let mut acc = one;
        while !e.is_zero() && (e.is_normal() && e.is_positive() || e.vanished() && !e.is_negative())
            invariant
                sone == one_spec(),
                cpow_loop(base, e, acc) == cinteger_power_spec(*self, *n),
            decreases pow_measure(e),
        {
            proof {
                lemma_halve_floor(e);
            }
            let bit = e.aligned_and(&sone);
            if bit.fraction == sone.fraction && bit.exponent == sone.exponent {
                acc = acc.circle_multiply_circle(&base);
            }
            base = base.square();
            e = e.scalar_shr_integer(&1i8).floor();
        }
        acc
    }
}

} // verus!
