//! Integer structure of `Scalar` values: floor, ceiling, rounding, the
//! fractional part, and integrality tests.
use crate::arith::add_spec;
use crate::bits::{fdiv, floor_shr, lemma_sbits_le, pow2_u128, sbits};
use crate::neg::negate_spec;
use crate::scalar::{lemma_mant, lemma_pow2_30_32, logical_exp, pack, pack_spec, sc, Scalar};
use crate::undefined::FRACTIONAL_INFINITY;
use vstd::arithmetic::div_mod::*;
use vstd::arithmetic::power2::*;
use vstd::prelude::*;

verus! {

/// Number of fractional bits of a normal value at logical exponent `k < 31`.
pub open spec fn frac_bits(k: int) -> nat {
    (31 - k) as nat
}

/// Largest integer not above `w * 2^-j`... i.e. the integer part rounded down.
pub open spec fn floor_part(w: int, j: nat) -> int {
    fdiv(w, pow2(j) as int)
}

/// `w * 2^-j` rounded to the nearest integer, ties to even.
pub open spec fn round_part(w: int, j: nat) -> int {
    let p = pow2(j) as int;
    let q = fdiv(w, p);
    let rem = w - q * p;
    if 2 * rem < p {
        q
    } else if 2 * rem > p {
        q + 1
    } else if q % 2 == 0 {
        q
    } else {
        q + 1
    }
}

/// Floor: the largest integer not greater than the value. Vanished values
/// floor to `0` or `-1` by sign; other non-normal states are unchanged.
pub open spec fn floor_spec(x: Scalar) -> Scalar {
    if !x.normal_s() {
        if x.vanished_s() {
            if x.negative_s() {
                sc(0i32, 127i8)
            } else {
                sc(0i32, 0i8)
            }
        } else {
            x
        }
    } else if x.k() >= 31 {
        x
    } else {
        pack_spec(floor_part(x.w(), frac_bits(x.k())), 0)
    }
}

/// Ceiling: the floor when the value is already integral, else the floor plus one.
pub open spec fn ceil_spec(x: Scalar) -> Scalar {
    if floor_spec(x) == x {
        x
    } else {
        add_spec(floor_spec(x), sc(-0x8000_0000i32, -128i8))
    }
}

/// Round half to even. Vanished values round to zero; other non-normal
/// states are unchanged.
pub open spec fn round_spec(x: Scalar) -> Scalar {
    if !x.normal_s() {
        if x.vanished_s() {
            sc(0i32, 0i8)
        } else {
            x
        }
    } else if x.k() >= 31 {
        x
    } else {
        pack_spec(round_part(x.w(), frac_bits(x.k())), 0)
    }
}

/// Fractional part `x - floor(x)`. A negative vanished value has fractional
/// part just below one, exploded values have none, infinity's is undefined.
pub open spec fn frac_spec(x: Scalar) -> Scalar {
    if !x.normal_s() {
        if x.vanished_s() && x.negative_s() {
            sc(-1i32, 127i8)
        } else if x.exploded_s() {
            sc(0i32, 0i8)
        } else if x.infinite_s() {
            sc(FRACTIONAL_INFINITY, 0)
        } else {
            x
        }
    } else {
        add_spec(x, negate_spec(floor_spec(x)))
    }
}

/// Integral: zero, exploded values, and normal values without fractional bits.
pub open spec fn integer_spec(x: Scalar) -> bool {
    if !x.normal_s() {
        x.zero_s() || x.exploded_s()
    } else {
        x.k() >= 31 || x.w() % pow2(frac_bits(x.k())) as int == 0
    }
}

/// Contiguous integer: zero, or a normal integer below `2^32` in magnitude,
/// whose neighbours `n - 1` and `n + 1` are representable too.
pub open spec fn contiguous_spec(x: Scalar) -> bool {
    x.zero_s() || (x.normal_s() && integer_spec(x) && 0 <= x.k() <= 31)
}

/// Integer part of a normal value below `2^31` in exponent, as an exec value.
fn int_part(w: i64, k: i32, nearest: bool) -> (r: i64)
    requires
        -0x1_0000_0000 <= w <= 0x1_0000_0000,
        -1 <= k <= 30,
    ensures
        !nearest ==> r == floor_part(w as int, frac_bits(k as int)),
        nearest ==> r == round_part(w as int, frac_bits(k as int)),
        -0x1_0000_0001 <= r <= 0x1_0000_0001,
{
    let j = (31 - k) as u32;
    let p = pow2_u128(j);
    let q = floor_shr(w as i128, j);
    proof {
        lemma_pow2_pos(j as nat);
        lemma_fundamental_div_mod(w as int, p as int);
        lemma_mod_bound(w as int, p as int);
        lemma_div_is_ordered(-0x1_0000_0000, w as int, p as int);
        lemma_div_is_ordered(w as int, 0x1_0000_0000, p as int);
        lemma_div_is_ordered_by_denominator(0x1_0000_0000, 1, p as int);
        lemma_floor_neg_bound(p as int);
        crate::bits::lemma_pow2_le(j as nat, 32);
        lemma_pow2_30_32();
        vstd::arithmetic::mul::lemma_mul_is_commutative(p as int, q as int);
        assert(-0x1_0000_0000_0000_0000 <= q * p <= 0x1_0000_0000_0000_0000) by (nonlinear_arith)
            requires
                -0x1_0000_0000 <= q <= 0x1_0000_0000,
                0 < p <= 0x1_0000_0000,
        ;
    }
    if !nearest {
        return q as i64;
    }
    let rem = (w as i128) - q * (p as i128);
    let twice = 2 * rem;
    if twice < p as i128 {
        q as i64
    } else if twice > p as i128 {
        (q + 1) as i64
    } else if q % 2 == 0 {
        q as i64
    } else {
        (q + 1) as i64
    }
}

/// Below one half in magnitude (33 or more fractional bits), the integer part
/// is `0` or `-1`, the nearest integer is `0`, and the value is not integral.
proof fn lemma_small_parts(w: int, j: nat)
    requires
        j >= 33,
        crate::bits::in_band(w, 32),
    ensures
        floor_part(w, j) == (if w > 0 {
            0int
        } else {
            -1int
        }),
        round_part(w, j) == 0,
        w % pow2(j) as int != 0,
{
    let p = pow2(j) as int;
    lemma_pow2_30_32();
    lemma_pow2_unfold(j);
    crate::bits::lemma_pow2_le(32, (j - 1) as nat);
    crate::bits::lemma_pow2_le(33, j);
    lemma_pow2_unfold(33);
    if w > 0 {
        crate::bits::lemma_div_exact_q(w, p, 0);
        lemma_fundamental_div_mod_converse(w, p, 0, w);
    } else {
        crate::bits::lemma_div_exact_q(w, p, -1);
        lemma_fundamental_div_mod_converse(w, p, -1, w + p);
    }
}

proof fn lemma_floor_neg_bound(p: int)
    requires
        p > 0,
    ensures
        (-0x1_0000_0000int) / p >= -0x1_0000_0000,
{
    crate::bits::lemma_floor_neg(-0x1_0000_0000, p);
    lemma_div_is_ordered_by_denominator(0x1_0000_0000 - 1, 1, p);
    lemma_div_is_ordered(0, 0x1_0000_0000 - 1, p);
}

impl Scalar {
    /// Largest integer Scalar not greater than this value.
    pub fn floor(&self) -> (r: Scalar)
        ensures
            r == floor_spec(*self),
    {
        if !self.is_normal() {
            if self.vanished() {
                if self.is_negative() {
                    return Scalar::neg_one();
                } else {
                    return Scalar::zero();
                }
            }
            return *self;
        }
        let k = logical_exp(self.exponent);
        if k >= 31 {
            return *self;
        }
        let s = self.fraction as i64;
        let w: i64 = if s < 0 {
            s + 0x1_0000_0000
        } else {
            s - 0x1_0000_0000
        };
        proof {
            lemma_mant(self.fraction);
        }
        if k < -1 {
            proof {
                lemma_small_parts(w as int, frac_bits(k as int));
                lemma_pow2_30_32();
                assert(crate::bits::sbits(-1) == 0);
                assert(crate::bits::scale(-1, -32) == -1 * pow2(32) as int);
            }
            if s < 0 {
                return Scalar::zero();
            }
            return Scalar::neg_one();
        }
        let n = int_part(w, k, false);
        proof {
            lemma_pow2_30_32();
            lemma2_to64_rest();
            lemma_pow2_unfold(34);
            lemma_pow2_unfold(33);
            lemma_sbits_le(n as int, 34);
        }
        pack(n as i128, 0)
    }

    /// Smallest integer Scalar not less than this value.
    pub fn ceil(&self) -> (r: Scalar)
        ensures
            r == ceil_spec(*self),
    {
        let f = self.floor();
        if f.fraction == self.fraction && f.exponent == self.exponent {
            f
        } else {
            f.scalar_add_scalar(&Scalar::one())
        }
    }

    /// Nearest integer Scalar, ties to even.
    pub fn round(&self) -> (r: Scalar)
        ensures
            r == round_spec(*self),
    {
        if !self.is_normal() {
            if self.vanished() {
                return Scalar::zero();
            }
            return *self;
        }
        let k = logical_exp(self.exponent);
        if k >= 31 {
            return *self;
        }
        let s = self.fraction as i64;
        let w: i64 = if s < 0 {
            s + 0x1_0000_0000
        } else {
            s - 0x1_0000_0000
        };
        proof {
            lemma_mant(self.fraction);
        }
        if k < -1 {
            proof {
                lemma_small_parts(w as int, frac_bits(k as int));
            }
            return Scalar::zero();
        }
        let n = int_part(w, k, true);
        proof {
            lemma_pow2_30_32();
            lemma2_to64_rest();
            lemma_pow2_unfold(34);
            lemma_pow2_unfold(33);
            lemma_sbits_le(n as int, 34);
        }
        pack(n as i128, 0)
    }

    /// Fractional part: this value minus its floor.
    pub fn frac(&self) -> (r: Scalar)
        ensures
            r == frac_spec(*self),
    {
        if !self.is_normal() {
            if self.vanished() && self.is_negative() {
                return Scalar::effectively_pos_one();
            }
            if self.exploded() {
                return Scalar::zero();
            }
            if self.is_infinite() {
                return Scalar { fraction: FRACTIONAL_INFINITY, exponent: 0 };
            }
            return *self;
        }
        let mut f = self.floor();
        f.scalar_negate();
        self.scalar_add_scalar(&f)
    }

    /// No fractional part: zero, exploded values, and integral normal values.
    pub fn is_integer(&self) -> (r: bool)
        ensures
            r == integer_spec(*self),
    {
        if !self.is_normal() {
            return self.is_zero() || self.is_exploded();
        }
        let k = logical_exp(self.exponent);
        if k >= 31 {
            return true;
        }
        let s = self.fraction as i64;
        let w: i64 = if s < 0 {
            s + 0x1_0000_0000
        } else {
            s - 0x1_0000_0000
        };
        proof {
            lemma_mant(self.fraction);
        }
        if k < -1 {
            proof {
                lemma_small_parts(w as int, frac_bits(k as int));
            }
            return false;
        }
        let j = (31 - k) as u32;
        let p = pow2_u128(j);
        let q = floor_shr(w as i128, j);
        proof {
            lemma_pow2_pos(j as nat);
            lemma_fundamental_div_mod(w as int, p as int);
            lemma_mod_bound(w as int, p as int);
            lemma_div_is_ordered(-0x1_0000_0000, w as int, p as int);
            lemma_div_is_ordered(w as int, 0x1_0000_0000, p as int);
            lemma_div_is_ordered_by_denominator(0x1_0000_0000, 1, p as int);
            lemma_floor_neg_bound(p as int);
            crate::bits::lemma_pow2_le(j as nat, 32);
            lemma_pow2_30_32();
            vstd::arithmetic::mul::lemma_mul_is_commutative(p as int, q as int);
            assert(-0x1_0000_0000_0000_0000 <= q * p <= 0x1_0000_0000_0000_0000)
                by (nonlinear_arith)
                requires
                    -0x1_0000_0000 <= q <= 0x1_0000_0000,
                    0 < p <= 0x1_0000_0000,
            ;
        }
        (w as i128) - q * (p as i128) == 0
    }

    /// Integral and inside the range where consecutive integers are representable.
    pub fn is_contiguous(&self) -> (r: bool)
        ensures
            r == contiguous_spec(*self),
    {
        if self.is_zero() {
            return true;
        }
        if !self.is_normal() {
            return false;
        }
        let k = logical_exp(self.exponent);
        self.is_integer() && 0 <= k && k <= 31
    }
}

} // verus!
