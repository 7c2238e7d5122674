//! Addition, multiplication and division of `Scalar` values.
use crate::bits::{
    fdiv, floor_div, in_band, lemma_band_sbits, lemma_sbits_le, pow2_u128, sbits, scale, sig_bits,
    to_band,
};
use crate::neg::negate_spec;
use crate::scalar::{
    lemma_mant, lemma_pow2_30_32, logical_exp, pack, pack_spec, sc, Scalar, POS_ONE_VANISHED,
};
use crate::undefined::{
    FINITE_PLUS_TRANSFINITE, NEGLIGIBLE_DIVIDE_NEGLIGIBLE, NEGLIGIBLE_MULTIPLY_TRANSFINITE,
    TRANSFINITE_DIVIDE_TRANSFINITE, TRANSFINITE_MULTIPLY_NEGLIGIBLE, TRANSFINITE_PLUS_FINITE,
    TRANSFINITE_PLUS_TRANSFINITE, VANISHED_PLUS_VANISHED,
};
use vstd::arithmetic::power2::*;
use vstd::prelude::*;

verus! {

/// Sum of two normal values: the operand with the larger exponent is the big
/// one (the second on a tie); when the exponents are 31 or more apart the small
/// one is dropped, otherwise the exact sum is rounded toward negative infinity.
pub open spec fn add_normal_spec(a: Scalar, b: Scalar) -> Scalar {
    let big = if a.k() > b.k() {
        a
    } else {
        b
    };
    let small = if a.k() > b.k() {
        b
    } else {
        a
    };
    let shift = big.k() - small.k();
    if shift >= 31 {
        big
    } else {
        pack_spec(big.w() * pow2(shift as nat) + small.w(), small.k() - 31)
    }
}

/// Addition over all states: undefined propagates (first operand first); a
/// transfinite operand (exploded or infinity) makes the sum undefined, with
/// a cause naming which side was transfinite; zero is the identity; a
/// vanished value is negligible beside a normal one; two vanished values
/// are undefined.
pub open spec fn add_spec(a: Scalar, b: Scalar) -> Scalar {
    let at = a.exploded_s() || a.infinite_s();
    let bt = b.exploded_s() || b.infinite_s();
    if a.normal_s() && b.normal_s() {
        add_normal_spec(a, b)
    } else if a.undefined_s() {
        a
    } else if b.undefined_s() {
        b
    } else if at && bt {
        sc(TRANSFINITE_PLUS_TRANSFINITE, 0)
    } else if at {
        sc(TRANSFINITE_PLUS_FINITE, 0)
    } else if bt {
        sc(FINITE_PLUS_TRANSFINITE, 0)
    } else if a.zero_s() {
        b
    } else if b.zero_s() {
        a
    } else if a.vanished_s() && b.vanished_s() {
        sc(VANISHED_PLUS_VANISHED, 0)
    } else if a.vanished_s() {
        b
    } else {
        a
    }
}

/// Significand of any non-zero state at the normal scale: the normal
/// significand, an exploded fraction doubled, a vanished one quadrupled, any
/// other fraction as it stands.
pub open spec fn sig(x: Scalar) -> int {
    if x.normal_s() {
        x.w()
    } else if x.exploded_s() {
        2 * x.fraction
    } else if x.vanished_s() {
        4 * x.fraction
    } else {
        x.fraction as int
    }
}

/// An escaped result: the significand `p` placed at the exploded or vanished
/// normalization level.
pub open spec fn escaped_spec(p: int, exploded: bool) -> Scalar {
    if exploded {
        sc(scale(p, sbits(p) - 31) as i32, 0)
    } else {
        sc(scale(p, sbits(p) - 30) as i32, 0)
    }
}

/// An escaped result formed from the magnitude of `p` and then negated when
/// `p` is negative, so that the sign of an escaped product never changes
/// its magnitude.
pub open spec fn signed_escape_spec(p: int, exploded: bool) -> Scalar {
    if p < 0 {
        negate_spec(escaped_spec(-p, exploded))
    } else {
        escaped_spec(p, exploded)
    }
}

/// Product of two normal values: the exact product rounded toward negative
/// infinity when it is in the normal range; beyond it, an escaped value
/// formed from the product's magnitude and then given its sign.
pub open spec fn mul_normal_spec(a: Scalar, b: Scalar) -> Scalar {
    let x = a.w() * b.w();
    let t = a.k() + b.k() - 62;
    let k = t + sbits(x) - 1;
    if x != 0 && k > 127 {
        signed_escape_spec(x, true)
    } else if x != 0 && k < -127 {
        signed_escape_spec(x, false)
    } else {
        pack_spec(x, t)
    }
}

/// A normal product whose significand product is zero, within the normal
/// range, or not negative is the packed product.
pub proof fn lemma_mul_normal_is_pack(a: Scalar, b: Scalar)
    requires
        a.normal_s(),
        b.normal_s(),
        ({
            let x = a.w() * b.w();
            let k = a.k() + b.k() - 62 + sbits(x) - 1;
            x == 0 || (-127 <= k <= 127) || x >= 0
        }),
    ensures
        mul_spec(a, b) == pack_spec(a.w() * b.w(), a.k() + b.k() - 62),
{
}

/// Multiplication over all states. Two normal values multiply exactly and
/// round toward negative infinity; zero times infinity, and exploded times
/// vanished, are undefined; otherwise an escaped operand makes an escaped
/// result (exploded if either operand is) carrying the significand product,
/// formed from its magnitude and then given its sign.
pub open spec fn mul_spec(a: Scalar, b: Scalar) -> Scalar {
    if a.normal_s() && b.normal_s() {
        mul_normal_spec(a, b)
    } else if a.undefined_s() {
        a
    } else if b.undefined_s() {
        b
    } else if a.infinite_s() && b.zero_s() {
        sc(TRANSFINITE_MULTIPLY_NEGLIGIBLE, 0)
    } else if a.zero_s() && b.infinite_s() {
        sc(NEGLIGIBLE_MULTIPLY_TRANSFINITE, 0)
    } else if a.infinite_s() || b.infinite_s() {
        sc(-1i32, 0)
    } else if a.zero_s() || b.zero_s() {
        sc(0i32, 0)
    } else if a.exploded_s() && b.vanished_s() {
        sc(TRANSFINITE_MULTIPLY_NEGLIGIBLE, 0)
    } else if a.vanished_s() && b.exploded_s() {
        sc(NEGLIGIBLE_MULTIPLY_TRANSFINITE, 0)
    } else {
        signed_escape_spec(sig(a) * sig(b), a.exploded_s() || b.exploded_s())
    }
}

/// Square: the product with itself, except that a normal value whose square
/// falls below the normal range gives the canonical positive vanished value
/// (the square is positive whatever the significand product's bits).
pub open spec fn square_spec(x: Scalar) -> Scalar {
    if x.normal_s() && mul_spec(x, x).vanished_s() {
        sc(POS_ONE_VANISHED, 0)
    } else {
        mul_spec(x, x)
    }
}

/// Division over all states. Two normal values divide exactly and round
/// toward negative infinity; `x/0` is infinity (`0/0` undefined), `∞/x` is
/// infinity (`∞/∞` undefined), `0/x` and `x/∞` are zero, same-class escapes
/// are undefined, and other escapes give an escaped quotient (vanished when
/// the numerator vanished or the denominator exploded).
pub open spec fn div_spec(a: Scalar, b: Scalar) -> Scalar {
    if a.normal_s() && b.normal_s() {
        pack_spec(fdiv(a.w() * pow2(33), b.w()), a.k() - b.k() - 33)
    } else if a.undefined_s() {
        a
    } else if b.undefined_s() {
        b
    } else if b.zero_s() {
        if a.zero_s() {
            sc(NEGLIGIBLE_DIVIDE_NEGLIGIBLE, 0)
        } else {
            sc(-1i32, 0)
        }
    } else if a.infinite_s() {
        if b.infinite_s() {
            sc(TRANSFINITE_DIVIDE_TRANSFINITE, 0)
        } else {
            sc(-1i32, 0)
        }
    } else if a.zero_s() || b.infinite_s() {
        sc(0i32, 0)
    } else if a.exploded_s() && b.exploded_s() {
        sc(TRANSFINITE_DIVIDE_TRANSFINITE, 0)
    } else if a.vanished_s() && b.vanished_s() {
        sc(NEGLIGIBLE_DIVIDE_NEGLIGIBLE, 0)
    } else {
        escaped_spec(fdiv(sig(a) * pow2(33), sig(b)), !(a.vanished_s() || b.exploded_s()))
    }
}

proof fn lemma_sig_bounds(x: Scalar)
    requires
        !x.zero_s(),
    ensures
        -0x1_0000_0000 <= sig(x) <= 0x1_0000_0000,
        sig(x) != 0,
{
    lemma_mant(x.fraction);
    lemma_pow2_30_32();
}

impl Scalar {
    /// Exec form of `sig`.
    pub(crate) fn significand(&self) -> (r: i64)
        requires
            !self.zero_s(),
        ensures
            r == sig(*self),
            -0x1_0000_0000 <= r <= 0x1_0000_0000,
            r != 0,
    {
        proof {
            lemma_sig_bounds(*self);
        }
        let s = self.fraction as i64;
        if self.is_normal() {
            if s < 0 {
                s + 0x1_0000_0000
            } else {
                s - 0x1_0000_0000
            }
        } else if self.is_exploded() {
            2 * s
        } else if self.is_vanished() {
            4 * s
        } else {
            s
        }
    }

    /// Places a non-zero significand at an escaped normalization level.
    /// The escaped value of `p`'s magnitude, negated when `p` is negative.
    fn signed_escaped(p: i128, exploded: bool) -> (r: Scalar)
        requires
            p != 0,
            sbits(p as int) <= 65,
        ensures
            r == signed_escape_spec(p as int, exploded),
    {
        if p < 0 {
            proof {
                lemma2_to64_rest();
                lemma_pow2_unfold(65);
                lemma_pow2_unfold(66);
                crate::bits::lemma_sbits_range(p as int, 65);
                crate::bits::lemma_sbits_le(-p as int, 66);
            }
            let mut e = Scalar::escaped(-p, exploded);
            e.scalar_negate();
            e
        } else {
            Scalar::escaped(p, exploded)
        }
    }

    pub(crate) fn escaped(p: i128, exploded: bool) -> (r: Scalar)
        requires
            p != 0,
            sbits(p as int) <= 126,
        ensures
            r == escaped_spec(p as int, exploded),
    {
        proof {
            lemma_pow2_30_32();
            crate::bits::lemma_scale_band(p as int, 31);
            crate::bits::lemma_scale_band(p as int, 30);
        }
        if exploded {
            Scalar { fraction: to_band(p, 31) as i32, exponent: 0 }
        } else {
            Scalar { fraction: to_band(p, 30) as i32, exponent: 0 }
        }
    }

    /// Sum of two Scalars.
    pub fn scalar_add_scalar(&self, other: &Scalar) -> (r: Scalar)
        ensures
            r == add_spec(*self, *other),
    {
        if self.is_normal() && other.is_normal() {
            let ka = logical_exp(self.exponent);
            let kb = logical_exp(other.exponent);
            let (big, small, kbig, ksmall) = if ka > kb {
                (*self, *other, ka, kb)
            } else {
                (*other, *self, kb, ka)
            };
            let shift = kbig - ksmall;
            if shift >= 31 {
                return big;
            }
            let wb = big.significand();
            let ws = small.significand();
            let p = pow2_u128(shift as u32);
            proof {
                lemma_pow2_30_32();
                lemma_pow2_pos(shift as nat);
                crate::bits::lemma_pow2_le(shift as nat, 30);
                assert(-0x1_0000_0000 * 0x4000_0000 <= wb * p <= 0x1_0000_0000 * 0x4000_0000)
                    by (nonlinear_arith)
                    requires
                        -0x1_0000_0000 <= wb <= 0x1_0000_0000,
                        0 < p <= 0x4000_0000,
                ;
                lemma2_to64_rest();
                lemma_sbits_le(wb * p + ws, 64);
            }
            let x = (wb as i128) * (p as i128) + (ws as i128);
            return pack(x, ksmall - 31);
        }
        if self.is_undefined() {
            return *self;
        }
        if other.is_undefined() {
            return *other;
        }
        let at = self.is_transfinite();
        let bt = other.is_transfinite();
        if at && bt {
            return Scalar { fraction: TRANSFINITE_PLUS_TRANSFINITE, exponent: 0 };
        }
        if at {
            return Scalar { fraction: TRANSFINITE_PLUS_FINITE, exponent: 0 };
        }
        if bt {
            return Scalar { fraction: FINITE_PLUS_TRANSFINITE, exponent: 0 };
        }
        if self.is_zero() {
            return *other;
        }
        if other.is_zero() {
            return *self;
        }
        if self.vanished() && other.vanished() {
            return Scalar { fraction: VANISHED_PLUS_VANISHED, exponent: 0 };
        }
        if self.vanished() {
            return *other;
        }
        *self
    }

    /// Product of two Scalars.
    pub fn scalar_multiply_scalar(&self, other: &Scalar) -> (r: Scalar)
        ensures
            r == mul_spec(*self, *other),
    {
        if self.is_normal() && other.is_normal() {
            let wa = self.significand();
            let wb = other.significand();
            let ka = logical_exp(self.exponent);
            let kb = logical_exp(other.exponent);
            proof {
                assert(-0x1_0000_0000_0000_0000 <= wa * wb <= 0x1_0000_0000_0000_0000)
                    by (nonlinear_arith)
                    requires
                        -0x1_0000_0000 <= wa <= 0x1_0000_0000,
                        -0x1_0000_0000 <= wb <= 0x1_0000_0000,
                ;
                lemma2_to64_rest();
                lemma_pow2_unfold(65);
                lemma_sbits_le(wa * wb, 65);
            }
            let x = (wa as i128) * (wb as i128);
            let kk = ka + kb - 62 + sig_bits(x) as i32 - 1;
            if x != 0 && kk > 127 {
                return Scalar::signed_escaped(x, true);
            }
            if x != 0 && kk < -127 {
                return Scalar::signed_escaped(x, false);
            }
            return pack(x, ka + kb - 62);
        }
        if self.is_undefined() {
            return *self;
        }
        if other.is_undefined() {
            return *other;
        }
        if self.is_infinite() && other.is_zero() {
            return Scalar { fraction: TRANSFINITE_MULTIPLY_NEGLIGIBLE, exponent: 0 };
        }
        if self.is_zero() && other.is_infinite() {
            return Scalar { fraction: NEGLIGIBLE_MULTIPLY_TRANSFINITE, exponent: 0 };
        }
        if self.is_infinite() || other.is_infinite() {
            return Scalar::infinity();
        }
        if self.is_zero() || other.is_zero() {
            return Scalar::zero();
        }
        if self.exploded() && other.vanished() {
            return Scalar { fraction: TRANSFINITE_MULTIPLY_NEGLIGIBLE, exponent: 0 };
        }
        if self.vanished() && other.exploded() {
            return Scalar { fraction: NEGLIGIBLE_MULTIPLY_TRANSFINITE, exponent: 0 };
        }
        let sa = self.significand();
        let sb = other.significand();
        proof {
            assert(-0x1_0000_0000_0000_0000 <= sa * sb <= 0x1_0000_0000_0000_0000)
                by (nonlinear_arith)
                requires
                    -0x1_0000_0000 <= sa <= 0x1_0000_0000,
                    -0x1_0000_0000 <= sb <= 0x1_0000_0000,
            ;
            assert(sa * sb != 0) by (nonlinear_arith)
                requires
                    sa != 0,
                    sb != 0,
            ;
            lemma2_to64_rest();
            lemma_pow2_unfold(65);
            lemma_sbits_le(sa * sb, 65);
        }
        Scalar::signed_escaped((sa as i128) * (sb as i128), self.exploded() || other.exploded())
    }

    /// Quotient of two Scalars.
    pub fn scalar_divide_scalar(&self, other: &Scalar) -> (r: Scalar)
        ensures
            r == div_spec(*self, *other),
    {
        if self.is_normal() && other.is_normal() {
            let wa = self.significand();
            let wb = other.significand();
            let ka = logical_exp(self.exponent);
            let kb = logical_exp(other.exponent);
            let p = pow2_u128(33);
            proof {
                lemma_pow2_30_32();
                lemma_mant(self.fraction);
                lemma_mant(other.fraction);
                lemma2_to64();
                lemma_pow2_unfold(33);
                assert(-0x2_0000_0000_0000_0000 <= wa * p <= 0x2_0000_0000_0000_0000)
                    by (nonlinear_arith)
                    requires
                        -0x1_0000_0000 <= wa <= 0x1_0000_0000,
                        p == 0x2_0000_0000,
                ;
            }
            let n = (wa as i128) * (p as i128);
            let q = floor_div(n, wb as i128);
            proof {
                lemma_fdiv_bound(n as int, wb as int);
                lemma2_to64_rest();
                lemma_pow2_unfold(65);
                lemma_pow2_unfold(65);
            lemma_pow2_unfold(66);
                lemma_sbits_le(q as int, 66);
            }
            return pack(q, ka - kb - 33);
        }
        if self.is_undefined() {
            return *self;
        }
        if other.is_undefined() {
            return *other;
        }
        if other.is_zero() {
            if self.is_zero() {
                return Scalar { fraction: NEGLIGIBLE_DIVIDE_NEGLIGIBLE, exponent: 0 };
            }
            return Scalar::infinity();
        }
        if self.is_infinite() {
            if other.is_infinite() {
                return Scalar { fraction: TRANSFINITE_DIVIDE_TRANSFINITE, exponent: 0 };
            }
            return Scalar::infinity();
        }
        if self.is_zero() || other.is_infinite() {
            return Scalar::zero();
        }
        if self.exploded() && other.exploded() {
            return Scalar { fraction: TRANSFINITE_DIVIDE_TRANSFINITE, exponent: 0 };
        }
        if self.vanished() && other.vanished() {
            return Scalar { fraction: NEGLIGIBLE_DIVIDE_NEGLIGIBLE, exponent: 0 };
        }
        let sa = self.significand();
        let sb = other.significand();
        let p = pow2_u128(33);
        proof {
            lemma2_to64();
            lemma_pow2_unfold(33);
            assert(-0x2_0000_0000_0000_0000 <= sa * p <= 0x2_0000_0000_0000_0000)
                by (nonlinear_arith)
                requires
                    -0x1_0000_0000 <= sa <= 0x1_0000_0000,
                    p == 0x2_0000_0000,
            ;
        }
        let n = (sa as i128) * (p as i128);
        let q = floor_div(n, sb as i128);
        proof {
            lemma_fdiv_bound(n as int, sb as int);
            assert((n >= 2 * sb && n >= -2 * sb) || (n <= 2 * sb && n <= -2 * sb))
                by (nonlinear_arith)
                requires
                    n == sa * 0x2_0000_0000,
                    sa != 0,
                    -0x1_0000_0000 <= sb <= 0x1_0000_0000,
            ;
            lemma_fdiv_nonzero(n as int, sb as int);
            lemma2_to64_rest();
            lemma_pow2_unfold(65);
            lemma_pow2_unfold(66);
            lemma_sbits_le(q as int, 66);
        }
        Scalar::escaped(q, !(self.vanished() || other.exploded()))
    }

    /// The square of this Scalar (the product with itself; a normal value
    /// whose square vanishes gives the canonical positive vanished value).
    pub fn square(&self) -> (r: Scalar)
        ensures
            r == square_spec(*self),
    {
        let p = self.scalar_multiply_scalar(self);
        if self.is_normal() && p.vanished() {
            return Scalar { fraction: POS_ONE_VANISHED, exponent: 0 };
        }
        p
    }

    /// The reciprocal `1 / self`.
    pub fn reciprocal(&self) -> (r: Scalar)
        ensures
            r == div_spec(sc(-0x8000_0000i32, -128i8), *self),
    {
        let one = Scalar::one();
        one.scalar_divide_scalar(self)
    }
}

proof fn lemma_fdiv_bound(n: int, d: int)
    requires
        d != 0,
        -0x2_0000_0000_0000_0000 <= n <= 0x2_0000_0000_0000_0000,
    ensures
        -0x2_0000_0000_0000_0000 <= fdiv(n, d) <= 0x2_0000_0000_0000_0000,
{
    let (a, b) = if d > 0 {
        (n, d)
    } else {
        (-n, -d)
    };
    assert(fdiv(n, d) == a / b);
    vstd::arithmetic::div_mod::lemma_div_is_ordered(a, 0x2_0000_0000_0000_0000, b);
    vstd::arithmetic::div_mod::lemma_div_is_ordered(-0x2_0000_0000_0000_0000, a, b);
    vstd::arithmetic::div_mod::lemma_div_is_ordered_by_denominator(0x2_0000_0000_0000_0000, 1, b);
    assert((-0x2_0000_0000_0000_0000int) / b >= -0x2_0000_0000_0000_0000) by {
        crate::bits::lemma_floor_neg(-0x2_0000_0000_0000_0000, b);
        vstd::arithmetic::div_mod::lemma_div_is_ordered_by_denominator(0x2_0000_0000_0000_0000 - 1, 1, b);
        vstd::arithmetic::div_mod::lemma_div_is_ordered(0, 0x2_0000_0000_0000_0000 - 1, b);
    }
}

proof fn lemma_fdiv_nonzero(n: int, d: int)
    requires
        d != 0,
        (n >= 2 * d && n >= -2 * d) || (n <= 2 * d && n <= -2 * d),
    ensures
        fdiv(n, d) != 0,
{
    let (a, b) = if d > 0 {
        (n, d)
    } else {
        (-n, -d)
    };
    assert(fdiv(n, d) == a / b);
    if a >= 0 {
        vstd::arithmetic::div_mod::lemma_div_is_ordered(b, a, b);
        vstd::arithmetic::div_mod::lemma_div_by_multiple(1, b);
    } else {
        crate::bits::lemma_floor_neg(a, b);
        vstd::arithmetic::div_mod::lemma_div_is_ordered(0, -a - 1, b);
    }
}

} // verus!
