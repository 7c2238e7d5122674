//! Construction, named values and classification of `Scalar`.
use crate::bits::{in_band, lemma_band_sbits, sbits};
use crate::scalar::{
    exploded_frac, lemma_mant, lemma_pow2_30_32, mant, sc, stored_exp, undefined_frac,
    uniform_frac, vanished_frac, Scalar,
};
use vstd::arithmetic::power2::*;
use vstd::prelude::*;

verus! {

/// A canonical encoding: normal, or one of zero, infinity, an exploded, a
/// vanished or an undefined value.
pub open spec fn canonical(x: Scalar) -> bool {
    x.normal_s() || x.zero_s() || x.infinite_s() || x.exploded_s() || x.vanished_s()
        || x.undefined_s()
}

/// The value one in `ival` units (`2^158`).
pub open spec fn unit() -> int {
    pow2(158) as int
}

impl Scalar {
    /// Creates a Scalar from raw fraction and exponent bits.
    pub fn new(fraction: i32, exponent: i8) -> (r: Scalar)
        ensures
            r.fraction == fraction,
            r.exponent == exponent,
    {
        Scalar { fraction, exponent }
    }

    /// Zero `[0]`: all fraction bits clear, reserved exponent.
    pub fn zero() -> (r: Scalar)
        ensures
            r == sc(0i32, 0),
            r.zero_s(),
    {
        Scalar { fraction: 0, exponent: 0 }
    }

    /// Infinity `[∞]`: all fraction bits set, reserved exponent.
    pub fn infinity() -> (r: Scalar)
        ensures
            r == sc(-1i32, 0),
            r.infinite_s(),
    {
        Scalar { fraction: -1, exponent: 0 }
    }

    /// The value `1`.
    pub fn one() -> (r: Scalar)
        ensures
            r == sc(-0x8000_0000i32, stored_exp(0)),
            r.normal_s(),
            r.k() == 0,
            r.w() == 0x8000_0000,
            r.ival() == unit(),
    {
        proof {
            lemma_pow2_adds(31, 127);
            lemma_pow2_30_32();
        }
        Scalar { fraction: -0x8000_0000, exponent: -128 }
    }

    /// The value `-1`.
    pub fn neg_one() -> (r: Scalar)
        ensures
            r == sc(0i32, stored_exp(-1)),
            r.normal_s(),
            r.k() == -1,
            r.w() == -0x1_0000_0000,
            r.ival() == -unit(),
    {
        proof {
            lemma_pow2_adds(32, 126);
            lemma_pow2_30_32();
        }
        Scalar { fraction: 0, exponent: 127 }
    }

    /// The value `2`.
    pub fn two() -> (r: Scalar)
        ensures
            r == sc(-0x8000_0000i32, stored_exp(1)),
            r.normal_s(),
            r.ival() == 2 * unit(),
    {
        proof {
            lemma_pow2_adds(31, 128);
            lemma_pow2_unfold(159);
            lemma_pow2_30_32();
        }
        Scalar { fraction: -0x8000_0000, exponent: -127 }
    }

    /// The value `1/2`.
    pub fn half() -> (r: Scalar)
        ensures
            r == sc(-0x8000_0000i32, stored_exp(-1)),
            r.normal_s(),
            2 * r.ival() == unit(),
    {
        proof {
            lemma_pow2_adds(31, 126);
            lemma_pow2_unfold(158);
            lemma_pow2_30_32();
        }
        Scalar { fraction: -0x8000_0000, exponent: 127 }
    }

    /// The largest value below one: `1 - 2^-32`.
    pub fn effectively_pos_one() -> (r: Scalar)
        ensures
            r == sc(-1i32, stored_exp(-1)),
            r.normal_s(),
            r.ival() + pow2(126) == unit(),
    {
        proof {
            lemma_pow2_adds(32, 126);
            lemma_pow2_30_32();
            vstd::arithmetic::mul::lemma_mul_is_distributive_sub_other_way(
                pow2(126) as int,
                0x1_0000_0000,
                1,
            );
        }
        Scalar { fraction: -1, exponent: 127 }
    }

    /// The largest normal value, `(2^32 - 1) * 2^96`.
    pub fn max_value() -> (r: Scalar)
        ensures
            r == sc(-1i32, stored_exp(127)),
            r.normal_s(),
            r.k() == 127,
            r.w() == 0xFFFF_FFFF,
    {
        Scalar { fraction: -1, exponent: -1 }
    }

    /// The most negative normal value, `-2^128`.
    pub fn min_value() -> (r: Scalar)
        ensures
            r == sc(0i32, stored_exp(127)),
            r.normal_s(),
            r.k() == 127,
            r.w() == -0x1_0000_0000,
    {
        Scalar { fraction: 0, exponent: -1 }
    }

    /// The smallest positive normal value, `2^-127`.
    pub fn min_pos() -> (r: Scalar)
        ensures
            r == sc(-0x8000_0000i32, stored_exp(-127)),
            r.normal_s(),
            r.k() == -127,
            r.w() == 0x8000_0000,
    {
        Scalar { fraction: -0x8000_0000, exponent: 1 }
    }

    /// The negative normal value closest to zero, `-(2^31 + 1) * 2^-158`.
    pub fn max_neg() -> (r: Scalar)
        ensures
            r == sc(0x7FFF_FFFFi32, stored_exp(-127)),
            r.normal_s(),
            r.k() == -127,
            r.w() == -0x8000_0001,
    {
        Scalar { fraction: 0x7FFF_FFFF, exponent: 1 }
    }

    /// The high byte of the fraction (the value's classification prefix).
    pub fn prefix(&self) -> (r: i8)
        ensures
            r as int == self.fraction as int / 0x100_0000,
    {
        let s = self.fraction;
        let r = s >> 24u32;
        proof {
            assert(0x100_0000 * (s >> 24u32) <= s < 0x100_0000 * (s >> 24u32) + 0x100_0000)
                by (bit_vector);
            assert(-128 <= (s >> 24u32) <= 127) by (bit_vector);
            crate::bits::lemma_div_exact_q(s as int, 0x100_0000, r as int);
        }
        r as i8
    }

    /// Fingerprint of the prefix: bit `i` is prefix bit `i` XOR prefix bit `i-1`.
    /// Its top bit marks exploded fractions, `0b01` on top marks vanished ones,
    /// values below 2 mark uniform high bytes, and the rest mark undefined ones.
    pub fn class_xor(&self) -> (r: u8)
        ensures
            (r & 0x80 != 0) <==> exploded_frac(self.fraction),
            (r & 0xC0 == 0x40) <==> vanished_frac(self.fraction),
            (r < 2) <==> uniform_frac(self.fraction),
            ((r & 0xC0 == 0) && r >= 2) <==> undefined_frac(self.fraction),
    {
        let s = self.fraction;
        let p: u8 = #[verifier::truncate] ((s >> 24u32) as u8);
        let r: u8 = p ^ (p << 1u8);
        proof {
            assert(((((s >> 24u32) as u8) ^ (((s >> 24u32) as u8) << 1u8)) & 0x80u8 != 0)
                <==> (s >= 0x4000_0000 || s < -0x4000_0000)) by (bit_vector);
            assert(((((s >> 24u32) as u8) ^ (((s >> 24u32) as u8) << 1u8)) & 0xC0u8 == 0x40u8)
                <==> ((0x2000_0000 <= s && s < 0x4000_0000) || (-0x4000_0000 <= s && s
                < -0x2000_0000))) by (bit_vector);
            assert(((((s >> 24u32) as u8) ^ (((s >> 24u32) as u8) << 1u8)) < 2u8) <==> (
            -0x0100_0000 <= s && s < 0x0100_0000)) by (bit_vector);
            assert((((((s >> 24u32) as u8) ^ (((s >> 24u32) as u8) << 1u8)) & 0xC0u8 == 0u8) && ((
            ((s >> 24u32) as u8) ^ (((s >> 24u32) as u8) << 1u8)) >= 2u8)) <==> ((0x0100_0000 <= s
                && s < 0x2000_0000) || (-0x2000_0000 <= s && s < -0x0100_0000))) by (bit_vector);
        }
        r
    }

    /// Normal number `[#]`: any stored exponent other than the reserved one.
    pub fn is_normal(&self) -> (r: bool)
        ensures
            r == self.normal_s(),
    {
        self.exponent != 0
    }

    /// Undefined state `[℘?]`.
    pub fn is_undefined(&self) -> (r: bool)
        ensures
            r == self.undefined_s(),
    {
        if self.is_normal() {
            return false;
        }
        let s = self.fraction;
        (0x0100_0000 <= s && s < 0x2000_0000) || (-0x2000_0000 <= s && s < -0x0100_0000)
    }

    /// Reserved exponent with a uniform high byte (zero, infinity).
    pub fn is_uniform(&self) -> (r: bool)
        ensures
            r == self.uniform_s(),
    {
        !self.is_normal() && -0x0100_0000 <= self.fraction && self.fraction < 0x0100_0000
    }

    /// Exploded value `[↑]`.
    pub fn is_exploded(&self) -> (r: bool)
        ensures
            r == self.exploded_s(),
    {
        !self.is_normal() && (self.fraction >= 0x4000_0000 || self.fraction < -0x4000_0000)
    }

    /// Vanished value `[↓]`.
    pub fn is_vanished(&self) -> (r: bool)
        ensures
            r == self.vanished_s(),
    {
        let s = self.fraction;
        !self.is_normal() && ((0x2000_0000 <= s && s < 0x4000_0000) || (-0x4000_0000 <= s && s
            < -0x2000_0000))
    }

    /// Negligible magnitude: zero `[0]` or vanished `[↓]`.
    pub fn is_negligible(&self) -> (r: bool)
        ensures
            r == (self.zero_s() || self.vanished_s()),
    {
        self.is_zero() || self.is_vanished()
    }

    /// Vanished value `[↓]` (close to, but not, zero).
    pub fn vanished(&self) -> (r: bool)
        ensures
            r == self.vanished_s(),
    {
        self.is_vanished()
    }

    /// Exploded value `[↑]` (beyond the largest normal magnitude, not infinity).
    pub fn exploded(&self) -> (r: bool)
        ensures
            r == self.exploded_s(),
    {
        self.exponent == 0 && self.is_exploded()
    }

    /// Beyond normal magnitude: exploded `[↑]` or infinity `[∞]`.
    pub fn is_transfinite(&self) -> (r: bool)
        ensures
            r == (self.exploded_s() || self.infinite_s()),
    {
        self.exponent == 0 && (self.is_exploded() || self.fraction == -1)
    }

    /// Finite: zero `[0]` or normal `[#]`.
    pub fn is_finite(&self) -> (r: bool)
        ensures
            r == (self.normal_s() || self.zero_s()),
    {
        self.is_normal() || self.is_zero()
    }

    /// Zero `[0]`.
    pub fn is_zero(&self) -> (r: bool)
        ensures
            r == self.zero_s(),
    {
        self.exponent == 0 && self.fraction == 0
    }

    /// Infinity `[∞]`.
    pub fn is_infinite(&self) -> (r: bool)
        ensures
            r == self.infinite_s(),
    {
        self.exponent == 0 && self.fraction == -1
    }

    /// Positive `[+#]`, `[+↑]`, `[+↓]`.
    pub fn is_positive(&self) -> (r: bool)
        ensures
            r == self.positive_s(),
            r ==> !self.negative_s(),
            r ==> (self.normal_s() || self.exploded_s() || self.vanished_s()),
    {
        if self.is_normal() {
            return self.fraction < 0;
        }
        self.fraction >= 0x2000_0000
    }

    /// Negative `[-#]`, `[-↑]`, `[-↓]`.
    pub fn is_negative(&self) -> (r: bool)
        ensures
            r == self.negative_s(),
            r ==> !self.positive_s(),
            r ==> (self.normal_s() || self.exploded_s() || self.vanished_s()),
    {
        if self.is_normal() {
            return self.fraction >= 0;
        }
        self.fraction < -0x2000_0000
    }
}

/// A normal value is positive exactly when its significand is, and negative
/// exactly when it is not.
pub proof fn lemma_normal_sign(x: Scalar)
    requires
        x.normal_s(),
    ensures
        x.positive_s() <==> x.w() > 0,
        x.negative_s() <==> x.w() < 0,
        x.positive_s() != x.negative_s(),
{
    lemma_mant(x.fraction);
}

/// The classes of the reserved exponent are exclusive, and zero and infinity
/// are the only uniform fractions that are themselves.
pub proof fn lemma_classes(x: Scalar)
    ensures
        x.exploded_s() ==> !x.vanished_s() && !x.undefined_s() && !x.uniform_s(),
        x.vanished_s() ==> !x.undefined_s() && !x.uniform_s(),
        x.undefined_s() ==> !x.uniform_s(),
        x.zero_s() ==> x.uniform_s(),
        x.infinite_s() ==> x.uniform_s(),
        !x.normal_s() ==> (x.exploded_s() || x.vanished_s() || x.undefined_s() || x.uniform_s()),
        x.exploded_s() ==> in_band(x.fraction as int, 31),
        x.vanished_s() ==> in_band(x.fraction as int, 30),
{
    lemma_pow2_30_32();
}

/// Where a normal value sits: positive values of binade `k` lie in
/// `[2^(k+158), 2^(k+159))` (in `ival` units), negative ones in
/// `[-2^(k+159), -2^(k+158))`.
pub proof fn lemma_ival_range(x: Scalar)
    requires
        x.normal_s(),
    ensures
        x.positive_s() ==> pow2((x.k() + 158) as nat) <= x.ival() < pow2((x.k() + 159) as nat),
        x.negative_s() ==> -pow2((x.k() + 159) as nat) <= x.ival() < -pow2((x.k() + 158) as nat),
{
    lemma_mant(x.fraction);
    lemma_pow2_30_32();
    let p = pow2((x.k() + 127) as nat) as int;
    lemma_pow2_pos((x.k() + 127) as nat);
    lemma_pow2_adds(31, (x.k() + 127) as nat);
    lemma_pow2_adds(32, (x.k() + 127) as nat);
    let w = x.w();
    if x.positive_s() {
        assert(0x8000_0000 * p <= w * p < 0x1_0000_0000 * p) by (nonlinear_arith)
            requires
                0x8000_0000 <= w < 0x1_0000_0000,
                p > 0,
        ;
    } else {
        assert(-0x1_0000_0000 * p <= w * p < -0x8000_0000 * p) by (nonlinear_arith)
            requires
                -0x1_0000_0000 <= w < -0x8000_0000,
                p > 0,
        ;
    }
}

/// Two normal values with the same `ival` are the same Scalar.
pub proof fn lemma_ival_injective(a: Scalar, b: Scalar)
    requires
        a.normal_s(),
        b.normal_s(),
        a.ival() == b.ival(),
    ensures
        a == b,
{
    lemma_ival_range(a);
    lemma_ival_range(b);
    crate::basic::lemma_normal_sign(a);
    crate::basic::lemma_normal_sign(b);
    if a.k() < b.k() {
        crate::bits::lemma_pow2_le((a.k() + 159) as nat, (b.k() + 158) as nat);
    }
    if b.k() < a.k() {
        crate::bits::lemma_pow2_le((b.k() + 159) as nat, (a.k() + 158) as nat);
    }
    assert(a.k() == b.k());
    let p = pow2((a.k() + 127) as nat) as int;
    lemma_pow2_pos((a.k() + 127) as nat);
    assert(a.w() == b.w()) by (nonlinear_arith)
        requires
            a.w() * p == b.w() * p,
            p > 0,
    ;
    lemma_mant(a.fraction);
    lemma_mant(b.fraction);
}

impl Scalar {
    /// Order of two normal values by value: -1, 0 or 1.
    pub fn normal_order(&self, other: &Scalar) -> (r: i8)
        requires
            self.normal_s(),
            other.normal_s(),
        ensures
            (r < 0) == (self.ival() < other.ival()),
            (r == 0) == (self.ival() == other.ival()),
            (r > 0) == (self.ival() > other.ival()),
    {
        let pa = self.is_positive();
        let pb = other.is_positive();
        proof {
            lemma_normal_sign(*self);
            lemma_normal_sign(*other);
            lemma_ival_range(*self);
            lemma_ival_range(*other);
        }
        if pa != pb {
            return if pa {
                1
            } else {
                -1
            };
        }
        let ka = crate::scalar::logical_exp(self.exponent);
        let kb = crate::scalar::logical_exp(other.exponent);
        if ka != kb {
            proof {
                if ka < kb {
                    crate::bits::lemma_pow2_le((ka + 159) as nat, (kb + 158) as nat);
                } else {
                    crate::bits::lemma_pow2_le((kb + 159) as nat, (ka + 158) as nat);
                }
            }
            let up = ka > kb;
            return if up == pa {
                1
            } else {
                -1
            };
        }
        let fa = self.fraction as i64;
        let fb = other.fraction as i64;
        let wa: i64 = if fa < 0 {
            fa + 0x1_0000_0000
        } else {
            fa - 0x1_0000_0000
        };
        let wb: i64 = if fb < 0 {
            fb + 0x1_0000_0000
        } else {
            fb - 0x1_0000_0000
        };
        proof {
            let p = pow2((ka + 127) as nat) as int;
            lemma_pow2_pos((ka + 127) as nat);
            assert(wa < wb ==> wa * p < wb * p) by (nonlinear_arith)
                requires
                    p > 0,
            ;
            assert(wa > wb ==> wa * p > wb * p) by (nonlinear_arith)
                requires
                    p > 0,
            ;
        }
        if wa < wb {
            -1
        } else if wa == wb {
            0
        } else {
            1
        }
    }
}

} // verus!
