//! The `Scalar` type, its mathematical model, its named values and the
//! predicates that classify it.
use crate::bits::{
    in_band, lemma_floor_neg, lemma_scale_band, lemma_scale_shift, lemma_sbits_shift, sbits, scale,
    sig_bits, to_band,
};
use vstd::arithmetic::power2::*;
use vstd::arithmetic::div_mod::*;
use vstd::prelude::*;

verus! {

/// A real number: a 32-bit fraction and an 8-bit exponent.
///
/// With a non-zero exponent the value is normal: its logical exponent `k` is
/// the stored exponent with the top bit flipped, and the fraction holds the
/// 32 significant bits below the (implied, inverted) sign bit, so the value is
/// `mant(fraction) * 2^(k - 31)`. The exponent `0` is reserved: it marks zero,
/// infinity, exploded and vanished values (which keep an explicit sign and
/// their significand) and undefined states (tagged by the fraction's high byte).
#[derive(Clone, Copy, Debug, PartialEq, Eq, Structural)]
pub struct Scalar {
    pub fraction: i32,
    pub exponent: i8,
}

pub open spec fn two_32() -> int {
    0x1_0000_0000
}

/// Logical exponent of a stored exponent (the reserved `0` maps to -128).
pub open spec fn exp_k(e: i8) -> int {
    if e >= 0 {
        e - 128
    } else {
        e + 128
    }
}

/// Stored exponent of a logical exponent in `[-128, 127]`.
pub open spec fn stored_exp(k: int) -> i8 {
    (if k >= 0 {
        k - 128
    } else {
        k + 128
    }) as i8
}

/// Signed significand of a normal fraction: the stored bits under the
/// implied sign bit, which is the inverse of the stored top bit.
pub open spec fn mant(s: i32) -> int {
    if s < 0 {
        s + two_32()
    } else {
        s - two_32()
    }
}

/// Stored fraction of a significand in the 32-bit band.
pub open spec fn stored_frac(w: int) -> i32 {
    (if w >= 0 {
        w - two_32()
    } else {
        w + two_32()
    }) as i32
}

/// Explicit-sign fraction of an exploded value (the top two bits differ).
pub open spec fn exploded_frac(s: i32) -> bool {
    s >= 0x4000_0000 || s < -0x4000_0000
}

/// Explicit-sign fraction of a vanished value (two sign bits, then the lead bit).
pub open spec fn vanished_frac(s: i32) -> bool {
    (0x2000_0000 <= s < 0x4000_0000) || (-0x4000_0000 <= s < -0x2000_0000)
}

/// Fraction of an undefined state: the top three bits agree, the high byte does not.
pub open spec fn undefined_frac(s: i32) -> bool {
    (0x0100_0000 <= s < 0x2000_0000) || (-0x2000_0000 <= s < -0x0100_0000)
}

/// Fraction whose high byte is all zeros or all ones.
pub open spec fn uniform_frac(s: i32) -> bool {
    -0x0100_0000 <= s < 0x0100_0000
}

impl Scalar {
    pub open spec fn normal_s(self) -> bool {
        self.exponent != 0
    }

    pub open spec fn zero_s(self) -> bool {
        self.exponent == 0 && self.fraction == 0
    }

    pub open spec fn infinite_s(self) -> bool {
        self.exponent == 0 && self.fraction == -1
    }

    pub open spec fn exploded_s(self) -> bool {
        self.exponent == 0 && exploded_frac(self.fraction)
    }

    pub open spec fn vanished_s(self) -> bool {
        self.exponent == 0 && vanished_frac(self.fraction)
    }

    pub open spec fn undefined_s(self) -> bool {
        self.exponent == 0 && undefined_frac(self.fraction)
    }

    pub open spec fn uniform_s(self) -> bool {
        self.exponent == 0 && uniform_frac(self.fraction)
    }

    /// Positive: a normal value above zero, or a positive escaped value.
    pub open spec fn positive_s(self) -> bool {
        if self.exponent != 0 {
            self.fraction < 0
        } else {
            self.fraction >= 0x2000_0000
        }
    }

    /// Negative: a normal value below zero, or a negative escaped value.
    pub open spec fn negative_s(self) -> bool {
        if self.exponent != 0 {
            self.fraction >= 0
        } else {
            self.fraction < -0x2000_0000
        }
    }

    /// Logical exponent.
    pub open spec fn k(self) -> int {
        exp_k(self.exponent)
    }

    /// Significand of a normal value.
    pub open spec fn w(self) -> int {
        mant(self.fraction)
    }

    /// A normal value as an integer multiple of `2^-158`, the finest step of
    /// the format (`k - 31 >= -158`): `mant * 2^(k + 127)`.
    pub open spec fn ival(self) -> int {
        self.w() * pow2((self.k() + 127) as nat)
    }

    /// The step between neighbouring normal values at this value's exponent,
    /// in the same units as `ival`.
    pub open spec fn ulp(self) -> int {
        pow2((self.k() + 127) as nat) as int
    }
}

pub open spec fn sc(fraction: i32, exponent: i8) -> Scalar {
    Scalar { fraction, exponent }
}

/// Fraction of `+1` at the exploded normalization level.
pub const POS_ONE_EXPLODED: i32 = 0x4000_0000;

/// Fraction of `-1` at the exploded normalization level.
pub const NEG_ONE_EXPLODED: i32 = -0x8000_0000;

/// Fraction of `+1` at the vanished normalization level.
pub const POS_ONE_VANISHED: i32 = 0x2000_0000;

/// Fraction of `-1` at the vanished normalization level.
pub const NEG_ONE_VANISHED: i32 = -0x4000_0000;

/// Normal fraction of `+2^k` at binade `k`.
pub const POS_ONE_NORMAL: i32 = -0x8000_0000;

/// Normal fraction of `-2^(k+1)` at binade `k`.
pub const NEG_ONE_NORMAL: i32 = 0;

/// The value `x * 2^t`, rounded toward negative infinity to 32 significant
/// bits; beyond the exponent range it escapes to exploded or vanished with the
/// leading bits of `x` as its significand.
pub open spec fn pack_spec(x: int, t: int) -> Scalar {
    if x == 0 {
        sc(0, 0)
    } else {
        let m = sbits(x);
        let k = t + m - 1;
        if k > 127 {
            sc(scale(x, m - 31) as i32, 0)
        } else if k < -127 {
            sc(scale(x, m - 30) as i32, 0)
        } else {
            sc(stored_frac(scale(x, m - 32)), stored_exp(k))
        }
    }
}

pub proof fn lemma_pow2_30_32()
    ensures
        pow2(29) == 0x2000_0000,
        pow2(30) == 0x4000_0000,
        pow2(31) == 0x8000_0000,
        pow2(32) == 0x1_0000_0000,
{
    lemma2_to64();
}

/// Every stored fraction decodes to a significand in the 32-bit band, and back.
pub proof fn lemma_mant(s: i32)
    ensures
        in_band(mant(s), 32),
        stored_frac(mant(s)) == s,
        mant(s) > 0 <==> s < 0,
{
    lemma_pow2_30_32();
}

pub proof fn lemma_stored_frac(w: int)
    requires
        in_band(w, 32),
    ensures
        mant(stored_frac(w)) == w,
{
    lemma_pow2_30_32();
}

pub proof fn lemma_stored_exp(k: int)
    requires
        -127 <= k <= 127,
    ensures
        exp_k(stored_exp(k)) == k,
        stored_exp(k) != 0,
{
}

/// A stored exponent is recovered from its logical exponent.
pub proof fn lemma_exp_round_trip(e: i8)
    requires
        e != 0,
    ensures
        stored_exp(exp_k(e)) == e,
{
}

/// `pack_spec` always yields either zero, a normal value, or an escaped value
/// whose fraction sits at its class's normalization level.
pub proof fn lemma_pack_class(x: int, t: int)
    requires
        x != 0,
    ensures
        ({
            let r = pack_spec(x, t);
            let m = sbits(x);
            let k = t + m - 1;
            &&& k > 127 ==> r.exploded_s() && (r.fraction >= 0 <==> x > 0)
            &&& k < -127 ==> r.vanished_s() && (r.fraction >= 0 <==> x > 0)
            &&& -127 <= k <= 127 ==> r.normal_s() && r.k() == k && r.w() == scale(x, m - 32)
                && (r.positive_s() <==> x > 0)
        }),
{
    lemma_pow2_30_32();
    let m = sbits(x);
    let k = t + m - 1;
    if k > 127 {
        lemma_scale_band(x, 31);
    } else if k < -127 {
        lemma_scale_band(x, 30);
    } else {
        lemma_scale_band(x, 32);
        lemma_stored_frac(scale(x, m - 32));
        lemma_stored_exp(k);
    }
    lemma_scale_sign(x, m - 31);
    lemma_scale_sign(x, m - 30);
    lemma_scale_sign(x, m - 32);
}

pub proof fn lemma_scale_sign(x: int, j: int)
    ensures
        x >= 0 ==> scale(x, j) >= 0,
        x < 0 ==> scale(x, j) < 0,
{
    if j >= 0 {
        lemma_pow2_pos(j as nat);
        let p = pow2(j as nat) as int;
        if x >= 0 {
            vstd::arithmetic::div_mod::lemma_div_is_ordered(0, x, p);
        } else {
            lemma_floor_neg(x, p);
            vstd::arithmetic::div_mod::lemma_div_is_ordered(0, -x - 1, p);
        }
    } else {
        lemma_pow2_pos((-j) as nat);
        let p = pow2((-j) as nat) as int;
        if x >= 0 {
            vstd::arithmetic::mul::lemma_mul_nonnegative(x, p);
        } else {
            assert(x * p < 0) by (nonlinear_arith)
                requires
                    x < 0,
                    p > 0,
            ;
        }
    }
}

/// Stored form of a logical exponent in `[-127, 127]`.
pub fn stored_exp_of(k: i32) -> (r: i8)
    requires
        -127 <= k <= 127,
    ensures
        r == stored_exp(k as int),
        r != 0,
{
    if k >= 0 {
        (k - 128) as i8
    } else {
        (k + 128) as i8
    }
}

/// Logical exponent of a stored exponent.
pub fn logical_exp(e: i8) -> (r: i32)
    ensures
        r == exp_k(e),
        -128 <= r <= 127,
{
    if e >= 0 {
        e as i32 - 128
    } else {
        e as i32 + 128
    }
}

/// Rounds `x * 2^t` to the format (see `pack_spec`).
pub fn pack(x: i128, t: i32) -> (r: Scalar)
    requires
        sbits(x as int) <= 126,
        -100_000 <= t <= 100_000,
    ensures
        r == pack_spec(x as int, t as int),
{
    if x == 0 {
        return Scalar { fraction: 0, exponent: 0 };
    }
    let m = sig_bits(x) as i32;
    let k = t + m - 1;
    proof {
        lemma_pow2_30_32();
    }
    if k > 127 {
        let f = to_band(x, 31);
        Scalar { fraction: f as i32, exponent: 0 }
    } else if k < -127 {
        let f = to_band(x, 30);
        Scalar { fraction: f as i32, exponent: 0 }
    } else {
        let w = to_band(x, 32);
        let s = if w >= 0 {
            w - 0x1_0000_0000
        } else {
            w + 0x1_0000_0000
        };
        Scalar { fraction: s as i32, exponent: stored_exp_of(k) }
    }
}

/// What `pack_spec` gives when the result is normal: `x * 2^t` rounded down
/// to the result's step (exactly, when `x` has at most 32 significant bits or
/// the dropped bits are zero).
pub proof fn lemma_pack_normal_value(x: int, t: int)
    requires
        x != 0,
        t + 158 >= 0,
        pack_spec(x, t).normal_s(),
    ensures
        ({
            let r = pack_spec(x, t);
            let v = x * pow2((t + 158) as nat);
            &&& r.ival() <= v < r.ival() + r.ulp()
            &&& sbits(x) <= 32 ==> r.ival() == v
            &&& (sbits(x) > 32 && x % pow2((sbits(x) - 32) as nat) as int == 0) ==> r.ival() == v
        }),
{
    let r = pack_spec(x, t);
    let m = sbits(x);
    let k = t + m - 1;
    lemma_pack_class(x, t);
    assert(-127 <= k <= 127);
    let d = m - 32;
    let c = (t + 158) as nat;
    let pc = pow2(c) as int;
    lemma_pow2_pos(c);
    let v = x * pc;
    assert(r.k() == t + d + 31);
    assert((r.k() + 127) as nat == (t + d + 158) as nat);
    if d <= 0 {
        let e = (-d) as nat;
        if d == 0 {
            lemma2_to64();
            assert(r.w() == x / 1);
        }
        assert(r.w() == x * pow2(e) as int);
        lemma_pow2_adds(e, (t + d + 158) as nat);
        assert((e + (t + d + 158) as nat) as nat == c);
        assert(r.ival() == (x * pow2(e)) * pow2((t + d + 158) as nat));
        vstd::arithmetic::mul::lemma_mul_is_associative(x, pow2(e) as int, pow2((t + d + 158) as nat) as int);
        assert(r.ival() == v);
        lemma_pow2_pos((r.k() + 127) as nat);
    } else {
        let dn = d as nat;
        let p = pow2(dn) as int;
        lemma_pow2_pos(dn);
        let q = x / p;
        assert(r.w() == q);
        vstd::arithmetic::div_mod::lemma_fundamental_div_mod(x, p);
        vstd::arithmetic::div_mod::lemma_mod_bound(x, p);
        let rem = x % p;
        lemma_pow2_adds(dn, c);
        assert((dn + c) as nat == (t + d + 158) as nat);
        let u = pow2((t + d + 158) as nat) as int;
        assert(u == p * pc);
        assert(r.ival() == q * u);
        assert(r.ulp() == u);
        assert(v == (p * q + rem) * pc);
        assert(q * u <= v < q * u + u) by (nonlinear_arith)
            requires
                u == p * pc,
                v == (p * q + rem) * pc,
                0 <= rem < p,
                pc > 0,
        ;
        if rem == 0 {
            assert(v == q * u) by (nonlinear_arith)
                requires
                    u == p * pc,
                    v == (p * q + rem) * pc,
                    rem == 0,
            ;
        }
    }
}

impl Scalar {
    /// Normalizes a fraction held as an explicit two's-complement significand
    /// (value `fraction * 2^(k - 31)`): shifts out the redundant sign bits,
    /// drops the sign into the implied position and lowers the exponent to
    /// match. A zero fraction becomes zero; an exponent that would fall below
    /// the range makes the value vanished.
    pub fn normalize(&mut self)
        ensures
            *final(self) == pack_spec(old(self).fraction as int, old(self).k() - 31),
    {
        let k = logical_exp(self.exponent);
        proof {
            lemma_pow2_30_32();
            crate::bits::lemma_sbits_le(self.fraction as int, 32);
        }
        *self = pack(self.fraction as i128, k - 31);
    }

    /// Places an escaped fraction at the exploded level (the top two bits
    /// differ), keeping the exponent.
    pub fn normalize_exploded(&mut self)
        ensures
            final(self).exponent == old(self).exponent,
            final(self).fraction == scale(old(self).fraction as int, sbits(old(self).fraction as int) - 31),
    {
        if self.fraction == 0 {
            proof {
                assert(sbits(0) == 0);
                assert(scale(0, -31) == 0);
            }
            return;
        }
        proof {
            lemma_pow2_30_32();
            crate::bits::lemma_sbits_le(self.fraction as int, 32);
            lemma_scale_band(self.fraction as int, 31);
        }
        self.fraction = to_band(self.fraction as i128, 31) as i32;
    }

    /// Places an escaped fraction at the vanished level (two sign bits, then
    /// the lead bit), keeping the exponent.
    pub fn normalize_vanished(&mut self)
        ensures
            final(self).exponent == old(self).exponent,
            final(self).fraction == scale(old(self).fraction as int, sbits(old(self).fraction as int) - 30),
    {
        if self.fraction == 0 {
            proof {
                assert(sbits(0) == 0);
                assert(scale(0, -30) == 0);
            }
            return;
        }
        proof {
            lemma_pow2_30_32();
            crate::bits::lemma_sbits_le(self.fraction as int, 32);
            lemma_scale_band(self.fraction as int, 30);
        }
        self.fraction = to_band(self.fraction as i128, 30) as i32;
    }
}

/// Packing a multiple of `2^j` one binade lower for each factor of two is
/// packing the multiplier.
pub proof fn lemma_pack_shift(y: int, s: int, j: nat)
    requires
        y != 0,
    ensures
        pack_spec(y * pow2(j) as int, s - j) == pack_spec(y, s),
{
    lemma_sbits_shift(y, j);
    let m = sbits(y) as int;
    lemma_scale_shift(y, j, m - 31);
    lemma_scale_shift(y, j, m - 30);
    lemma_scale_shift(y, j, m - 32);
}

} // verus!
