//! The `Circle` type: a complex number whose real and imaginary fractions
//! share one exponent.
use crate::bits::{
    lemma_scale_fits, lemma_sbits_le, lemma_sbits_range, sbits, scale, scale_by, sig_bits,
};
use crate::scalar::{
    exp_k, exploded_frac, lemma_pow2_30_32, logical_exp, pack_spec, sc, stored_exp,
    stored_exp_of, undefined_frac, uniform_frac, vanished_frac, Scalar,
};
use vstd::arithmetic::power2::*;
use vstd::prelude::*;

verus! {

/// A complex number: two 32-bit fractions with an explicit sign bit and a
/// shared 8-bit exponent. A normal Circle's value is
/// `(real + i * imaginary) * 2^(k - 30)`, with at least one fraction using
/// its full width (the top two bits differ), so the larger component lies in
/// binade `k` like a Scalar's value. The reserved exponent `0` marks
/// zero, infinity, exploded and vanished values and undefined states.
#[derive(Clone, Copy, Debug, PartialEq, Eq, Structural)]
pub struct Circle {
    pub real: i32,
    pub imaginary: i32,
    pub exponent: i8,
}

pub open spec fn cc(re: i32, im: i32, exponent: i8) -> Circle {
    Circle { real: re, imaginary: im, exponent }
}

/// High byte of a fraction.
pub open spec fn hb(s: i32) -> int {
    s / 0x100_0000
}

/// Both fractions rescaled together so that the wider one has `n`
/// significant bits (rounding toward negative infinity), with the reserved
/// exponent.
pub open spec fn level_spec(x: int, y: int, n: int) -> Circle {
    let m = if sbits(x) >= sbits(y) {
        sbits(x)
    } else {
        sbits(y)
    };
    cc(scale(x, m - n) as i32, scale(y, m - n) as i32, 0)
}

/// The complex value `(x + i y) * 2^t` rounded toward negative infinity
/// (component-wise) to the format; zero for `0 + 0i`; beyond the exponent
/// range it escapes to the exploded or vanished level.
pub open spec fn cpack_spec(x: int, y: int, t: int) -> Circle {
    if x == 0 && y == 0 {
        cc(0, 0, 0)
    } else {
        let m = if sbits(x) >= sbits(y) {
            sbits(x)
        } else {
            sbits(y)
        };
        let k = t + m - 1;
        if k > 127 {
            level_spec(x, y, 31)
        } else if k < -127 {
            level_spec(x, y, 30)
        } else {
            cc(scale(x, m - 31) as i32, scale(y, m - 31) as i32, stored_exp(k))
        }
    }
}

impl Circle {
    pub open spec fn normal_c(self) -> bool {
        self.exponent != 0
    }

    pub open spec fn k(self) -> int {
        exp_k(self.exponent)
    }

    /// Both high bytes are zero.
    pub open spec fn zero_c(self) -> bool {
        0 <= self.real < 0x100_0000 && 0 <= self.imaginary < 0x100_0000
    }

    /// Both high bytes are all ones.
    pub open spec fn infinite_c(self) -> bool {
        -0x100_0000 <= self.real < 0 && -0x100_0000 <= self.imaginary < 0
    }

    /// Equal, uniform high bytes.
    pub open spec fn n0_c(self) -> bool {
        hb(self.real) == hb(self.imaginary) && uniform_frac(self.real)
    }

    /// Some fraction at the exploded level (its top two bits differ).
    pub open spec fn n1_c(self) -> bool {
        exploded_frac(self.real) || exploded_frac(self.imaginary)
    }

    /// No fraction at the exploded level and some at the vanished level.
    pub open spec fn n2_c(self) -> bool {
        !self.n1_c() && (vanished_frac(self.real) || vanished_frac(self.imaginary))
    }

    /// Reserved exponent and one undefined high byte in both fractions.
    pub open spec fn undefined_c(self) -> bool {
        self.exponent == 0 && hb(self.real) == hb(self.imaginary) && undefined_frac(self.real)
    }

    pub open spec fn exploded_c(self) -> bool {
        self.exponent == 0 && self.n1_c()
    }

    /// Zero, infinity and undefined states: equal high bytes whose top three
    /// bits agree.
    pub open spec fn signless_c(self) -> bool {
        hb(self.real) == hb(self.imaginary) && (uniform_frac(self.real) || undefined_frac(
            self.real,
        ))
    }
}

/// The real part as a Scalar.
pub open spec fn part_spec(c: Circle, f: i32) -> Scalar {
    if c.normal_c() {
        pack_spec(f as int, c.k() - 30)
    } else if c.n2_c() {
        sc(scale(f as int, sbits(f as int) - 30) as i32, c.exponent)
    } else if c.n1_c() {
        sc(scale(f as int, sbits(f as int) - 31) as i32, c.exponent)
    } else {
        sc(f, c.exponent)
    }
}

/// Negation: exact and renormalized for normal values, at the same level
/// for escaped ones; zero, infinity and undefined states are unchanged.
pub open spec fn circle_negate_spec(c: Circle) -> Circle {
    if c.normal_c() {
        cpack_spec(-c.real, -c.imaginary, c.k() - 30)
    } else if c.signless_c() {
        c
    } else if c.n2_c() {
        level_spec(-c.real, -c.imaginary, 30)
    } else {
        level_spec(-c.real, -c.imaginary, 31)
    }
}

/// Complex conjugate: the imaginary fraction negated, renormalized like negation.
pub open spec fn conjugate_spec(c: Circle) -> Circle {
    if c.normal_c() {
        cpack_spec(c.real as int, -c.imaginary, c.k() - 30)
    } else if c.n2_c() {
        level_spec(c.real as int, -c.imaginary, 30)
    } else if c.exploded_c() {
        level_spec(c.real as int, -c.imaginary, 31)
    } else {
        c
    }
}

/// Multiplication by `2^n`: exact for normal values; escapes keep the
/// fractions at the exploded level, or halve them to the vanished level.
pub open spec fn circle_shl_spec(c: Circle, n: int) -> Circle {
    if !c.normal_c() {
        c
    } else if c.k() + n > 127 {
        cc(c.real, c.imaginary, 0)
    } else if c.k() + n < -127 {
        cc(scale(c.real as int, 1) as i32, scale(c.imaginary as int, 1) as i32, 0)
    } else {
        cc(c.real, c.imaginary, stored_exp(c.k() + n))
    }
}

/// High byte of a fraction, as an exec value.
pub(crate) fn high_byte(s: i32) -> (r: i32)
    ensures
        r == hb(s),
{
    let r = s >> 24u32;
    proof {
        assert(0x100_0000 * (s >> 24u32) <= s < 0x100_0000 * (s >> 24u32) + 0x100_0000)
            by (bit_vector);
        crate::bits::lemma_div_exact_q(s as int, 0x100_0000, r as int);
    }
    r
}

proof fn lemma_frac_sbits(c: Circle)
    ensures
        sbits(c.real as int) <= 64,
        sbits(-(c.real as int)) <= 64,
        sbits(c.imaginary as int) <= 64,
        sbits(-(c.imaginary as int)) <= 64,
{
    crate::bits::lemma_sbits_64(c.real as int);
    crate::bits::lemma_sbits_64(-(c.real as int));
    crate::bits::lemma_sbits_64(c.imaginary as int);
    crate::bits::lemma_sbits_64(-(c.imaginary as int));
}

/// Exec form of `level_spec`.
pub(crate) fn level(x: i128, y: i128, n: u32) -> (r: Circle)
    requires
        n == 30 || n == 31,
        sbits(x as int) <= 100,
        sbits(y as int) <= 100,
    ensures
        r == level_spec(x as int, y as int, n as int),
{
    let mx = sig_bits(x);
    let my = sig_bits(y);
    let m = if mx >= my {
        mx
    } else {
        my
    };
    proof {
        lemma_pow2_30_32();
        lemma_scale_fits(x as int, m as nat, n as nat);
        lemma_scale_fits(y as int, m as nat, n as nat);
        crate::bits::lemma_pow2_le(n as nat, 63);
    }
    let rx = scale_by(x, m as i32 - n as i32);
    let ry = scale_by(y, m as i32 - n as i32);
    Circle { real: rx as i32, imaginary: ry as i32, exponent: 0 }
}

/// Exec form of `cpack_spec`.
pub(crate) fn cpack(x: i128, y: i128, t: i32) -> (r: Circle)
    requires
        sbits(x as int) <= 100,
        sbits(y as int) <= 100,
        -100_000 <= t <= 100_000,
    ensures
        r == cpack_spec(x as int, y as int, t as int),
{
    if x == 0 && y == 0 {
        return Circle { real: 0, imaginary: 0, exponent: 0 };
    }
    let mx = sig_bits(x);
    let my = sig_bits(y);
    let m = if mx >= my {
        mx
    } else {
        my
    };
    let k = t + m as i32 - 1;
    proof {
        lemma_pow2_30_32();
        lemma_scale_fits(x as int, m as nat, 31);
        lemma_scale_fits(y as int, m as nat, 31);
        lemma_scale_fits(x as int, m as nat, 30);
        lemma_scale_fits(y as int, m as nat, 30);
        crate::bits::lemma_pow2_le(31, 63);
        crate::bits::lemma_pow2_le(30, 63);
    }
    if k > 127 {
        let rx = scale_by(x, m as i32 - 31);
        let ry = scale_by(y, m as i32 - 31);
        return Circle { real: rx as i32, imaginary: ry as i32, exponent: 0 };
    }
    if k < -127 {
        let rx = scale_by(x, m as i32 - 30);
        let ry = scale_by(y, m as i32 - 30);
        return Circle { real: rx as i32, imaginary: ry as i32, exponent: 0 };
    }
    let rx = scale_by(x, m as i32 - 31);
    let ry = scale_by(y, m as i32 - 31);
    Circle { real: rx as i32, imaginary: ry as i32, exponent: stored_exp_of(k) }
}

impl Circle {
    /// Creates a Circle from raw fraction and exponent bits.
    pub fn new(re: i32, im: i32, exponent: i8) -> (r: Circle)
        ensures
            r == cc(re, im, exponent),
    {
        Circle { real: re, imaginary: im, exponent }
    }

    /// Zero `[0]`.
    pub fn zero() -> (r: Circle)
        ensures
            r == cc(0, 0, 0),
    {
        Circle { real: 0, imaginary: 0, exponent: 0 }
    }

    /// Infinity `[∞]`.
    pub fn infinity() -> (r: Circle)
        ensures
            r == cc(-1i32, -1i32, 0),
    {
        Circle { real: -1, imaginary: -1, exponent: 0 }
    }

    /// The real part.
    pub fn r(&self) -> (r: Scalar)
        ensures
            r == part_spec(*self, self.real),
    {
        self.part(self.real)
    }

    /// The imaginary part.
    pub fn i(&self) -> (r: Scalar)
        ensures
            r == part_spec(*self, self.imaginary),
    {
        self.part(self.imaginary)
    }

    fn part(&self, f: i32) -> (r: Scalar)
        ensures
            r == part_spec(*self, f),
    {
        let mut s = Scalar { fraction: f, exponent: self.exponent };
        if self.is_normal() {
            let k = logical_exp(self.exponent);
            proof {
                lemma_pow2_30_32();
                lemma_sbits_le(f as int, 32);
            }
            s = crate::scalar::pack(f as i128, k - 30);
        } else if self.vanished() {
            s.normalize_vanished();
        } else if self.is_n1() {
            s.normalize_exploded();
        }
        s
    }

    /// Normal `[#]`: any stored exponent other than the reserved one.
    pub fn is_normal(&self) -> (r: bool)
        ensures
            r == self.normal_c(),
    {
        self.exponent != 0
    }

    /// Undefined `[℘?]`.
    pub fn is_undefined(&self) -> (r: bool)
        ensures
            r == self.undefined_c(),
    {
        if self.exponent != 0 {
            return false;
        }
        if high_byte(self.real) != high_byte(self.imaginary) {
            return false;
        }
        let s = self.real;
        (0x0100_0000 <= s && s < 0x2000_0000) || (-0x2000_0000 <= s && s < -0x0100_0000)
    }

    /// Equal, uniform high bytes (zero- or infinity-shaped).
    pub fn is_n0(&self) -> (r: bool)
        ensures
            r == self.n0_c(),
    {
        high_byte(self.real) == high_byte(self.imaginary) && -0x0100_0000 <= self.real
            && self.real < 0x0100_0000
    }

    /// Some fraction at the exploded level.
    pub fn is_n1(&self) -> (r: bool)
        ensures
            r == self.n1_c(),
    {
        let a = self.real;
        let b = self.imaginary;
        a >= 0x4000_0000 || a < -0x4000_0000 || b >= 0x4000_0000 || b < -0x4000_0000
    }

    /// No fraction at the exploded level, some at the vanished level.
    pub fn is_n2(&self) -> (r: bool)
        ensures
            r == self.n2_c(),
    {
        if self.is_n1() {
            return false;
        }
        let a = self.real;
        let b = self.imaginary;
        (0x2000_0000 <= a && a < 0x4000_0000) || (-0x4000_0000 <= a && a < -0x2000_0000) || (
        0x2000_0000 <= b && b < 0x4000_0000) || (-0x4000_0000 <= b && b < -0x2000_0000)
    }

    /// Negligible: zero or vanished.
    pub fn is_negligible(&self) -> (r: bool)
        ensures
            r == (self.zero_c() || self.n2_c()),
    {
        self.is_zero() || self.is_n2()
    }

    /// Vanished `[↓]`.
    pub fn vanished(&self) -> (r: bool)
        ensures
            r == self.n2_c(),
    {
        self.is_n2()
    }

    /// Exploded `[↑]`.
    pub fn exploded(&self) -> (r: bool)
        ensures
            r == self.exploded_c(),
    {
        if !self.is_normal() {
            return self.is_n1();
        }
        false
    }

    /// Transfinite: exploded or infinity.
    pub fn is_transfinite(&self) -> (r: bool)
        ensures
            r == (!self.normal_c() && (self.n1_c() || (self.real == -1 && self.imaginary == -1))),
    {
        if !self.is_normal() {
            return self.is_n1() || (self.real == -1 && self.imaginary == -1);
        }
        false
    }

    /// Finite: normal or zero.
    pub fn is_finite(&self) -> (r: bool)
        ensures
            r == (self.normal_c() || self.zero_c()),
    {
        self.is_normal() || self.is_zero()
    }

    /// Zero `[0]`.
    pub fn is_zero(&self) -> (r: bool)
        ensures
            r == self.zero_c(),
    {
        0 <= self.real && self.real < 0x100_0000 && 0 <= self.imaginary && self.imaginary
            < 0x100_0000
    }

    /// Infinity `[∞]`.
    pub fn is_infinite(&self) -> (r: bool)
        ensures
            r == self.infinite_c(),
    {
        -0x100_0000 <= self.real && self.real < 0 && -0x100_0000 <= self.imaginary
            && self.imaginary < 0
    }

    /// Renormalizes fractions held at any width (value
    /// `(real + i imaginary) * 2^(k - 30)`) so that the wider one uses its
    /// full width, adjusting the exponent; below the range the value vanishes.
    pub fn normalize(&mut self)
        ensures
            *final(self) == cpack_spec(old(self).real as int, old(self).imaginary as int, old(self).k() - 30),
    {
        let k = logical_exp(self.exponent);
        proof {
            lemma_pow2_30_32();
            lemma2_to64_rest();
            crate::bits::lemma_pow2_le(32, 64);
            lemma_sbits_le(self.real as int, 64);
            lemma_sbits_le(self.imaginary as int, 64);
        }
        *self = cpack(self.real as i128, self.imaginary as i128, k - 30);
    }

    /// Places the fractions at the vanished level, keeping the exponent.
    pub fn normalize_vanished(&mut self)
        ensures
            *final(self) == ({
                let l = level_spec(old(self).real as int, old(self).imaginary as int, 30);
                cc(l.real, l.imaginary, old(self).exponent)
            }),
    {
        proof {
            lemma_frac_sbits(*self);
        }
        let l = level(self.real as i128, self.imaginary as i128, 30);
        self.real = l.real;
        self.imaginary = l.imaginary;
    }

    /// Places the fractions at the exploded level, keeping the exponent.
    pub fn normalize_exploded(&mut self)
        ensures
            *final(self) == ({
                let l = level_spec(old(self).real as int, old(self).imaginary as int, 31);
                cc(l.real, l.imaginary, old(self).exponent)
            }),
    {
        proof {
            lemma_frac_sbits(*self);
        }
        let l = level(self.real as i128, self.imaginary as i128, 31);
        self.real = l.real;
        self.imaginary = l.imaginary;
    }

    fn signless(&self) -> (r: bool)
        ensures
            r == self.signless_c(),
    {
        let s = self.real;
        high_byte(self.real) == high_byte(self.imaginary) && -0x2000_0000 <= s && s
            < 0x2000_0000
    }

    /// Negates this Circle in place.
    pub fn circle_negate(&mut self)
        ensures
            *final(self) == circle_negate_spec(*old(self)),
    {
        if self.is_normal() {
            let k = logical_exp(self.exponent);
            proof {
                lemma_pow2_30_32();
                lemma2_to64_rest();
                crate::bits::lemma_pow2_le(33, 64);
                lemma_pow2_unfold(33);
                lemma_sbits_le(-(self.real as int), 33);
                lemma_sbits_le(-(self.imaginary as int), 33);
            }
            *self = cpack(-(self.real as i128), -(self.imaginary as i128), k - 30);
            return;
        }
        if self.signless() {
            return;
        }
        if self.vanished() {
            proof {
                lemma_frac_sbits(*self);
            }
            *self = level(-(self.real as i128), -(self.imaginary as i128), 30);
        } else {
            proof {
                lemma_frac_sbits(*self);
            }
            *self = level(-(self.real as i128), -(self.imaginary as i128), 31);
        }
    }

    /// The complex conjugate.
    pub fn conjugate(&self) -> (r: Circle)
        ensures
            r == conjugate_spec(*self),
    {
        if self.is_normal() {
            let k = logical_exp(self.exponent);
            proof {
                lemma_pow2_30_32();
                lemma2_to64_rest();
                crate::bits::lemma_pow2_le(33, 64);
                lemma_pow2_unfold(33);
                lemma_sbits_le(self.real as int, 33);
                lemma_sbits_le(-(self.imaginary as int), 33);
            }
            return cpack(self.real as i128, -(self.imaginary as i128), k - 30);
        }
        if self.vanished() {
            proof {
                lemma_frac_sbits(*self);
            }
            return level(self.real as i128, -(self.imaginary as i128), 30);
        }
        if self.exploded() {
            proof {
                lemma_frac_sbits(*self);
            }
            return level(self.real as i128, -(self.imaginary as i128), 31);
        }
        *self
    }

    /// Conjugates this Circle in place.
    pub fn conjugate_mut(&mut self)
        ensures
            *final(self) == conjugate_spec(*old(self)),
    {
        *self = self.conjugate();
    }

    /// Bitwise NOT of both fractions; undefined passes through.
    pub fn not_circle(&self) -> (r: Circle)
        ensures
            r == (if self.undefined_c() {
                *self
            } else {
                cc((-self.real - 1) as i32, (-self.imaginary - 1) as i32, self.exponent)
            }),
    {
        if self.is_undefined() {
            return *self;
        }
        let a = self.real;
        let b = self.imaginary;
        proof {
            assert(!a == -a - 1) by (bit_vector);
            assert(!b == -b - 1) by (bit_vector);
        }
        Circle { real: !a, imaginary: !b, exponent: self.exponent }
    }

    fn shift_exponent(&self, n: i32) -> (r: Circle)
        requires
            -255 <= n <= 255,
        ensures
            r == circle_shl_spec(*self, n as int),
    {
        if !self.is_normal() {
            return *self;
        }
        let k = logical_exp(self.exponent) + n;
        if k > 127 {
            return Circle { real: self.real, imaginary: self.imaginary, exponent: 0 };
        }
        if k < -127 {
            proof {
                lemma_pow2_30_32();
                lemma2_to64_rest();
                lemma_sbits_le(self.real as int, 64);
                lemma_sbits_le(self.imaginary as int, 64);
                lemma_sbits_le(self.real as int, 32);
                lemma_sbits_le(self.imaginary as int, 32);
                lemma_scale_fits(self.real as int, 32, 31);
                lemma_scale_fits(self.imaginary as int, 32, 31);
                crate::bits::lemma_pow2_le(31, 63);
            }
            let a = scale_by(self.real as i128, 1);
            let b = scale_by(self.imaginary as i128, 1);
            return Circle { real: a as i32, imaginary: b as i32, exponent: 0 };
        }
        Circle { real: self.real, imaginary: self.imaginary, exponent: stored_exp_of(k) }
    }

    /// Multiplies by `2^shift`.
    pub fn circle_shl_integer(&self, shift: &i8) -> (r: Circle)
        ensures
            r == circle_shl_spec(*self, *shift as int),
    {
        self.shift_exponent(*shift as i32)
    }

    /// Divides by `2^shift`.
    pub fn circle_shr_integer(&self, shift: &i8) -> (r: Circle)
        ensures
            r == circle_shl_spec(*self, -(*shift as int)),
    {
        self.shift_exponent(-(*shift as i32))
    }

    /// Equality: two normal Circles with the same bits, or two zeros.
    pub fn equals(&self, other: &Circle) -> (r: bool)
        ensures
            r == (if self.normal_c() && other.normal_c() {
                *self == *other
            } else {
                self.zero_c() && other.zero_c()
            }),
    {
        if self.is_normal() && other.is_normal() {
            self.exponent == other.exponent && self.real == other.real && self.imaginary
                == other.imaginary
        } else {
            self.is_zero() && other.is_zero()
        }
    }
}

} // verus!
