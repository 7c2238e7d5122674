//! Floored modulus of Scalars.
use crate::arith::add_spec;
use crate::basic::lemma_normal_sign;
use crate::bits::{fdiv, lemma_sbits_le};
use crate::scalar::{lemma_mant, lemma_pow2_30_32, logical_exp, pack, pack_spec, sc, Scalar};
use crate::undefined::{
    MODULUS_TRANSFINITE, MODULUS_VANISHED, TRANSFINITE_MODULUS, TRANSFINITE_MODULUS_TRANSFINITE,
    VANISHED_MODULUS_VANISHED,
};
use vstd::arithmetic::div_mod::*;
use vstd::arithmetic::power2::*;
use vstd::prelude::*;

verus! {

/// Floored remainder: `x - y * floor(x / y)`, which has the sign of `y`.
pub open spec fn fmod(x: int, y: int) -> int {
    x - y * fdiv(x, y)
}

/// Modulus of two normal values. When the numerator's exponent is below the
/// period's it is its own remainder if the signs agree, and the sum of the
/// two (a Scalar addition) if they differ; otherwise the floored remainder
/// is exact at the period's scale.
pub open spec fn mod_normal_spec(a: Scalar, b: Scalar) -> Scalar {
    if a.k() < b.k() {
        if a.negative_s() == b.negative_s() {
            a
        } else {
            add_spec(a, b)
        }
    } else {
        pack_spec(fmod(a.w() * pow2((a.k() - b.k()) as nat), b.w()), b.k() - 31)
    }
}

/// Floored modulus over all states: undefined propagates; zero on either
/// side gives zero; a transfinite numerator, a vanished or infinite period,
/// and an exploded period of the other sign are undefined; an exploded
/// period of the same sign leaves the numerator; a vanished numerator
/// beside a normal period is its own remainder (or the period, across
/// signs).
pub open spec fn mod_spec(a: Scalar, b: Scalar) -> Scalar {
    if a.normal_s() && b.normal_s() {
        mod_normal_spec(a, b)
    } else if a.undefined_s() {
        a
    } else if b.undefined_s() {
        b
    } else if a.zero_s() || b.zero_s() {
        sc(0i32, 0i8)
    } else if a.exploded_s() || a.infinite_s() {
        if b.exploded_s() || b.infinite_s() {
            sc(TRANSFINITE_MODULUS_TRANSFINITE, 0)
        } else {
            sc(TRANSFINITE_MODULUS, 0)
        }
    } else if b.vanished_s() {
        if a.vanished_s() {
            sc(VANISHED_MODULUS_VANISHED, 0)
        } else {
            sc(MODULUS_VANISHED, 0)
        }
    } else if b.infinite_s() {
        sc(MODULUS_TRANSFINITE, 0)
    } else if b.exploded_s() {
        if a.negative_s() == b.negative_s() {
            a
        } else {
            sc(MODULUS_TRANSFINITE, 0)
        }
    } else if a.vanished_s() {
        if a.negative_s() == b.negative_s() {
            a
        } else {
            b
        }
    } else {
        a
    }
}

/// The Euclidean remainder of a negated value.
proof fn lemma_neg_mod(n: int, m: int)
    requires
        n >= 0,
        m > 0,
    ensures
        (-n) % m == (if n % m == 0 {
            0
        } else {
            m - n % m
        }),
{
    lemma_fundamental_div_mod(n, m);
    lemma_mod_bound(n, m);
    let q = n / m;
    let r = n % m;
    if r == 0 {
        assert(-n == (-q) * m + 0) by (nonlinear_arith)
            requires
                n == m * q + r,
                r == 0,
        ;
        lemma_fundamental_div_mod_converse(-n, m, -q, 0);
    } else {
        assert(-n == (-q - 1) * m + (m - r)) by (nonlinear_arith)
            requires
                n == m * q + r,
        ;
        lemma_fundamental_div_mod_converse(-n, m, -q - 1, m - r);
    }
}

/// `(a * 2^d) % b`, reduced in steps so nothing overflows.
fn shifted_rem(a: u64, b: u64, d: u32) -> (r: u64)
    requires
        0 < b <= 0x1_0000_0000,
        a <= 0x1_0000_0000,
        d <= 255,
    ensures
        r == (a * pow2(d as nat)) % (b as int),
{
    let mut rem = a % b;
    let mut remaining = d;
    proof {
        lemma_mul_mod_noop_left(a as int, pow2(d as nat) as int, b as int);
    }
    while remaining > 0
        invariant
            0 < b <= 0x1_0000_0000,
            rem < b,
            (rem * pow2(remaining as nat)) % (b as int) == (a * pow2(d as nat)) % (b as int),
        decreases remaining,
    {
        let chunk: u32 = if remaining < 16 {
            remaining
        } else {
            16
        };
        let p = crate::bits::pow2_u128(chunk) as u64;
        proof {
            crate::bits::lemma_pow2_le(chunk as nat, 16);
            lemma2_to64();
            assert(rem * p < 0x1_0000_0000_0000_0000) by (nonlinear_arith)
                requires
                    rem < 0x1_0000_0000,
                    p <= 0x1_0000,
            ;
        }
        let next = (rem * p) % b;
        proof {
            let rest = (remaining - chunk) as nat;
            lemma_pow2_adds(chunk as nat, rest);
            lemma_mul_mod_noop_left(rem * p, pow2(rest) as int, b as int);
            assert((rem * p) * pow2(rest) == rem * pow2(remaining as nat)) by (nonlinear_arith)
                requires
                    pow2(remaining as nat) == p * pow2(rest),
            ;
        }
        rem = next;
        remaining = remaining - chunk;
    }
    proof {
        lemma2_to64();
        assert(rem * pow2(0) == rem);
        lemma_small_mod(rem as nat, b as nat);
    }
    rem
}

impl Scalar {
    /// Floored remainder of two normal values with the numerator's exponent
    /// at least the period's.
    fn mod_aligned(&self, b: &Scalar) -> (r: Scalar)
        requires
            self.normal_s(),
            b.normal_s(),
            self.k() >= b.k(),
        ensures
            r == pack_spec(fmod(self.w() * pow2((self.k() - b.k()) as nat), b.w()), b.k() - 31),
    {
        proof {
            lemma_mant(self.fraction);
            lemma_mant(b.fraction);
            lemma_pow2_30_32();
            lemma_normal_sign(*self);
            lemma_normal_sign(*b);
        }
        let wa = self.significand();
        let wb = b.significand();
        let d = (logical_exp(self.exponent) - logical_exp(b.exponent)) as u32;
        let na: u64 = if wa < 0 {
            (-wa) as u64
        } else {
            wa as u64
        };
        let nb: u64 = if wb < 0 {
            (-wb) as u64
        } else {
            wb as u64
        };
        let rm = shifted_rem(na, nb, d);
        let ghost p = pow2(d as nat) as int;
        let ghost x = wa * p;
        let ghost y = wb as int;
        proof {
            lemma_pow2_pos(d as nat);
            let n = na * p;
            let m = nb as int;
            assert(x == (if wa < 0 { -n } else { n })) by (nonlinear_arith)
                requires
                    n == na * p,
                    na == (if wa < 0 { -wa } else { wa as int }),
                    x == wa * p,
            ;
            assert(n >= 0) by (nonlinear_arith)
                requires
                    n == na * p,
                    na >= 0,
                    p > 0,
            ;
            lemma_fundamental_div_mod(n, m);
            lemma_neg_mod(n, m);
            if y > 0 {
                assert(fdiv(x, y) == x / y);
                lemma_fundamental_div_mod(x, y);
                assert(fmod(x, y) == x % y);
            } else {
                assert(fdiv(x, y) == (-x) / (-y));
                lemma_fundamental_div_mod(-x, -y);
                assert(fmod(x, y) == -((-x) % (-y))) by (nonlinear_arith)
                    requires
                        fmod(x, y) == x - y * ((-x) / (-y)),
                        -x == (-y) * ((-x) / (-y)) + (-x) % (-y),
                ;
            }
        }
        let sd = (wa < 0) != (wb < 0);
        let mag: i64 = if rm == 0 {
            0
        } else if sd {
            nb as i64 - rm as i64
        } else {
            rm as i64
        };
        let res: i64 = if wb < 0 {
            -mag
        } else {
            mag
        };
        proof {
            assert(res as int == fmod(x, y));
            lemma_sbits_le(res as int, 32);
        }
        pack(res as i128, logical_exp(b.exponent) - 31)
    }

    /// Floored modulus: the remainder takes the period's sign.
    pub fn scalar_modulus_scalar(&self, b: &Scalar) -> (r: Scalar)
        ensures
            r == mod_spec(*self, *b),
    {
        if self.is_normal() && b.is_normal() {
            if logical_exp(self.exponent) < logical_exp(b.exponent) {
                if self.is_negative() == b.is_negative() {
                    return *self;
                }
                return self.scalar_add_scalar(b);
            }
            return self.mod_aligned(b);
        }
        if self.is_undefined() {
            return *self;
        }
        if b.is_undefined() {
            return *b;
        }
        if self.is_zero() || b.is_zero() {
            return Scalar::zero();
        }
        if self.is_transfinite() {
            if b.is_transfinite() {
                return Scalar { fraction: TRANSFINITE_MODULUS_TRANSFINITE, exponent: 0 };
            }
            return Scalar { fraction: TRANSFINITE_MODULUS, exponent: 0 };
        }
        if b.vanished() {
            if self.vanished() {
                return Scalar { fraction: VANISHED_MODULUS_VANISHED, exponent: 0 };
            }
            return Scalar { fraction: MODULUS_VANISHED, exponent: 0 };
        }
        if b.is_infinite() {
            return Scalar { fraction: MODULUS_TRANSFINITE, exponent: 0 };
        }
        if b.exploded() {
            if self.is_negative() == b.is_negative() {
                return *self;
            }
            return Scalar { fraction: MODULUS_TRANSFINITE, exponent: 0 };
        }
        if self.vanished() {
            if self.is_negative() == b.is_negative() {
                return *self;
            }
            return *b;
        }
        *self
    }
}

} // verus!
