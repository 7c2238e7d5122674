//! Negation, magnitude and sign of a `Scalar`.
use crate::bits::{in_band, lemma_band_sbits, sbits, scale};
use crate::scalar::{
    lemma_mant, lemma_pack_class, lemma_pack_normal_value, lemma_pow2_30_32, logical_exp, pack,
    pack_spec, sc, stored_exp, stored_exp_of, Scalar, NEG_ONE_EXPLODED, NEG_ONE_VANISHED,
    POS_ONE_EXPLODED, POS_ONE_VANISHED,
};
use crate::undefined::SIGN_INDETERMINATE;
use vstd::arithmetic::power2::*;
use vstd::prelude::*;

verus! {

/// Negation. A normal value is negated exactly and renormalized (which moves
/// `+2^k` and `-2^(k+1)` to the neighbouring binade, escaping at the ends of
/// the exponent range); an escaped value changes sign and keeps its class,
/// with `±1` at each level swapped canonically; signless values (zero,
/// infinity, undefined) are unchanged.
pub open spec fn negate_spec(x: Scalar) -> Scalar {
    if x.normal_s() {
        pack_spec(-x.w(), x.k() - 31)
    } else if x.uniform_s() || x.undefined_s() {
        x
    } else if x.fraction == POS_ONE_EXPLODED {
        sc(NEG_ONE_EXPLODED, 0)
    } else if x.fraction == NEG_ONE_EXPLODED {
        sc(POS_ONE_EXPLODED, 0)
    } else if x.fraction == POS_ONE_VANISHED {
        sc(NEG_ONE_VANISHED, 0)
    } else if x.fraction == NEG_ONE_VANISHED {
        sc(POS_ONE_VANISHED, 0)
    } else {
        sc((-x.fraction) as i32, 0)
    }
}

/// Magnitude: negative values are negated, everything else is unchanged.
pub open spec fn magnitude_spec(x: Scalar) -> Scalar {
    if x.negative_s() {
        negate_spec(x)
    } else {
        x
    }
}

/// Sign: `+1` or `-1` by the sign of the value; zero and infinity (and any
/// other uniform fraction) have no sign; undefined states pass through.
pub open spec fn sign_spec(x: Scalar) -> Scalar {
    if x.undefined_s() {
        x
    } else if x.uniform_s() {
        sc(SIGN_INDETERMINATE, 0)
    } else if x.positive_s() {
        sc(-0x8000_0000i32, stored_exp(0))
    } else {
        sc(0i32, stored_exp(-1))
    }
}

/// Facts about negating a normal value.
pub proof fn lemma_negate_normal(x: Scalar)
    requires
        x.normal_s(),
    ensures
        ({
            let r = negate_spec(x);
            &&& r.normal_s() ==> r.ival() == -x.ival()
            &&& r.exploded_s() ==> x.negative_s() && r.fraction == POS_ONE_EXPLODED && x.k() == 127
            &&& r.vanished_s() ==> x.positive_s() && r.fraction == NEG_ONE_VANISHED && x.k() == -127
            &&& (r.normal_s() || r.exploded_s() || r.vanished_s())
            &&& x.positive_s() ==> r.negative_s()
            &&& x.negative_s() ==> r.positive_s()
        }),
{
    lemma_mant(x.fraction);
    lemma_pow2_30_32();
    let w = x.w();
    let t = x.k() - 31;
    lemma_pack_class(-w, t);
    let m = sbits(-w);
    lemma2_to64();
    if w == 0x8000_0000 {
        assert(in_band(-w, 31));
        lemma_band_sbits(-w, 31);
        assert(scale(-w, -1) == -w * 2);
        assert(scale(-w, 1) == -0x4000_0000) by {
            crate::bits::lemma_div_exact_q(-w, 2, -0x4000_0000);
        }
    } else if w == -0x1_0000_0000 {
        assert(in_band(-w, 33)) by {
            lemma_pow2_unfold(33);
        }
        lemma_band_sbits(-w, 33);
        assert(scale(-w, 1) == 0x8000_0000) by {
            crate::bits::lemma_div_exact_q(-w, 2, 0x8000_0000);
        }
        assert(scale(-w, 2) == 0x4000_0000) by {
            crate::bits::lemma_div_exact_q(-w, 4, 0x4000_0000);
        }
    } else {
        assert(in_band(-w, 32));
        lemma_band_sbits(-w, 32);
        assert(scale(-w, 0) == -w / 1);
    }
    let r = negate_spec(x);
    crate::basic::lemma_normal_sign(x);
    if r.normal_s() {
        lemma_pack_normal_value(-w, t);
        if m > 32 {
            assert((-w) % 2 == 0);
        }
        vstd::arithmetic::mul::lemma_mul_unary_negation(w, pow2((t + 158) as nat) as int);
        assert((t + 158) as nat == (x.k() + 127) as nat);
        crate::basic::lemma_normal_sign(r);
    }
}

impl Scalar {
    /// Negates this Scalar in place, with enumerated boundary cases and a plain
    /// two's-complement negation elsewhere.
    pub fn scalar_negate(&mut self)
        ensures
            *final(self) == negate_spec(*old(self)),
    {
        proof {
            lemma_pow2_30_32();
            lemma_mant(self.fraction);
        }
        if !self.is_normal() {
            let s = self.fraction;
            if -0x2000_0000 <= s && s < 0x2000_0000 {
                return;
            }
            if s == POS_ONE_EXPLODED {
                self.fraction = NEG_ONE_EXPLODED;
            } else if s == NEG_ONE_EXPLODED {
                self.fraction = POS_ONE_EXPLODED;
            } else if s == POS_ONE_VANISHED {
                self.fraction = NEG_ONE_VANISHED;
            } else if s == NEG_ONE_VANISHED {
                self.fraction = POS_ONE_VANISHED;
            } else {
                self.fraction = -s;
            }
            return;
        }
        let ghost x = *self;
        let k = logical_exp(self.exponent);
        proof {
            let w = x.w();
            let t = x.k() - 31;
            lemma_pack_class(-w, t);
            if w == 0x8000_0000 {
                assert(in_band(-w, 31));
                lemma_band_sbits(-w, 31);
                lemma2_to64();
                assert(scale(-w, -1) == -w * 2);
                assert(scale(-w, 1) == -0x4000_0000) by {
                    crate::bits::lemma_div_exact_q(-w, 2, -0x4000_0000);
                }
            } else if w == -0x1_0000_0000 {
                assert(in_band(-w, 33)) by {
                    lemma_pow2_unfold(33);
                }
                lemma_band_sbits(-w, 33);
                lemma2_to64();
                assert(scale(-w, 1) == 0x8000_0000) by {
                    crate::bits::lemma_div_exact_q(-w, 2, 0x8000_0000);
                }
                assert(scale(-w, 2) == 0x4000_0000) by {
                    crate::bits::lemma_div_exact_q(-w, 4, 0x4000_0000);
                }
            } else {
                assert(in_band(-w, 32));
                lemma_band_sbits(-w, 32);
                lemma2_to64();
                assert(scale(-w, 0) == -w / 1);
            }
        }
        if self.fraction == -0x8000_0000 {
            if k == -127 {
                self.fraction = NEG_ONE_VANISHED;
                self.exponent = 0;
            } else {
                self.fraction = 0;
                self.exponent = stored_exp_of(k - 1);
            }
        } else if self.fraction == 0 {
            if k == 127 {
                self.fraction = POS_ONE_EXPLODED;
                self.exponent = 0;
            } else {
                self.fraction = -0x8000_0000;
                self.exponent = stored_exp_of(k + 1);
            }
        } else {
            self.fraction = -self.fraction;
        }
    }

    /// Negates this Scalar in place thru the shared widen → negate →
    /// renormalize pipeline (the same rounding path as the arithmetic).
    pub fn scalar_negate_unified(&mut self)
        ensures
            *final(self) == negate_spec(*old(self)),
    {
        if !self.is_normal() {
            self.scalar_negate();
            return;
        }
        proof {
            lemma_mant(self.fraction);
            lemma_pow2_30_32();
        }
        let s = self.fraction as i64;
        let w: i64 = if s < 0 {
            s + 0x1_0000_0000
        } else {
            s - 0x1_0000_0000
        };
        let k = logical_exp(self.exponent);
        proof {
            assert(sbits(-(w as int)) <= 126) by {
                if w == 0x8000_0000 {
                    assert(in_band(-w, 31));
                    lemma_band_sbits(-w, 31);
                } else if w == -0x1_0000_0000 {
                    assert(in_band(-w, 33)) by {
                        lemma_pow2_unfold(33);
                    }
                    lemma_band_sbits(-w, 33);
                } else {
                    assert(in_band(-w, 32));
                    lemma_band_sbits(-w, 32);
                }
            }
        }
        *self = pack(-(w as i128), k - 31);
    }

    /// Magnitude: the distance from zero, keeping the scale.
    pub fn magnitude(&self) -> (r: Scalar)
        ensures
            r == magnitude_spec(*self),
    {
        if self.is_negative() {
            let mut r = *self;
            r.scalar_negate();
            r
        } else {
            *self
        }
    }

    /// Unit value with this Scalar's sign.
    pub fn sign(&self) -> (r: Scalar)
        ensures
            r == sign_spec(*self),
    {
        if self.is_undefined() {
            return *self;
        }
        if self.is_uniform() {
            return Scalar { fraction: SIGN_INDETERMINATE, exponent: 0 };
        }
        if self.is_positive() {
            return Scalar::one();
        }
        Scalar::neg_one()
    }
}

} // verus!
