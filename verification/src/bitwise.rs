//! Bitwise operations on aligned `Scalar` values and shifts by whole powers
//! of two.
use crate::bits::lemma_sbits_le;
use crate::scalar::{
    lemma_mant, lemma_pow2_30_32, logical_exp, pack, pack_spec, sc, stored_exp, stored_exp_of,
    Scalar, NEG_ONE_EXPLODED, NEG_ONE_VANISHED, POS_ONE_EXPLODED, POS_ONE_VANISHED,
};
use crate::undefined::{AND, OR, XOR};
use vstd::arithmetic::power2::*;
use vstd::prelude::*;

verus! {

/// The three bitwise combinations.
#[derive(Clone, Copy, Debug, PartialEq, Eq, Structural)]
pub enum BitwiseOp {
    And,
    Or,
    Xor,
}

pub open spec fn combine(op: BitwiseOp, x: i64, y: i64) -> i64 {
    match op {
        BitwiseOp::And => x & y,
        BitwiseOp::Or => x | y,
        BitwiseOp::Xor => x ^ y,
    }
}

/// Bitwise NOT: every fraction bit flipped, exponent kept; undefined passes through.
pub open spec fn not_spec(x: Scalar) -> Scalar {
    if x.undefined_s() {
        x
    } else {
        sc((-x.fraction - 1) as i32, x.exponent)
    }
}

/// Operands whose bits do not overlap: the smaller one contributes only its
/// sign extension.
pub open spec fn no_overlap_spec(big: Scalar, small: Scalar, op: BitwiseOp) -> Scalar {
    match op {
        BitwiseOp::And => if small.negative_s() {
            big
        } else {
            sc(0i32, 0i8)
        },
        BitwiseOp::Or => if small.negative_s() {
            small
        } else {
            big
        },
        BitwiseOp::Xor => if small.negative_s() {
            not_spec(big)
        } else {
            big
        },
    }
}

/// Two normal operands aligned on the smaller exponent, combined bit by bit
/// in two's complement, and renormalized (rounding toward negative infinity).
pub open spec fn bitwise_normal_spec(a: Scalar, b: Scalar, op: BitwiseOp) -> Scalar {
    let big = if a.k() > b.k() {
        a
    } else {
        b
    };
    let small = if a.k() > b.k() {
        b
    } else {
        a
    };
    let shift = big.k() - small.k();
    if shift >= 32 {
        no_overlap_spec(big, small, op)
    } else {
        let r = combine(op, (big.w() * pow2(shift as nat)) as i64, small.w() as i64);
        pack_spec(r as int, small.k() - 31)
    }
}

/// AND: undefined propagates, infinity (all ones) is the identity, zero
/// absorbs, and escaped operands combine by sign where that is unambiguous.
pub open spec fn and_spec(a: Scalar, b: Scalar) -> Scalar {
    if a.normal_s() && b.normal_s() {
        bitwise_normal_spec(a, b, BitwiseOp::And)
    } else if a.undefined_s() {
        a
    } else if b.undefined_s() {
        b
    } else if a.infinite_s() {
        b
    } else if b.infinite_s() {
        a
    } else if a.zero_s() || b.zero_s() {
        sc(0i32, 0i8)
    } else if (a.exploded_s() && b.exploded_s()) || (a.vanished_s() && b.vanished_s())
        || a.normal_s() || b.normal_s() {
        sc(AND, 0)
    } else if a.vanished_s() {
        if a.fraction < 0 {
            b
        } else {
            sc(0i32, 0i8)
        }
    } else if b.fraction < 0 {
        a
    } else {
        sc(0i32, 0i8)
    }
}

/// OR: undefined propagates, infinity absorbs, zero is the identity, and
/// escaped operands combine by sign where that is unambiguous.
pub open spec fn or_spec(a: Scalar, b: Scalar) -> Scalar {
    if a.normal_s() && b.normal_s() {
        bitwise_normal_spec(a, b, BitwiseOp::Or)
    } else if a.undefined_s() {
        a
    } else if b.undefined_s() {
        b
    } else if a.infinite_s() || b.infinite_s() {
        sc(-1i32, 0i8)
    } else if a.zero_s() {
        b
    } else if b.zero_s() {
        a
    } else if (a.exploded_s() && b.exploded_s()) || (a.vanished_s() && b.vanished_s())
        || a.normal_s() || b.normal_s() {
        sc(OR, 0)
    } else if a.exploded_s() {
        if b.negative_s() {
            b
        } else {
            a
        }
    } else if a.negative_s() {
        a
    } else {
        b
    }
}

/// XOR: undefined propagates, zero is the identity, infinity inverts, and an
/// exploded operand with a vanished one gives the exploded one signed by both.
pub open spec fn xor_spec(a: Scalar, b: Scalar) -> Scalar {
    if a.normal_s() && b.normal_s() {
        bitwise_normal_spec(a, b, BitwiseOp::Xor)
    } else if a.undefined_s() {
        a
    } else if b.undefined_s() {
        b
    } else if a.zero_s() {
        b
    } else if b.zero_s() {
        a
    } else if a.infinite_s() {
        not_spec(b)
    } else if b.infinite_s() {
        not_spec(a)
    } else if (a.exploded_s() && b.exploded_s()) || (a.vanished_s() && b.vanished_s())
        || a.normal_s() || b.normal_s() {
        sc(XOR, 0)
    } else if a.exploded_s() {
        if b.negative_s() {
            not_spec(a)
        } else {
            a
        }
    } else if a.negative_s() {
        not_spec(b)
    } else {
        b
    }
}

/// Multiplication by `2^n`: exact for normal values, escaping to `±1` at the
/// exploded or vanished level when the exponent leaves the range; other
/// states are unchanged.
pub open spec fn shl_spec(x: Scalar, n: int) -> Scalar {
    if !x.normal_s() {
        x
    } else if x.k() + n > 127 {
        sc(
            if x.negative_s() {
                NEG_ONE_EXPLODED
            } else {
                POS_ONE_EXPLODED
            },
            0,
        )
    } else if x.k() + n < -127 {
        sc(
            if x.negative_s() {
                NEG_ONE_VANISHED
            } else {
                POS_ONE_VANISHED
            },
            0,
        )
    } else {
        sc(x.fraction, stored_exp(x.k() + n))
    }
}

impl Scalar {
    /// Bitwise NOT of the fraction.
    pub fn not_scalar(&self) -> (r: Scalar)
        ensures
            r == not_spec(*self),
    {
        if self.is_undefined() {
            return *self;
        }
        let s = self.fraction;
        proof {
            assert(!s == -s - 1) by (bit_vector);
        }
        Scalar { fraction: !s, exponent: self.exponent }
    }

    /// Combination of two normal values aligned on the smaller exponent.
    pub fn bitwise_normal(&self, other: &Scalar, op: BitwiseOp) -> (r: Scalar)
        requires
            self.normal_s(),
            other.normal_s(),
        ensures
            r == bitwise_normal_spec(*self, *other, op),
    {
        let ka = logical_exp(self.exponent);
        let kb = logical_exp(other.exponent);
        let (big, small, kbig, ksmall) = if ka > kb {
            (*self, *other, ka, kb)
        } else {
            (*other, *self, kb, ka)
        };
        let shift = kbig - ksmall;
        if shift >= 32 {
            return Scalar::bitwise_no_overlap(&big, &small, op);
        }
        proof {
            lemma_mant(big.fraction);
            lemma_mant(small.fraction);
            lemma_pow2_30_32();
        }
        let fb = big.fraction as i64;
        let wb: i64 = if fb < 0 {
            fb + 0x1_0000_0000
        } else {
            fb - 0x1_0000_0000
        };
        let fs = small.fraction as i64;
        let ws: i64 = if fs < 0 {
            fs + 0x1_0000_0000
        } else {
            fs - 0x1_0000_0000
        };
        let p = crate::bits::pow2_u128(shift as u32);
        proof {
            lemma_pow2_pos(shift as nat);
            crate::bits::lemma_pow2_le(shift as nat, 31);
            assert(-0x8000_0000_0000_0000 <= wb * p < 0x8000_0000_0000_0000) by (nonlinear_arith)
                requires
                    -0x1_0000_0000 <= wb < 0x1_0000_0000,
                    0 < p <= 0x8000_0000,
            ;
        }
        let x = wb * (p as i64);
        let r: i64 = match op {
            BitwiseOp::And => x & ws,
            BitwiseOp::Or => x | ws,
            BitwiseOp::Xor => x ^ ws,
        };
        proof {
            lemma2_to64_rest();
            lemma_pow2_unfold(64);
            lemma_sbits_le(r as int, 64);
        }
        pack(r as i128, ksmall - 31)
    }

    /// Combination of two normal values whose bits do not overlap.
    pub fn bitwise_no_overlap(big: &Scalar, small: &Scalar, op: BitwiseOp) -> (r: Scalar)
        ensures
            r == no_overlap_spec(*big, *small, op),
    {
        match op {
            BitwiseOp::And => if small.is_negative() {
                *big
            } else {
                Scalar::zero()
            },
            BitwiseOp::Or => if small.is_negative() {
                *small
            } else {
                *big
            },
            BitwiseOp::Xor => if small.is_negative() {
                big.not_scalar()
            } else {
                *big
            },
        }
    }

    /// Bitwise AND of two aligned Scalars.
    pub fn aligned_and(&self, other: &Scalar) -> (r: Scalar)
        ensures
            r == and_spec(*self, *other),
    {
        if self.is_normal() && other.is_normal() {
            return self.bitwise_normal(other, BitwiseOp::And);
        }
        if self.is_undefined() {
            return *self;
        }
        if other.is_undefined() {
            return *other;
        }
        if self.is_infinite() {
            return *other;
        }
        if other.is_infinite() {
            return *self;
        }
        if self.is_zero() || other.is_zero() {
            return Scalar::zero();
        }
        if (self.exploded() && other.exploded()) || (self.vanished() && other.vanished())
            || self.is_normal() || other.is_normal() {
            return Scalar { fraction: AND, exponent: 0 };
        }
        if self.vanished() {
            if self.fraction < 0 {
                return *other;
            }
            return Scalar::zero();
        }
        if other.fraction < 0 {
            return *self;
        }
        Scalar::zero()
    }

    /// Bitwise OR of two aligned Scalars.
    pub fn aligned_or(&self, other: &Scalar) -> (r: Scalar)
        ensures
            r == or_spec(*self, *other),
    {
        if self.is_normal() && other.is_normal() {
            return self.bitwise_normal(other, BitwiseOp::Or);
        }
        if self.is_undefined() {
            return *self;
        }
        if other.is_undefined() {
            return *other;
        }
        if self.is_infinite() || other.is_infinite() {
            return Scalar::infinity();
        }
        if self.is_zero() {
            return *other;
        }
        if other.is_zero() {
            return *self;
        }
        if (self.exploded() && other.exploded()) || (self.vanished() && other.vanished())
            || self.is_normal() || other.is_normal() {
            return Scalar { fraction: OR, exponent: 0 };
        }
        if self.exploded() {
            if other.is_negative() {
                return *other;
            }
            return *self;
        }
        if self.is_negative() {
            return *self;
        }
        *other
    }

    /// Bitwise XOR of two aligned Scalars.
    pub fn aligned_xor(&self, other: &Scalar) -> (r: Scalar)
        ensures
            r == xor_spec(*self, *other),
    {
        if self.is_normal() && other.is_normal() {
            return self.bitwise_normal(other, BitwiseOp::Xor);
        }
        if self.is_undefined() {
            return *self;
        }
        if other.is_undefined() {
            return *other;
        }
        if self.is_zero() {
            return *other;
        }
        if other.is_zero() {
            return *self;
        }
        if self.is_infinite() {
            return other.not_scalar();
        }
        if other.is_infinite() {
            return self.not_scalar();
        }
        if (self.exploded() && other.exploded()) || (self.vanished() && other.vanished())
            || self.is_normal() || other.is_normal() {
            return Scalar { fraction: XOR, exponent: 0 };
        }
        if self.exploded() {
            if other.is_negative() {
                return self.not_scalar();
            }
            return *self;
        }
        if self.is_negative() {
            return other.not_scalar();
        }
        *other
    }

    fn shift_exponent(&self, n: i32) -> (r: Scalar)
        requires
            -255 <= n <= 255,
        ensures
            r == shl_spec(*self, n as int),
    {
        if !self.is_normal() {
            return *self;
        }
        let k = logical_exp(self.exponent) + n;
        let neg = self.is_negative();
        if k > 127 {
            return Scalar {
                fraction: if neg {
                    NEG_ONE_EXPLODED
                } else {
                    POS_ONE_EXPLODED
                },
                exponent: 0,
            };
        }
        if k < -127 {
            return Scalar {
                fraction: if neg {
                    NEG_ONE_VANISHED
                } else {
                    POS_ONE_VANISHED
                },
                exponent: 0,
            };
        }
        Scalar { fraction: self.fraction, exponent: stored_exp_of(k) }
    }

    /// Multiplies by `2^shift`.
    pub fn scalar_shl_integer(&self, shift: &i8) -> (r: Scalar)
        ensures
            r == shl_spec(*self, *shift as int),
    {
        self.shift_exponent(*shift as i32)
    }

    /// Divides by `2^shift`.
    pub fn scalar_shr_integer(&self, shift: &i8) -> (r: Scalar)
        ensures
            r == shl_spec(*self, -(*shift as int)),
    {
        self.shift_exponent(-(*shift as i32))
    }
}

} // verus!
