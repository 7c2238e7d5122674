//! Bitwise operations on aligned `Circle` values, component by component.
use crate::bitwise::{combine, BitwiseOp};
use crate::circle::{cc, cpack, cpack_spec, level, level_spec, Circle};
use crate::circle_arith::cu;
use crate::scalar::{lemma_pow2_30_32, logical_exp, pack_spec, Scalar};
use crate::undefined::{AND, OR, XOR};
use vstd::arithmetic::power2::*;
use vstd::prelude::*;

verus! {

/// Sign extension of a fraction far below another one's precision: all ones
/// for a negative fraction, all zeros otherwise.
pub open spec fn sgn(x: i32) -> i64 {
    if x < 0 {
        -1i64
    } else {
        0i64
    }
}

/// Two normal Circles aligned on the smaller exponent (the second is the
/// bigger one on a tie) and combined component by component in two's
/// complement, then renormalized. When the operands are 32 or more binades
/// apart the smaller one contributes only its sign extension: AND
/// renormalizes at the bigger one's scale, XOR keeps the bigger one's
/// fractions in place, and OR gives the smaller one when both its
/// components are negative and `or_one_negative` of the bigger one otherwise.
pub open spec fn cbit_normal_spec(a: Circle, b: Circle, op: BitwiseOp) -> Circle {
    let big = if a.k() > b.k() {
        a
    } else {
        b
    };
    let small = if a.k() > b.k() {
        b
    } else {
        a
    };
    let shift = big.k() - small.k();
    if shift >= 32 {
        match op {
            BitwiseOp::Xor => cc(
                combine(op, big.real as i64, sgn(small.real)) as i32,
                combine(op, big.imaginary as i64, sgn(small.imaginary)) as i32,
                big.exponent,
            ),
            BitwiseOp::Or => if small.real < 0 && small.imaginary < 0 {
                small
            } else {
                or_one_negative(big, small, false)
            },
            BitwiseOp::And => cpack_spec(
                combine(op, big.real as i64, sgn(small.real)) as int,
                combine(op, big.imaginary as i64, sgn(small.imaginary)) as int,
                big.k() - 30,
            ),
        }
    } else {
        let p = pow2(shift as nat) as int;
        cpack_spec(
            combine(op, (big.real * p) as i64, small.real as i64) as int,
            combine(op, (big.imaginary * p) as i64, small.imaginary as i64) as int,
            small.k() - 30,
        )
    }
}

/// `x` combined with the sign extension of `y`, component by component,
/// placed at the exploded level.
pub open spec fn at_exploded(op: BitwiseOp, x: Circle, y: Circle) -> Circle {
    level_spec(
        combine(op, x.real as i64, sgn(y.real)) as int,
        combine(op, x.imaginary as i64, sgn(y.imaginary)) as int,
        31,
    )
}

/// `x` combined with the sign extension of `y`, renormalized at `x`'s scale.
pub open spec fn at_scale(op: BitwiseOp, x: Circle, y: Circle) -> Circle {
    cpack_spec(
        combine(op, x.real as i64, sgn(y.real)) as int,
        combine(op, x.imaginary as i64, sgn(y.imaginary)) as int,
        x.k() - 30,
    )
}

/// `x` combined with the sign extension of `y`, fractions kept as they come.
pub open spec fn in_place(op: BitwiseOp, x: Circle, y: Circle) -> Circle {
    cc(
        combine(op, x.real as i64, sgn(y.real)) as i32,
        combine(op, x.imaginary as i64, sgn(y.imaginary)) as i32,
        x.exponent,
    )
}

/// OR of `x` with an operand `y` that has exactly one negative component:
/// that component of the result is all ones (`-1`). `x`'s other component
/// is normalized on its own: at the exploded level when `exploded`, else
/// as a Scalar fraction at `x`'s exponent, normalized as `Scalar::normalize`
/// does, whose fraction and exponent the result takes. With no negative
/// component `x` is kept.
pub open spec fn or_one_negative(x: Circle, y: Circle, exploded: bool) -> Circle {
    let keep = if y.real < 0 {
        x.imaginary as int
    } else {
        x.real as int
    };
    let n = if exploded {
        let l = level_spec(keep, 0, 31);
        (l.real, l.exponent)
    } else {
        let s = pack_spec(keep, x.k() - 31);
        (s.fraction, s.exponent)
    };
    if y.real < 0 {
        cc(-1i32, n.0, n.1)
    } else if y.imaginary < 0 {
        cc(n.0, -1i32, n.1)
    } else {
        x
    }
}

/// AND over all states: undefined propagates; infinity, two exploded or two
/// vanished operands are undefined; zero absorbs; a vanished operand keeps
/// the other one's components where its own are negative, and so does a
/// normal operand beside an exploded one.
pub open spec fn cand_spec(a: Circle, b: Circle) -> Circle {
    let op = BitwiseOp::And;
    if a.normal_c() && b.normal_c() {
        cbit_normal_spec(a, b, op)
    } else if a.undefined_c() {
        a
    } else if b.undefined_c() {
        b
    } else if a.infinite_c() || b.infinite_c() || (a.exploded_c() && b.exploded_c()) || (a.n2_c()
        && b.n2_c()) {
        cu(AND)
    } else if a.zero_c() || b.zero_c() {
        cc(0, 0, 0)
    } else if a.n2_c() {
        if b.exploded_c() {
            at_exploded(op, b, a)
        } else {
            at_scale(op, b, a)
        }
    } else if b.n2_c() {
        if a.exploded_c() {
            at_exploded(op, a, b)
        } else {
            at_scale(op, a, b)
        }
    } else if a.exploded_c() {
        at_exploded(op, a, b)
    } else {
        at_exploded(op, b, a)
    }
}

/// OR over all states: undefined propagates; infinity or two exploded
/// operands are undefined; zero is the identity; a negative smaller operand
/// sets the corresponding components of the bigger one to all ones.
pub open spec fn cor_spec(a: Circle, b: Circle) -> Circle {
    let op = BitwiseOp::Or;
    if a.normal_c() && b.normal_c() {
        cbit_normal_spec(a, b, op)
    } else if a.undefined_c() {
        a
    } else if b.undefined_c() {
        b
    } else if a.infinite_c() || b.infinite_c() || (a.exploded_c() && b.exploded_c()) {
        cu(OR)
    } else if a.zero_c() {
        b
    } else if b.zero_c() {
        a
    } else if a.exploded_c() {
        if b.real < 0 && b.imaginary < 0 {
            b
        } else {
            or_one_negative(a, b, true)
        }
    } else if b.exploded_c() {
        if a.real < 0 && a.imaginary < 0 {
            a
        } else {
            or_one_negative(b, a, true)
        }
    } else if a.normal_c() {
        if b.real < 0 && b.imaginary < 0 {
            b
        } else {
            or_one_negative(a, b, false)
        }
    } else if b.normal_c() {
        if a.real < 0 && a.imaginary < 0 {
            a
        } else {
            or_one_negative(b, a, false)
        }
    } else {
        cu(OR)
    }
}

/// XOR over all states: undefined propagates; infinity or two exploded
/// operands are undefined; zero is the identity; a negative smaller operand
/// inverts the corresponding components of the bigger one.
pub open spec fn cxor_spec(a: Circle, b: Circle) -> Circle {
    let op = BitwiseOp::Xor;
    if a.normal_c() && b.normal_c() {
        cbit_normal_spec(a, b, op)
    } else if a.undefined_c() {
        a
    } else if b.undefined_c() {
        b
    } else if a.infinite_c() || b.infinite_c() || (a.exploded_c() && b.exploded_c()) {
        cu(XOR)
    } else if a.zero_c() {
        b
    } else if b.zero_c() {
        a
    } else if a.exploded_c() {
        in_place(op, a, b)
    } else if b.exploded_c() {
        in_place(op, b, a)
    } else if a.normal_c() {
        in_place(op, a, b)
    } else if b.normal_c() {
        in_place(op, b, a)
    } else {
        cu(XOR)
    }
}

/// Exec form of `combine`.
fn comb(op: BitwiseOp, x: i64, y: i64) -> (r: i64)
    ensures
        r == combine(op, x, y),
{
    match op {
        BitwiseOp::And => x & y,
        BitwiseOp::Or => x | y,
        BitwiseOp::Xor => x ^ y,
    }
}

fn sgn_of(x: i32) -> (r: i64)
    ensures
        r == sgn(x),
{
    if x < 0 {
        -1
    } else {
        0
    }
}

/// Combining two 32-bit values keeps a 32-bit value.
proof fn lemma_combine_i32(op: BitwiseOp, x: i32, y: i64)
    requires
        y == 0 || y == -1,
    ensures
        -0x8000_0000 <= combine(op, x as i64, y) < 0x8000_0000,
{
    let xx = x as i64;
    assert(-0x8000_0000 <= xx & y < 0x8000_0000) by (bit_vector)
        requires
            -0x8000_0000 <= xx < 0x8000_0000,
            y == 0 || y == -1,
    ;
    assert(-0x8000_0000 <= xx | y < 0x8000_0000) by (bit_vector)
        requires
            -0x8000_0000 <= xx < 0x8000_0000,
            y == 0 || y == -1,
    ;
    assert(-0x8000_0000 <= xx ^ y < 0x8000_0000) by (bit_vector)
        requires
            -0x8000_0000 <= xx < 0x8000_0000,
            y == 0 || y == -1,
    ;
}

impl Circle {
    fn with_sign_of(&self, other: &Circle, op: BitwiseOp) -> (r: (i64, i64))
        ensures
            r.0 == combine(op, self.real as i64, sgn(other.real)),
            r.1 == combine(op, self.imaginary as i64, sgn(other.imaginary)),
            -0x8000_0000 <= r.0 < 0x8000_0000,
            -0x8000_0000 <= r.1 < 0x8000_0000,
    {
        let sr = sgn_of(other.real);
        let si = sgn_of(other.imaginary);
        proof {
            lemma_combine_i32(op, self.real, sr);
            lemma_combine_i32(op, self.imaginary, si);
        }
        (comb(op, self.real as i64, sr), comb(op, self.imaginary as i64, si))
    }

    fn exploded_with(&self, other: &Circle, op: BitwiseOp) -> (r: Circle)
        ensures
            r == at_exploded(op, *self, *other),
    {
        let (x, y) = self.with_sign_of(other, op);
        proof {
            crate::bits::lemma_sbits_64(x as int);
            crate::bits::lemma_sbits_64(y as int);
        }
        level(x as i128, y as i128, 31)
    }

    fn or_one_negative_with(&self, other: &Circle, exploded: bool) -> (r: Circle)
        ensures
            r == or_one_negative(*self, *other, exploded),
    {
        if other.real >= 0 && other.imaginary >= 0 {
            return *self;
        }
        let keep: i32 = if other.real < 0 {
            self.imaginary
        } else {
            self.real
        };
        proof {
            crate::bits::lemma_sbits_64(keep as int);
            crate::bits::lemma_sbits_64(0);
        }
        let (f, e) = if exploded {
            let l = level(keep as i128, 0, 31);
            (l.real, l.exponent)
        } else {
            let mut part = Scalar { fraction: keep, exponent: self.exponent };
            part.normalize();
            (part.fraction, part.exponent)
        };
        if other.real < 0 {
            Circle { real: -1, imaginary: f, exponent: e }
        } else {
            Circle { real: f, imaginary: -1, exponent: e }
        }
    }

    fn scaled_with(&self, other: &Circle, op: BitwiseOp) -> (r: Circle)
        ensures
            r == at_scale(op, *self, *other),
    {
        let (x, y) = self.with_sign_of(other, op);
        proof {
            crate::bits::lemma_sbits_64(x as int);
            crate::bits::lemma_sbits_64(y as int);
        }
        let k = logical_exp(self.exponent);
        cpack(x as i128, y as i128, k - 30)
    }

    fn in_place_with(&self, other: &Circle, op: BitwiseOp) -> (r: Circle)
        ensures
            r == in_place(op, *self, *other),
    {
        let (x, y) = self.with_sign_of(other, op);
        Circle { real: x as i32, imaginary: y as i32, exponent: self.exponent }
    }

    /// Component-wise combination of two normal Circles.
    fn bitwise_normal(&self, other: &Circle, op: BitwiseOp) -> (r: Circle)
        requires
            self.normal_c(),
            other.normal_c(),
        ensures
            r == cbit_normal_spec(*self, *other, op),
    {
        let ka = logical_exp(self.exponent);
        let kb = logical_exp(other.exponent);
        let (big, small, kbig, ksmall) = if ka > kb {
            (*self, *other, ka, kb)
        } else {
            (*other, *self, kb, ka)
        };
        let shift = kbig - ksmall;
        if shift >= 32 {
            match op {
                BitwiseOp::Xor => {
                    return big.in_place_with(&small, op);
                },
                BitwiseOp::Or => {
                    if small.real < 0 && small.imaginary < 0 {
                        return small;
                    }
                    return big.or_one_negative_with(&small, false);
                },
                BitwiseOp::And => {
                    return big.scaled_with(&small, op);
                },
            }
        }
        let p = crate::bits::pow2_u128(shift as u32);
        proof {
            lemma_pow2_pos(shift as nat);
            crate::bits::lemma_pow2_le(shift as nat, 31);
            lemma_pow2_30_32();
            assert(-0x4000_0000_0000_0000 <= big.real * p <= 0x4000_0000_0000_0000)
                by (nonlinear_arith)
                requires
                    -0x8000_0000 <= big.real <= 0x8000_0000,
                    0 < p <= 0x8000_0000,
            ;
            assert(-0x4000_0000_0000_0000 <= big.imaginary * p <= 0x4000_0000_0000_0000)
                by (nonlinear_arith)
                requires
                    -0x8000_0000 <= big.imaginary <= 0x8000_0000,
                    0 < p <= 0x8000_0000,
            ;
        }
        let xr = (big.real as i64) * (p as i64);
        let xi = (big.imaginary as i64) * (p as i64);
        let rr = comb(op, xr, small.real as i64);
        let ri = comb(op, xi, small.imaginary as i64);
        proof {
            crate::bits::lemma_sbits_64(rr as int);
            crate::bits::lemma_sbits_64(ri as int);
        }
        cpack(rr as i128, ri as i128, ksmall - 30)
    }

    /// Bitwise AND of two aligned Circles.
    pub fn aligned_and(&self, other: &Circle) -> (r: Circle)
        ensures
            r == cand_spec(*self, *other),
    {
        let op = BitwiseOp::And;
        if self.is_normal() && other.is_normal() {
            return self.bitwise_normal(other, op);
        }
        if self.is_undefined() {
            return *self;
        }
        if other.is_undefined() {
            return *other;
        }
        if self.is_infinite() || other.is_infinite() || (self.exploded() && other.exploded()) || (
        self.vanished() && other.vanished()) {
            return Circle { real: AND, imaginary: AND, exponent: 0 };
        }
        if self.is_zero() || other.is_zero() {
            return Circle::zero();
        }
        if self.vanished() {
            if other.exploded() {
                return other.exploded_with(self, op);
            }
            return other.scaled_with(self, op);
        }
        if other.vanished() {
            if self.exploded() {
                return self.exploded_with(other, op);
            }
            return self.scaled_with(other, op);
        }
        if self.exploded() {
            return self.exploded_with(other, op);
        }
        other.exploded_with(self, op)
    }

    /// Bitwise OR of two aligned Circles.
    pub fn aligned_or(&self, other: &Circle) -> (r: Circle)
        ensures
            r == cor_spec(*self, *other),
    {
        let op = BitwiseOp::Or;
        if self.is_normal() && other.is_normal() {
            return self.bitwise_normal(other, op);
        }
        if self.is_undefined() {
            return *self;
        }
        if other.is_undefined() {
            return *other;
        }
        if self.is_infinite() || other.is_infinite() || (self.exploded() && other.exploded()) {
            return Circle { real: OR, imaginary: OR, exponent: 0 };
        }
        if self.is_zero() {
            return *other;
        }
        if other.is_zero() {
            return *self;
        }
        if self.exploded() {
            if other.real < 0 && other.imaginary < 0 {
                return *other;
            }
            return self.or_one_negative_with(other, true);
        }
        if other.exploded() {
            if self.real < 0 && self.imaginary < 0 {
                return *self;
            }
            return other.or_one_negative_with(self, true);
        }
        if self.is_normal() {
            if other.real < 0 && other.imaginary < 0 {
                return *other;
            }
            return self.or_one_negative_with(other, false);
        }
        if other.is_normal() {
            if self.real < 0 && self.imaginary < 0 {
                return *self;
            }
            return other.or_one_negative_with(self, false);
        }
        Circle { real: OR, imaginary: OR, exponent: 0 }
    }

    /// Bitwise XOR of two aligned Circles.
    pub fn aligned_xor(&self, other: &Circle) -> (r: Circle)
        ensures
            r == cxor_spec(*self, *other),
    {
        let op = BitwiseOp::Xor;
        if self.is_normal() && other.is_normal() {
            return self.bitwise_normal(other, op);
        }
        if self.is_undefined() {
            return *self;
        }
        if other.is_undefined() {
            return *other;
        }
        if self.is_infinite() || other.is_infinite() || (self.exploded() && other.exploded()) {
            return Circle { real: XOR, imaginary: XOR, exponent: 0 };
        }
        if self.is_zero() {
            return *other;
        }
        if other.is_zero() {
            return *self;
        }
        if self.exploded() {
            return self.in_place_with(other, op);
        }
        if other.exploded() {
            return other.in_place_with(self, op);
        }
        if self.is_normal() {
            return self.in_place_with(other, op);
        }
        if other.is_normal() {
            return other.in_place_with(self, op);
        }
        Circle { real: XOR, imaginary: XOR, exponent: 0 }
    }
}

} // verus!
