//! Laws of the logarithms, the exponential, powers, the Circle square root
//! and fractional digits: relations between operations that hold for every
//! input of the stated classes.
use crate::arith::{add_spec, div_spec, escaped_spec, mul_spec, sig, signed_escape_spec, square_spec};
use crate::basic::unit;
use crate::bits::{in_band, sbits, scale};
use crate::cmodular::sub_spec;
use crate::exponents::{
    e_spec, epow, exp_spec, lb_bits, lb_spec, lb_step, ln_spec, ln_two_spec, one_spec, power_spec,
    powb_spec, series,
};
use crate::bitwise::shl_spec;
use crate::circle::{cpack_spec, Circle};
use crate::cmodular::from_ri_spec;
use crate::croots::{csqrt_spec, half_root};
use crate::display::{frac_digits, to_u8_spec};
use crate::neg::negate_spec;
use crate::rounding::{floor_spec, integer_spec};
use crate::scalar::{pack_spec, sc, stored_exp, Scalar};
use vstd::arithmetic::power2::*;
use vstd::prelude::*;

verus! {

/// One squares to itself.
proof fn lemma_square_one()
    ensures
        square_spec(one_spec()) == one_spec(),
{
    crate::scalar::lemma_stored_exp(0);
    crate::laws::law_mul_one_identity(one_spec());
}

/// The digit recurrence of the binary logarithm never leaves one: every
/// bit is zero.
proof fn lemma_lb_bits_one(n: nat)
    ensures
        lb_bits(one_spec(), n) == (0int, one_spec()),
    decreases n,
{
    if n > 0 {
        lemma_lb_bits_one((n - 1) as nat);
        lemma_square_one();
        crate::scalar::lemma_stored_exp(0);
        assert(lb_step(one_spec()) == (false, one_spec()));
    }
}

/// Two, exactly.
proof fn lemma_two()
    ensures
        pack_spec(2, 0) == sc(-0x8000_0000i32, stored_exp(1)),
        pack_spec(1, 0) == one_spec(),
{
    crate::scalar::lemma_pow2_30_32();
    assert(crate::bits::sbits(2) == 2) by {
        reveal_with_fuel(crate::bits::nb, 3);
    }
    assert(crate::bits::sbits(1) == 1) by {
        reveal_with_fuel(crate::bits::nb, 2);
    }
    assert(crate::bits::scale(2, -30) == 0x8000_0000) by {
        lemma2_to64();
    }
    assert(crate::bits::scale(1, -31) == 0x8000_0000) by {
        lemma2_to64();
    }
}

/// The binary logarithm of two is one, and the natural logarithm of two is
/// the constant `ln 2`.
pub proof fn law_logarithms_of_two()
    ensures
        lb_spec(pack_spec(2, 0)) == one_spec(),
        ln_spec(pack_spec(2, 0)) == ln_two_spec(),
{
    lemma_two();
    crate::scalar::lemma_stored_exp(1);
    crate::scalar::lemma_stored_exp(0);
    lemma_lb_bits_one(32);
    assert(pack_spec(0, -32) == sc(0i32, 0i8));
    crate::laws::law_zero_adds_nothing(one_spec());
    crate::scalar::lemma_stored_exp(-1);
    crate::laws::law_mul_one_identity(ln_two_spec());
}

/// Two raised to a power that is not an integer is the binary exponential
/// of that power: `2^p == powb(p)`.
pub proof fn law_power_of_two_is_binary_exponential(p: Scalar)
    requires
        p.normal_s(),
        !integer_spec(p),
    ensures
        power_spec(pack_spec(2, 0), p) == powb_spec(p),
{
    law_logarithms_of_two();
    lemma_two();
    crate::scalar::lemma_stored_exp(1);
}

/// A power of `e` as binary powering builds it: a normal value of at least
/// one (positive, at a binade not below zero), or an exploded one.
pub open spec fn at_least_one(x: Scalar) -> bool {
    (x.normal_s() && x.positive_s() && x.k() >= 0) || x.exploded_s()
}

/// An escaped value built from a non-zero significand is in its class.
proof fn lemma_escaped_class(g: int, exploded: bool)
    requires
        g != 0,
    ensures
        exploded ==> escaped_spec(g, exploded).exploded_s(),
        !exploded ==> escaped_spec(g, exploded).vanished_s(),
{
    crate::scalar::lemma_pow2_30_32();
    crate::bits::lemma_scale_band(g, 31);
    crate::bits::lemma_scale_band(g, 30);
}

/// A non-zero significand escaped beyond the normal range is exploded,
/// whatever its sign.
proof fn lemma_signed_escape_exploded(p: int)
    requires
        p != 0,
    ensures
        signed_escape_spec(p, true).exploded_s(),
{
    if p < 0 {
        lemma_escaped_class(-p, true);
        let e = escaped_spec(-p, true);
        crate::scalar::lemma_pow2_30_32();
        crate::bits::lemma_scale_band(-p, 31);
        crate::basic::lemma_classes(e);
        let j = (sbits(-p) - 31) as int;
        if j >= 0 {
            lemma_pow2_pos(j as nat);
            assert(scale(-p, j) >= 0) by (nonlinear_arith)
                requires
                    scale(-p, j) == (-p) / (pow2(j as nat) as int),
                    -p > 0,
                    pow2(j as nat) > 0,
            ;
        } else {
            lemma_pow2_pos((-j) as nat);
            assert(scale(-p, j) >= 0) by (nonlinear_arith)
                requires
                    scale(-p, j) == (-p) * (pow2((-j) as nat) as int),
                    -p > 0,
                    pow2((-j) as nat) > 0,
            ;
        }
        assert(e.fraction >= 0x4000_0000);
    } else {
        lemma_escaped_class(p, true);
    }
}

/// A normal value of at least one has a significand of at least `2^31`.
proof fn lemma_at_least_one_normal(x: Scalar)
    requires
        x.normal_s(),
        x.positive_s(),
    ensures
        0x8000_0000 <= x.w() < 0x1_0000_0000,
{
    crate::scalar::lemma_mant(x.fraction);
    crate::scalar::lemma_pow2_30_32();
}

/// Products of values of at least one are at least one (or exploded).
proof fn lemma_mul_at_least_one(a: Scalar, b: Scalar)
    requires
        at_least_one(a),
        at_least_one(b),
    ensures
        at_least_one(mul_spec(a, b)),
        at_least_one(square_spec(a)),
{
    lemma_mul_at_least_one_only(a, b);
    lemma_mul_at_least_one_only(a, a);
}

proof fn lemma_mul_at_least_one_only(a: Scalar, b: Scalar)
    requires
        at_least_one(a),
        at_least_one(b),
    ensures
        at_least_one(mul_spec(a, b)),
{
    crate::basic::lemma_classes(a);
    crate::basic::lemma_classes(b);
    if a.normal_s() && b.normal_s() {
        lemma_at_least_one_normal(a);
        lemma_at_least_one_normal(b);
        let x = a.w() * b.w();
        let t = a.k() + b.k() - 62;
        assert(x >= 0x4000_0000_0000_0000) by (nonlinear_arith)
            requires
                0x8000_0000 <= a.w(),
                0x8000_0000 <= b.w(),
                x == a.w() * b.w(),
        ;
        lemma2_to64_rest();
        if sbits(x) <= 62 {
            crate::bits::lemma_sbits_range(x, 62);
        }
        crate::arith::lemma_mul_normal_is_pack(a, b);
        crate::scalar::lemma_pack_class(x, t);
    } else {
        let p = sig(a) * sig(b);
        crate::scalar::lemma_mant(a.fraction);
        crate::scalar::lemma_mant(b.fraction);
        assert(sig(a) != 0 && sig(b) != 0);
        assert(p != 0) by (nonlinear_arith)
            requires
                p == sig(a) * sig(b),
                sig(a) != 0,
                sig(b) != 0,
        ;
        lemma_signed_escape_exploded(p);
    }
}

/// Every product and power that binary powering of `e` builds is at least
/// one, or exploded.
proof fn lemma_epow_at_least_one(m: Scalar, n: nat)
    ensures
        at_least_one(epow(m, n).0),
        at_least_one(epow(m, n).1),
    decreases n,
{
    if n == 0 {
        crate::scalar::lemma_stored_exp(0);
        crate::scalar::lemma_stored_exp(1);
    } else {
        let s = epow(m, (n - 1) as nat);
        lemma_epow_at_least_one(m, (n - 1) as nat);
        lemma_mul_at_least_one(s.0, s.1);
        lemma_mul_at_least_one(s.1, s.1);
    }
}

/// The Taylor series of `e^0` is one after its first term, and stops there.
proof fn lemma_series_of_zero(n: nat)
    requires
        n >= 1,
    ensures
        series(sc(0i32, 0i8), n).0 == one_spec(),
        series(sc(0i32, 0i8), n).1 == one_spec(),
        series(sc(0i32, 0i8), n).4,
    decreases n,
{
    let z = sc(0i32, 0i8);
    crate::scalar::lemma_stored_exp(0);
    if n == 1 {
        reveal_with_fuel(series, 2);
        crate::laws::law_zero_absorbs_multiplication(one_spec());
        lemma_two();
        crate::laws::law_mul_one_identity(one_spec());
        crate::laws::law_zero_adds_nothing(one_spec());
        assert(div_spec(z, one_spec()) == z);
    } else {
        lemma_series_of_zero((n - 1) as nat);
    }
}

/// The reciprocal of a value of at least one is at most one: a normal
/// value not above one, or vanished.
proof fn lemma_reciprocal_at_most_one(p: Scalar)
    requires
        at_least_one(p),
    ensures
        ({
            let q = div_spec(one_spec(), p);
            q.vanished_s() || (q.normal_s() && q.ival() <= unit())
        }),
{
    let one = one_spec();
    crate::scalar::lemma_stored_exp(0);
    crate::scalar::lemma_pow2_30_32();
    crate::basic::lemma_classes(p);
    assert(one.w() == 0x8000_0000 && one.k() == 0);
    if p.normal_s() {
        lemma_at_least_one_normal(p);
        lemma2_to64_rest();
        let x = crate::bits::fdiv(one.w() * pow2(33), p.w());
        let t = one.k() - p.k() - 33;
        assert(one.w() * pow2(33) == 0x1_0000_0000_0000_0000) by {
            lemma2_to64_rest();
        }
        assert(x == 0x1_0000_0000_0000_0000int / p.w());
        assert(0x1_0000_0000 <= x <= 0x2_0000_0000) by {
            vstd::arithmetic::div_mod::lemma_div_is_ordered_by_denominator(
                0x1_0000_0000_0000_0000int, 0x8000_0000, p.w());
            vstd::arithmetic::div_mod::lemma_div_is_ordered_by_denominator(
                0x1_0000_0000_0000_0000int, p.w(), 0x1_0000_0000);
        }
        assert(pow2(34) == 0x4_0000_0000) by {
            lemma2_to64();
        }
        crate::bits::lemma_sbits_le(x, 34);
        crate::scalar::lemma_pack_class(x, t);
        let q = div_spec(one, p);
        if q.normal_s() {
            crate::laws::law_div_rounds_down(one, p);
            let e = (p.k() + 127) as nat;
            lemma_pow2_adds(31, 127);
            crate::bits::lemma_pow2_le(158, e + 31);
            lemma_pow2_adds(31, e);
            assert(p.ival() >= unit()) by (nonlinear_arith)
                requires
                    p.ival() == p.w() * pow2(e),
                    p.w() >= 0x8000_0000,
                    pow2(31) == 0x8000_0000,
                    pow2(e + 31) == pow2(31) * pow2(e),
                    pow2(158) <= pow2(e + 31),
                    unit() == pow2(158),
            ;
            lemma_pow2_pos(158);
            assert(one.ival() == unit()) by {
                lemma_pow2_adds(31, 127);
            }
            assert(q.ival() <= unit()) by (nonlinear_arith)
                requires
                    q.ival() * p.ival() <= one.ival() * unit(),
                    one.ival() == unit(),
                    p.ival() >= unit(),
                    unit() > 0,
            ;
        }
    } else {
        let g = crate::bits::fdiv(sig(one) * pow2(33), sig(p));
        crate::scalar::lemma_mant(p.fraction);
        assert(sig(one) * pow2(33) == 0x1_0000_0000_0000_0000) by {
            lemma2_to64_rest();
        }
        assert(g != 0) by {
            lemma2_to64_rest();
            if sig(p) > 0 {
                assert(0x1_0000_0000_0000_0000int / sig(p) >= 1) by (nonlinear_arith)
                    requires
                        0 < sig(p) <= 0x1_0000_0000,
                ;
            } else {
                crate::bits::lemma_floor_neg(-0x1_0000_0000_0000_0000int, -sig(p));
                assert((0x1_0000_0000_0000_0000int - 1) / (-sig(p)) >= 0) by (nonlinear_arith)
                    requires
                        0 < -sig(p) <= 0x1_0000_0000,
                ;
            }
        }
        lemma_escaped_class(g, false);
    }
}

/// `e` raised to a negative integer is at most one: a normal value not
/// above one, or a vanished one. (The integer `-2^128`, whose negation
/// leaves the normal range, is outside this statement.)
pub proof fn law_exp_of_negative_integer_at_most_one(x: Scalar)
    requires
        x.normal_s(),
        x.negative_s(),
        integer_spec(x),
        negate_spec(x).normal_s(),
    ensures
        exp_spec(x).vanished_s() || (exp_spec(x).normal_s() && exp_spec(x).ival() <= unit()),
{
    crate::laws::law_integers_are_fixed(x);
    crate::laws::law_add_negation_is_zero(x);
    let z = sc(0i32, 0i8);
    assert(sub_spec(x, floor_spec(x)) == z);
    lemma_series_of_zero(64);
    let p = epow(crate::neg::magnitude_spec(x), 32).0;
    lemma_epow_at_least_one(crate::neg::magnitude_spec(x), 32);
    lemma_reciprocal_at_most_one(p);
    let q = div_spec(one_spec(), p);
    crate::laws::law_mul_one_identity(q);
}

/// `e` raised to an integer that is not negative is at least one: a normal
/// value of at least one, or exploded.
pub proof fn law_exp_of_non_negative_integer_at_least_one(x: Scalar)
    requires
        x.normal_s(),
        x.positive_s(),
        integer_spec(x),
    ensures
        at_least_one(exp_spec(x)),
{
    crate::laws::law_integers_are_fixed(x);
    crate::basic::lemma_normal_sign(x);
    crate::scalar::lemma_mant(x.fraction);
    crate::scalar::lemma_pow2_30_32();
    crate::bits::lemma_sbits_le(-x.w(), 32);
    crate::scalar::lemma_pack_class(-x.w(), x.k() - 31);
    crate::laws::law_add_negation_is_zero(x);
    let z = sc(0i32, 0i8);
    assert(sub_spec(x, floor_spec(x)) == z);
    lemma_series_of_zero(64);
    let p = epow(x, 32).0;
    lemma_epow_at_least_one(x, 32);
    crate::basic::lemma_classes(p);
    crate::laws::law_mul_one_identity(p);
}

/// The negation of a positive normal integer is an integer.
proof fn lemma_negated_integer(x: Scalar)
    requires
        x.normal_s(),
        x.positive_s(),
        integer_spec(x),
        negate_spec(x).normal_s(),
    ensures
        integer_spec(negate_spec(x)),
        x.k() >= 0,
{
    crate::basic::lemma_normal_sign(x);
    crate::scalar::lemma_mant(x.fraction);
    crate::scalar::lemma_pow2_30_32();
    let w = x.w();
    let k = x.k();
    if k < 0 {
        let j = crate::rounding::frac_bits(k);
        crate::bits::lemma_pow2_le(32, j);
        vstd::arithmetic::div_mod::lemma_small_mod(w as nat, pow2(j));
    }
    crate::bits::lemma_sbits_le(-w, 32);
    if sbits(-w) <= 30 {
        crate::bits::lemma_sbits_range(-w, 30);
    }
    let m = sbits(-w);
    crate::scalar::lemma_pack_class(-w, k - 31);
    let r = negate_spec(x);
    assert(r.k() == k - 32 + m);
    if m == 32 {
        assert(scale(-w, 0) == -w) by {
            assert(pow2(0) == 1) by {
                lemma2_to64();
            }
        }
        if r.k() < 31 {
            let p = pow2(crate::rounding::frac_bits(k)) as int;
            lemma_pow2_pos(crate::rounding::frac_bits(k));
            let q = w / p;
            vstd::arithmetic::div_mod::lemma_fundamental_div_mod(w, p);
            assert(-w == (-q) * p) by (nonlinear_arith)
                requires
                    w == p * q + w % p,
                    w % p == 0,
            ;
            vstd::arithmetic::div_mod::lemma_mod_multiples_basic(-q, p);
        }
    } else {
        assert(m == 31);
        crate::bits::lemma_sbits_range(-w, 31);
        assert(w == 0x8000_0000);
        assert(pow2(1) == 2) by {
            lemma2_to64();
        }
        assert(scale(-w, -1) == -w * 2);
        assert(scale(-w, -1) == -0x1_0000_0000);
        if r.k() < 31 {
            let j = crate::rounding::frac_bits(r.k());
            let p = pow2(j) as int;
            let q = pow2((32 - j) as nat) as int;
            lemma_pow2_pos(j);
            lemma_pow2_adds(j, (32 - j) as nat);
            vstd::arithmetic::div_mod::lemma_mod_multiples_basic(-q, p);
            assert(-0x1_0000_0000 == (-q) * p) by (nonlinear_arith)
                requires
                    p * q == 0x1_0000_0000,
            ;
        }
    }
}

/// `e` raised to an integer: the binary power of `e` for its magnitude,
/// inverted when the integer is negative.
proof fn lemma_exp_of_integer(y: Scalar)
    requires
        y.normal_s(),
        integer_spec(y),
        negate_spec(y).normal_s(),
    ensures
        ({
            let p = epow(crate::neg::magnitude_spec(y), 32).0;
            exp_spec(y) == if y.negative_s() {
                div_spec(one_spec(), p)
            } else {
                p
            }
        }),
{
    crate::laws::law_integers_are_fixed(y);
    crate::laws::law_add_negation_is_zero(y);
    let z = sc(0i32, 0i8);
    assert(sub_spec(y, floor_spec(y)) == z);
    lemma_series_of_zero(64);
    let p = epow(crate::neg::magnitude_spec(y), 32).0;
    lemma_epow_at_least_one(crate::neg::magnitude_spec(y), 32);
    crate::basic::lemma_classes(p);
    crate::laws::law_mul_one_identity(p);
    crate::scalar::lemma_stored_exp(0);
    crate::laws::law_arith_keeps_canonical(one_spec(), p);
    crate::laws::law_mul_one_identity(div_spec(one_spec(), p));
}

/// `e` raised to the negation of a positive integer is the reciprocal of
/// `e` raised to that integer: `e^-n == 1 / e^n`.
pub proof fn law_exp_of_negation_is_reciprocal(x: Scalar)
    requires
        x.normal_s(),
        x.positive_s(),
        integer_spec(x),
        negate_spec(x).normal_s(),
    ensures
        exp_spec(negate_spec(x)) == div_spec(one_spec(), exp_spec(x)),
{
    let y = negate_spec(x);
    lemma_negated_integer(x);
    crate::laws::law_negate_involution(x);
    crate::basic::lemma_normal_sign(x);
    crate::scalar::lemma_mant(x.fraction);
    crate::scalar::lemma_pow2_30_32();
    crate::bits::lemma_sbits_le(-x.w(), 32);
    crate::scalar::lemma_pack_class(-x.w(), x.k() - 31);
    assert(y.negative_s());
    lemma_exp_of_integer(x);
    lemma_exp_of_integer(y);
    assert(crate::neg::magnitude_spec(y) == x);
    assert(crate::neg::magnitude_spec(x) == x);
}

/// The value of a zero or normal Scalar in units of `2^-158`.
pub open spec fn value_units(x: Scalar) -> int {
    if x.zero_s() {
        0
    } else {
        x.ival()
    }
}

/// The bit one step of the logarithm's digit recurrence gives.
pub open spec fn step_bit(x: Scalar) -> int {
    if lb_step(x).0 {
        1
    } else {
        0
    }
}

/// The digit recurrence read from its first step: the first bit, then the
/// bits of the value that step leaves.
proof fn lemma_lb_bits_first(x: Scalar, n: nat)
    ensures
        lb_bits(x, n + 1).0 == step_bit(x) * pow2(n) + lb_bits(lb_step(x).1, n).0,
        lb_bits(x, n + 1).1 == lb_bits(lb_step(x).1, n).1,
    decreases n,
{
    if n == 0 {
        assert(pow2(0) == 1) by {
            lemma2_to64();
        }
        reveal_with_fuel(lb_bits, 2);
    } else {
        lemma_lb_bits_first(x, (n - 1) as nat);
        lemma_pow2_unfold(n);
    }
}

/// `n` bits of the recurrence make an integer in `[0, 2^n)`.
proof fn lemma_lb_bits_range(x: Scalar, n: nat)
    ensures
        0 <= lb_bits(x, n).0 < pow2(n),
    decreases n,
{
    if n == 0 {
        assert(pow2(0) == 1) by {
            lemma2_to64();
        }
    } else {
        lemma_lb_bits_range(x, (n - 1) as nat);
        lemma_pow2_unfold(n);
    }
}

/// 32 bits placed below the binary point, exactly.
proof fn lemma_fraction_value(r: int)
    requires
        0 <= r < 0x1_0000_0000,
    ensures
        value_units(pack_spec(r, -32)) == r * pow2(126),
        pack_spec(r, -32).zero_s() || pack_spec(r, -32).normal_s(),
{
    crate::scalar::lemma_pow2_30_32();
    if r != 0 {
        crate::bits::lemma_sbits_le(r, 32);
        crate::scalar::lemma_pack_class(r, -32);
        crate::scalar::lemma_pack_normal_value(r, -32);
    }
}

/// The binary logarithm of a positive normal value in `[1, 2)`: its 32
/// fraction bits.
proof fn lemma_lb_unit_binade(x: Scalar)
    requires
        x.normal_s(),
        x.positive_s(),
        x.k() == 0,
    ensures
        value_units(lb_spec(x)) == lb_bits(x, 32).0 * pow2(126),
{
    crate::scalar::lemma_exp_round_trip(x.exponent);
    assert(sc(x.fraction, stored_exp(0)) == x);
    lemma_lb_bits_range(x, 32);
    crate::scalar::lemma_pow2_30_32();
    lemma_fraction_value(lb_bits(x, 32).0);
    assert(pack_spec(0, 0) == sc(0i32, 0i8));
    crate::laws::law_zero_adds_nothing(pack_spec(lb_bits(x, 32).0, -32));
}

/// The square of a positive value in `[1, 2)` is a positive normal value in
/// `[1, 4)`.
proof fn lemma_square_unit_binade(x: Scalar)
    requires
        x.normal_s(),
        x.positive_s(),
        x.k() == 0,
    ensures
        ({
            let y = square_spec(x);
            y.normal_s() && y.positive_s() && (y.k() == 0 || y.k() == 1)
        }),
{
    lemma_at_least_one_normal(x);
    let w = x.w();
    let xx = w * w;
    assert(0x4000_0000_0000_0000 <= xx < 0x1_0000_0000_0000_0000) by (nonlinear_arith)
        requires
            0x8000_0000 <= w < 0x1_0000_0000,
            xx == w * w,
    ;
    lemma2_to64_rest();
    if sbits(xx) <= 62 {
        crate::bits::lemma_sbits_range(xx, 62);
    }
    crate::bits::lemma_sbits_le(xx, 64);
    crate::arith::lemma_mul_normal_is_pack(x, x);
    crate::scalar::lemma_pack_class(xx, x.k() + x.k() - 62);
}

/// The binary logarithm doubles under squaring: for `x` in `[1, 2)`,
/// `lb(x^2) = 2 lb(x)`, with `lb(x^2)` read as `1 + lb(x^2 / 2)` when
/// `x^2` reaches two. The two sides differ by less than one step of the
/// logarithm's last bit, `2^-32`.
pub proof fn law_lb_of_square_doubles(x: Scalar)
    requires
        x.normal_s(),
        x.positive_s(),
        x.k() == 0,
    ensures
        ({
            let y = square_spec(x);
            let h = shl_spec(y, -1);
            let d = 2 * value_units(lb_spec(x));
            &&& y.normal_s() && y.positive_s() && (y.k() == 0 || y.k() == 1)
            &&& y.k() == 0 ==> value_units(lb_spec(y)) - pow2(126) <= d <= value_units(lb_spec(y))
            &&& y.k() == 1 ==> value_units(lb_spec(h)) - pow2(126) <= d - unit() <= value_units(
                lb_spec(h),
            )
        }),
{
    let y = square_spec(x);
    lemma_square_unit_binade(x);
    lemma_lb_unit_binade(x);
    lemma_lb_bits_first(x, 31);
    let x1 = lb_step(x).1;
    let r31 = lb_bits(x1, 31).0;
    lemma_lb_bits_range(x1, 31);
    lemma_lb_bits_first(x1, 0);
    assert(lb_bits(x1, 32).0 == 2 * r31 + step_bit(lb_bits(x1, 31).1)) by {
        reveal_with_fuel(lb_bits, 1);
    }
    lemma_pow2_adds(31, 126);
    lemma_pow2_adds(1, 126);
    assert(pow2(1) == 2 && pow2(31) == 0x8000_0000) by {
        lemma2_to64();
    }
    assert(unit() == pow2(158));
    crate::scalar::lemma_stored_exp(0);
    let b = step_bit(lb_bits(x1, 31).1);
    let u = pow2(126) as int;
    lemma_pow2_pos(126);
    lemma_pow2_adds(32, 126);
    crate::scalar::lemma_pow2_30_32();
    assert(0 <= b <= 1);
    if y.k() == 0 {
        assert(x1 == y);
        assert(step_bit(x) == 0);
        lemma_lb_unit_binade(y);
        assert(value_units(lb_spec(x)) == r31 * u);
        assert(value_units(lb_spec(y)) == (2 * r31 + b) * u);
        assert((2 * r31 + b) * u - u <= 2 * (r31 * u) <= (2 * r31 + b) * u) by (nonlinear_arith)
            requires
                0 <= b <= 1,
                u > 0,
        ;
    } else {
        let h = shl_spec(y, -1);
        assert(h == sc(y.fraction, stored_exp(0)));
        assert(x1 == h);
        assert(step_bit(x) == 1);
        lemma_lb_unit_binade(h);
        lemma_pow2_pos(126);
        assert(value_units(lb_spec(x)) == (0x8000_0000 + r31) * u);
        assert(value_units(lb_spec(h)) == (2 * r31 + b) * u);
        assert(unit() == 0x1_0000_0000 * u);
        assert((2 * r31 + b) * u - u <= 2 * ((0x8000_0000 + r31) * u) - 0x1_0000_0000 * u <= (2
            * r31 + b) * u) by (nonlinear_arith)
            requires
                0 <= b <= 1,
                u > 0,
        ;
    }
}

/// Scaling by a power of two, rounded toward negative infinity, keeps the
/// sign: a negative value stays negative, any other stays non-negative.
proof fn lemma_scale_sign(y: int, j: int)
    ensures
        y < 0 ==> scale(y, j) < 0,
        y >= 0 ==> scale(y, j) >= 0,
{
    if j >= 0 {
        let p = pow2(j as nat) as int;
        lemma_pow2_pos(j as nat);
        if y < 0 {
            crate::bits::lemma_floor_neg(y, p);
            assert((-y - 1) / p >= 0) by (nonlinear_arith)
                requires
                    -y - 1 >= 0,
                    p > 0,
            ;
        } else {
            assert(y / p >= 0) by (nonlinear_arith)
                requires
                    y >= 0,
                    p > 0,
            ;
        }
    } else {
        let p = pow2((-j) as nat) as int;
        lemma_pow2_pos((-j) as nat);
        assert(y < 0 ==> y * p < 0) by (nonlinear_arith)
            requires
                p > 0,
        ;
        assert(y >= 0 ==> y * p >= 0) by (nonlinear_arith)
            requires
                p > 0,
        ;
    }
}

/// A normal Circle packed from a fraction pair carries the sign of the
/// imaginary fraction it was packed from.
proof fn lemma_cpack_imaginary_sign(x: int, y: int, t: int)
    requires
        cpack_spec(x, y, t).normal_c(),
    ensures
        y < 0 ==> cpack_spec(x, y, t).imaginary < 0,
        y >= 0 ==> cpack_spec(x, y, t).imaginary >= 0,
{
    let m = if sbits(x) >= sbits(y) {
        sbits(x)
    } else {
        sbits(y)
    };
    lemma_scale_sign(y, m - 31);
    crate::bits::lemma_scale_fits(y, m, 31);
    crate::scalar::lemma_pow2_30_32();
}

/// A normal Circle built from a real and an imaginary part has an imaginary
/// fraction of the imaginary part's sign, or zero when that part is not
/// normal.
proof fn lemma_from_ri_imaginary_sign(a: Scalar, b: Scalar)
    requires
        from_ri_spec(a, b).normal_c(),
    ensures
        b.normal_s() && b.positive_s() ==> from_ri_spec(a, b).imaginary >= 0,
        b.normal_s() && !b.positive_s() ==> from_ri_spec(a, b).imaginary < 0,
        !b.normal_s() ==> from_ri_spec(a, b).imaginary == 0,
{
    crate::scalar::lemma_mant(b.fraction);
    crate::scalar::lemma_pow2_30_32();
    crate::basic::lemma_classes(a);
    crate::basic::lemma_classes(b);
    if a.normal_s() && b.normal_s() {
        lemma_pow2_pos(33);
        if a.k() >= b.k() {
            let d = a.k() - b.k();
            if d <= 33 {
                lemma_cpack_imaginary_sign(a.w() * pow2(d as nat), b.w(), b.k() - 31);
            } else {
                let j = if d - 33 > 64 {
                    64
                } else {
                    d - 33
                };
                lemma_scale_sign(b.w(), j);
                lemma_cpack_imaginary_sign(a.w() * pow2(33), scale(b.w(), j), a.k() - 64);
            }
        } else {
            let d = b.k() - a.k();
            lemma_pow2_pos(d as nat);
            if d <= 33 {
                assert(b.w() < 0 ==> b.w() * pow2(d as nat) < 0) by (nonlinear_arith)
                    requires
                        pow2(d as nat) > 0,
                ;
                assert(b.w() >= 0 ==> b.w() * pow2(d as nat) >= 0) by (nonlinear_arith)
                    requires
                        pow2(d as nat) > 0,
                ;
                lemma_cpack_imaginary_sign(a.w(), b.w() * pow2(d as nat), a.k() - 31);
            } else {
                let j = if d - 33 > 64 {
                    64
                } else {
                    d - 33
                };
                assert(b.w() < 0 ==> b.w() * pow2(33) < 0) by (nonlinear_arith)
                    requires
                        pow2(33) > 0,
                ;
                assert(b.w() >= 0 ==> b.w() * pow2(33) >= 0) by (nonlinear_arith)
                    requires
                        pow2(33) > 0,
                ;
                lemma_cpack_imaginary_sign(scale(a.w(), j), b.w() * pow2(33), b.k() - 64);
            }
        }
    } else if a.normal_s() && !b.undefined_s() && !b.infinite_s() && !b.exploded_s() {
        lemma_cpack_imaginary_sign(a.w(), 0, a.k() - 31);
        assert(scale(0, sbits(a.w()) - 31) == 0) by {
            lemma_scale_sign(0, sbits(a.w()) - 31);
            if sbits(a.w()) - 31 >= 0 {
                lemma_pow2_pos((sbits(a.w()) - 31) as nat);
            }
        }
    } else if b.normal_s() && !a.undefined_s() && !a.infinite_s() && !a.exploded_s() {
        lemma_cpack_imaginary_sign(0, b.w(), b.k() - 31);
    }
}

/// The principal square root keeps the sign of the imaginary part: a
/// Circle below the real axis has a root on or below it, any other Circle a
/// root on or above it.
#[verifier::rlimit(30)]
pub proof fn law_sqrt_keeps_imaginary_sign(z: Circle)
    requires
        z.normal_c(),
        csqrt_spec(z).normal_c(),
    ensures
        z.imaginary < 0 ==> csqrt_spec(z).imaginary <= 0,
        z.imaginary >= 0 ==> csqrt_spec(z).imaginary >= 0,
{
    let m = crate::circle_arith::cmagnitude_spec(z);
    let r = crate::circle::part_spec(z, z.real);
    let re = half_root(add_spec(m, r));
    let im = half_root(sub_spec(m, r));
    let v = sub_spec(m, r);
    let w = if v.negative_s() {
        sc(0i32, 0i8)
    } else {
        v
    };
    let h = shl_spec(w, -1);
    if z.n0_c() {
        assert(csqrt_spec(z) == z);
    } else if im.normal_s() {
        assert(h.normal_s() && h.positive_s());
        crate::laws::law_sqrt_rounds_down(h);
        crate::scalar::lemma_mant(im.fraction);
        if z.imaginary < 0 {
            let n = negate_spec(im);
            crate::scalar::lemma_pack_class(-im.w(), im.k() - 31);
            lemma_from_ri_imaginary_sign(re, n);
        } else {
            lemma_from_ri_imaginary_sign(re, im);
        }
    } else {
        if z.imaginary < 0 {
            lemma_from_ri_imaginary_sign(re, negate_spec(im));
        } else {
            lemma_from_ri_imaginary_sign(re, im);
        }
    }
}

/// The value of a normal Scalar in units of `2^-158`; zero for every other
/// state.
pub open spec fn normal_units(x: Scalar) -> int {
    if x.normal_s() {
        x.ival()
    } else {
        0
    }
}

/// Not a negative normal value.
pub open spec fn not_negative(x: Scalar) -> bool {
    !(x.normal_s() && x.negative_s())
}

/// `b^n`.
pub open spec fn base_power(b: int, n: nat) -> int
    decreases n,
{
    if n == 0 {
        1
    } else {
        b * base_power(b, (n - 1) as nat)
    }
}

/// A digit string read as an integer in base `b`, most significant digit
/// first.
pub open spec fn digits_number(ds: Seq<u8>, b: int) -> int
    decreases ds.len(),
{
    if ds.len() == 0 {
        0
    } else {
        ds[0] * base_power(b, (ds.len() - 1) as nat) + digits_number(ds.subrange(1, ds.len() as int), b)
    }
}

proof fn lemma_base_power_positive(b: int, n: nat)
    requires
        b > 0,
    ensures
        base_power(b, n) > 0,
    decreases n,
{
    if n > 0 {
        lemma_base_power_positive(b, (n - 1) as nat);
        assert(b * base_power(b, (n - 1) as nat) > 0) by (nonlinear_arith)
            requires
                b > 0,
                base_power(b, (n - 1) as nat) > 0,
        ;
    }
}

/// A base from 2 to 36 as a Scalar: normal, positive, exactly its value.
proof fn lemma_small_integer(bi: int)
    requires
        1 <= bi <= 255,
    ensures
        pack_spec(bi, 0).normal_s(),
        pack_spec(bi, 0).positive_s(),
        pack_spec(bi, 0).ival() == bi * unit(),
        0 <= pack_spec(bi, 0).k() <= 7,
{
    crate::scalar::lemma_pow2_30_32();
    lemma2_to64();
    crate::bits::lemma_sbits_le(bi, 8);
    crate::bits::lemma_sbits_band(bi);
    crate::scalar::lemma_pack_class(bi, 0);
    crate::scalar::lemma_pack_normal_value(bi, 0);
}

/// A normal value that is not negative has a non-negative value.
proof fn lemma_units_not_negative(x: Scalar)
    requires
        not_negative(x),
    ensures
        normal_units(x) >= 0,
{
    if x.normal_s() {
        crate::basic::lemma_normal_sign(x);
        let e = (x.k() + 127) as nat;
        lemma_pow2_pos(e);
        assert(x.w() * pow2(e) >= 0) by (nonlinear_arith)
            requires
                x.w() > 0,
                pow2(e) > 0,
        ;
    }
}

/// A normal value rounded down from a non-negative exact value is not
/// negative.
proof fn lemma_round_down_not_negative(r: Scalar, v: int)
    requires
        r.normal_s(),
        v >= 0,
        v < r.ival() + r.ulp(),
    ensures
        not_negative(r),
{
    crate::basic::lemma_normal_sign(r);
    crate::scalar::lemma_mant(r.fraction);
    crate::scalar::lemma_pow2_30_32();
    let u = r.ulp();
    lemma_pow2_pos((r.k() + 127) as nat);
    if r.negative_s() {
        assert(r.ival() + u <= 0) by (nonlinear_arith)
            requires
                r.ival() == r.w() * u,
                r.w() <= -1,
                u > 0,
        ;
    }
}

/// An operation on a state that is not normal, with a normal operand,
/// stays not normal.
proof fn lemma_escaped_stays(x: Scalar, b: Scalar)
    requires
        !x.normal_s(),
        b.normal_s(),
    ensures
        !mul_spec(x, b).normal_s(),
        !add_spec(x, sc(0i32, 0i8)).normal_s(),
{
    crate::basic::lemma_classes(x);
}

/// The integer part of a positive value below `2^8`, as `to_u8` reads it:
/// not above the value, and more than the value less one.
proof fn lemma_digit_below(m: Scalar)
    requires
        m.normal_s(),
        m.positive_s(),
        m.k() < 8,
    ensures
        to_u8_spec(m) * unit() <= m.ival() < (to_u8_spec(m) + 1) * unit(),
        to_u8_spec(m) >= 1 ==> m.k() >= 0,
{
    crate::scalar::lemma_mant(m.fraction);
    crate::scalar::lemma_pow2_30_32();
    lemma2_to64();
    let e = (m.k() + 127) as nat;
    lemma_pow2_pos(e);
    if m.k() < 0 {
        lemma_pow2_adds(32, e);
        crate::bits::lemma_pow2_le(32 + e, 158);
        assert(0 <= m.w() * pow2(e) < pow2(32) * pow2(e)) by (nonlinear_arith)
            requires
                0 < m.w() < 0x1_0000_0000,
                pow2(32) == 0x1_0000_0000,
                pow2(e) > 0,
        ;
    } else {
        let j = (31 - m.k()) as nat;
        let p = pow2(j) as int;
        lemma_pow2_pos(j);
        lemma_pow2_adds(j, e);
        assert(j + e == 158);
        let q = m.w() / p;
        vstd::arithmetic::div_mod::lemma_fundamental_div_mod(m.w(), p);
        vstd::arithmetic::div_mod::lemma_mod_bound(m.w(), p);
        assert(q < 256) by {
            crate::bits::lemma_pow2_le(j, 31);
            lemma_pow2_adds(j, (m.k() + 1) as nat);
            crate::bits::lemma_pow2_le((m.k() + 1) as nat, 8);
            assert(pow2(8) == 256);
            assert(m.w() < pow2(j) * pow2((m.k() + 1) as nat));
            assert(q < pow2((m.k() + 1) as nat)) by (nonlinear_arith)
                requires
                    m.w() == p * q + m.w() % p,
                    m.w() % p >= 0,
                    m.w() < p * pow2((m.k() + 1) as nat),
                    p > 0,
            ;
        }
        assert(q >= 0) by (nonlinear_arith)
            requires
                q == m.w() / p,
                m.w() > 0,
                p > 0,
        ;
        assert(to_u8_spec(m) == q);
        assert(q * pow2(158) <= m.w() * pow2(e) < (q + 1) * pow2(158)) by (nonlinear_arith)
            requires
                m.w() == p * q + m.w() % p,
                0 <= m.w() % p < p,
                pow2(158) == p * pow2(e),
                pow2(e) > 0,
        ;
    }
}

/// One step of the fractional digit recurrence: the digit taken and the
/// value left, scaled back, never exceed the value times the base.
#[verifier::spinoff_prover]
#[verifier::rlimit(40)]
proof fn lemma_digit_step(fp: Scalar, bi: int)
    requires
        2 <= bi <= 36,
        not_negative(fp),
        normal_units(fp) < unit(),
    ensures
        ({
            let b = pack_spec(bi, 0);
            let m = mul_spec(fp, b);
            let d = to_u8_spec(m);
            let next = sub_spec(m, pack_spec(d as int, 0));
            &&& not_negative(next)
            &&& normal_units(next) < unit()
            &&& d * unit() + normal_units(next) <= normal_units(fp) * bi
        }),
{
    let b = pack_spec(bi, 0);
    let m = mul_spec(fp, b);
    let d = to_u8_spec(m);
    let z = sc(0i32, 0i8);
    lemma_small_integer(bi);
    lemma_units_not_negative(fp);
    lemma_pow2_pos(158);
    crate::basic::lemma_classes(fp);
    if !fp.normal_s() {
        lemma_escaped_stays(fp, b);
        assert(d == 0);
        assert(pack_spec(0, 0) == z);
        assert(negate_spec(z) == z);
        lemma_escaped_stays(m, b);
        assert(!sub_spec(m, pack_spec(d as int, 0)).normal_s());
        assert(normal_units(fp) == 0);
    } else {
        crate::basic::lemma_normal_sign(fp);
        crate::basic::lemma_normal_sign(b);
        let x = fp.w() * b.w();
        assert(x > 0) by (nonlinear_arith)
            requires
                x == fp.w() * b.w(),
                fp.w() > 0,
                b.w() > 0,
        ;
        crate::arith::lemma_mul_normal_is_pack(fp, b);
        crate::scalar::lemma_pack_class(x, fp.k() + b.k() - 62);
        if !m.normal_s() {
            assert(d == 0);
            assert(pack_spec(0, 0) == z);
            assert(negate_spec(z) == z);
            lemma_escaped_stays(m, b);
            assert(!sub_spec(m, pack_spec(d as int, 0)).normal_s());
            assert(normal_units(fp) * bi >= 0) by (nonlinear_arith)
                requires
                    normal_units(fp) >= 0,
                    bi > 0,
            ;
        } else {
            crate::laws::law_mul_rounds_down(fp, b);
            assert(m.ival() <= fp.ival() * bi) by (nonlinear_arith)
                requires
                    m.ival() * unit() <= fp.ival() * b.ival(),
                    b.ival() == bi * unit(),
                    unit() > 0,
            ;
            assert(m.ival() < 36 * unit()) by (nonlinear_arith)
                requires
                    m.ival() <= fp.ival() * bi,
                    0 <= fp.ival() < unit(),
                    bi <= 36,
            ;
            if m.k() >= 8 {
                crate::scalar::lemma_mant(m.fraction);
                crate::scalar::lemma_pow2_30_32();
                lemma2_to64();
                let e = (m.k() + 127) as nat;
                crate::bits::lemma_pow2_le(135, e);
                lemma_pow2_adds(23, 135);
                assert(m.w() * pow2(e) >= 36 * pow2(158)) by (nonlinear_arith)
                    requires
                        m.w() >= 0x8000_0000,
                        pow2(158) == 0x80_0000 * pow2(135),
                        pow2(135) <= pow2(e),
                ;
            }
            lemma_digit_below(m);
            if d == 0 {
                assert(pack_spec(0, 0) == z);
                assert(negate_spec(z) == z);
                crate::laws::law_zero_adds_nothing(m);
                assert(sub_spec(m, pack_spec(d as int, 0)) == m);
                assert(m.ival() < unit()) by (nonlinear_arith)
                    requires
                        m.ival() < ((d as int) + 1) * unit(),
                        d == 0,
                ;
                assert(normal_units(m) <= normal_units(fp) * bi);
            } else {
                lemma_digit_negation(d as int);
                let nd = negate_spec(pack_spec(d as int, 0));
                let next = add_spec(m, nd);
                assert(sub_spec(m, pack_spec(d as int, 0)) == next);
                assert(nd.ival() == -(d as int) * unit());
                assert(0 <= m.ival() + nd.ival() < unit()) by (nonlinear_arith)
                    requires
                        nd.ival() == -(d as int) * unit(),
                        (d as int) * unit() <= m.ival() < ((d as int) + 1) * unit(),
                ;
                assert(0 <= m.k() <= 7);
                if next.normal_s() {
                    crate::laws::law_add_rounds_down(m, nd);
                    lemma_round_down_not_negative(next, m.ival() + nd.ival());
                    assert(next.ival() <= m.ival() + nd.ival());
                    assert((d as int) * unit() + next.ival() <= m.ival()) by (nonlinear_arith)
                        requires
                            next.ival() <= m.ival() + nd.ival(),
                            nd.ival() == -(d as int) * unit(),
                    ;
                }
                assert((d as int) * unit() + normal_units(next) <= m.ival());
                assert(normal_units(next) < unit());
            }
        }
    }
}

/// The negation of a digit from one to 255 is exact and normal, at a binade
/// from -1 to 7.
proof fn lemma_digit_negation(d: int)
    requires
        1 <= d <= 255,
    ensures
        ({
            let nd = negate_spec(pack_spec(d, 0));
            &&& nd.normal_s()
            &&& nd.ival() == -d * unit()
            &&& -1 <= nd.k() <= 7
        }),
{
    lemma_small_integer(d);
    let p = pack_spec(d, 0);
    crate::scalar::lemma_mant(p.fraction);
    crate::scalar::lemma_pow2_30_32();
    let w = p.w();
    assert(-w != 0);
    crate::bits::lemma_sbits_le(-w, 32);
    if sbits(-w) <= 30 {
        crate::bits::lemma_sbits_range(-w, 30);
    }
    assert(sbits(-w) >= 31);
    let kk = p.k() - 31 + sbits(-w) - 1;
    assert(-1 <= kk <= 7);
    crate::scalar::lemma_pack_class(-w, p.k() - 31);
    let nd = pack_spec(-w, p.k() - 31);
    assert(negate_spec(p) == nd);
    assert(nd.normal_s());
    crate::scalar::lemma_pack_normal_value(-w, p.k() - 31);
    assert((p.k() - 31 + 158) as nat == (p.k() + 127) as nat);
    assert(nd.ival() == -w * pow2((p.k() + 127) as nat));
    assert(p.ival() == w * pow2((p.k() + 127) as nat));
    assert(-w * pow2((p.k() + 127) as nat) == -(w * pow2((p.k() + 127) as nat))) by (nonlinear_arith);
    assert(nd.ival() == -d * unit()) by (nonlinear_arith)
        requires
            nd.ival() == -(p.ival()),
            p.ival() == d * unit(),
    ;
}

/// The fractional digits of a value in `[0, 1)`, read as a
/// fraction in their base, never exceed the value: `0.d1 d2 ... dn <= fp`
/// (compared as `d1 d2 ... dn <= fp * b^n`). Every digit taken, zero or
/// not, has its place.
pub proof fn law_fraction_digits_never_exceed(fp: Scalar, bi: int, digits: int, count: int, fuel: nat)
    requires
        2 <= bi <= 36,
        not_negative(fp),
        normal_units(fp) < unit(),
    ensures
        ({
            let ds = frac_digits(fp, pack_spec(bi, 0), digits, count, fuel);
            digits_number(ds, bi) * unit() <= normal_units(fp) * base_power(bi, ds.len())
        }),
    decreases digits - count, fuel,
{
    let b = pack_spec(bi, 0);
    let ds = frac_digits(fp, b, digits, count, fuel);
    lemma_units_not_negative(fp);
    lemma_pow2_pos(158);
    if count >= digits || fp.zero_s() || fuel == 0 {
        assert(ds.len() == 0);
    } else {
        let m = mul_spec(fp, b);
        let d = to_u8_spec(m);
        let next = sub_spec(m, pack_spec(d as int, 0));
        lemma_digit_step(fp, bi);
        let tail = if d == 0 && count == 0 {
            law_fraction_digits_never_exceed(next, bi, digits, count, (fuel - 1) as nat);
            frac_digits(next, b, digits, count, (fuel - 1) as nat)
        } else {
            law_fraction_digits_never_exceed(next, bi, digits, count + 1, fuel);
            frac_digits(next, b, digits, count + 1, fuel)
        };
        assert(ds == seq![d] + tail);
        assert(ds.subrange(1, ds.len() as int) =~= tail);
        let l = tail.len();
        assert(digits_number(ds, bi) == d * base_power(bi, l) + digits_number(tail, bi));
        let pl = base_power(bi, l);
        lemma_base_power_positive(bi, l);
        assert(base_power(bi, l + 1) == bi * pl);
        let u = unit();
        let nt = digits_number(tail, bi);
        assert((d * pl + nt) * u <= normal_units(fp) * (bi * pl)) by (nonlinear_arith)
            requires
                nt * u <= normal_units(next) * pl,
                d * u + normal_units(next) <= normal_units(fp) * bi,
                pl > 0,
        ;
    }
}

/// A normal Circle packed from a fraction pair carries the sign of the
/// real fraction it was packed from.
proof fn lemma_cpack_real_sign(x: int, y: int, t: int)
    requires
        cpack_spec(x, y, t).normal_c(),
    ensures
        x < 0 ==> cpack_spec(x, y, t).real < 0,
        x >= 0 ==> cpack_spec(x, y, t).real >= 0,
{
    let m = if sbits(x) >= sbits(y) {
        sbits(x)
    } else {
        sbits(y)
    };
    lemma_scale_sign(x, m - 31);
    crate::bits::lemma_scale_fits(x, m, 31);
    crate::scalar::lemma_pow2_30_32();
}

/// A normal Circle built from a real and an imaginary part has a real
/// fraction that is not negative when the real part is positive or not
/// normal.
proof fn lemma_from_ri_real_sign(a: Scalar, b: Scalar)
    requires
        from_ri_spec(a, b).normal_c(),
        !a.normal_s() || a.positive_s(),
    ensures
        from_ri_spec(a, b).real >= 0,
{
    crate::scalar::lemma_mant(a.fraction);
    crate::scalar::lemma_pow2_30_32();
    crate::basic::lemma_classes(a);
    crate::basic::lemma_classes(b);
    if a.normal_s() && b.normal_s() {
        lemma_pow2_pos(33);
        if a.k() >= b.k() {
            let d = a.k() - b.k();
            lemma_pow2_pos(d as nat);
            if d <= 33 {
                assert(a.w() * pow2(d as nat) >= 0) by (nonlinear_arith)
                    requires
                        a.w() > 0,
                        pow2(d as nat) > 0,
                ;
                lemma_cpack_real_sign(a.w() * pow2(d as nat), b.w(), b.k() - 31);
            } else {
                assert(a.w() * pow2(33) >= 0) by (nonlinear_arith)
                    requires
                        a.w() > 0,
                        pow2(33) > 0,
                ;
                let j = if d - 33 > 64 {
                    64
                } else {
                    d - 33
                };
                lemma_cpack_real_sign(a.w() * pow2(33), scale(b.w(), j), a.k() - 64);
            }
        } else {
            let d = b.k() - a.k();
            if d <= 33 {
                lemma_cpack_real_sign(a.w(), b.w() * pow2(d as nat), a.k() - 31);
            } else {
                let j = if d - 33 > 64 {
                    64
                } else {
                    d - 33
                };
                lemma_scale_sign(a.w(), j);
                lemma_cpack_real_sign(scale(a.w(), j), b.w() * pow2(33), b.k() - 64);
            }
        }
    } else if a.normal_s() && !b.undefined_s() && !b.infinite_s() && !b.exploded_s() {
        lemma_cpack_real_sign(a.w(), 0, a.k() - 31);
    } else if b.normal_s() && !a.undefined_s() && !a.infinite_s() && !a.exploded_s() {
        lemma_cpack_real_sign(0, b.w(), b.k() - 31);
    }
}

/// The principal square root lies in the right half-plane: its real part
/// is never negative (for a Circle whose fractions are not both in the
/// zero-like uniform range, which the root leaves as it is).
pub proof fn law_sqrt_real_part_not_negative(z: Circle)
    requires
        z.normal_c(),
        !z.n0_c(),
        csqrt_spec(z).normal_c(),
    ensures
        csqrt_spec(z).real >= 0,
{
    let m = crate::circle_arith::cmagnitude_spec(z);
    let r = crate::circle::part_spec(z, z.real);
    let v = add_spec(m, r);
    let re = half_root(v);
    let im = half_root(sub_spec(m, r));
    let w = if v.negative_s() {
        sc(0i32, 0i8)
    } else {
        v
    };
    let h = shl_spec(w, -1);
    if re.normal_s() {
        assert(h.normal_s() && h.positive_s());
        crate::laws::law_sqrt_rounds_down(h);
    }
    if z.imaginary < 0 {
        lemma_from_ri_real_sign(re, negate_spec(im));
    } else {
        lemma_from_ri_real_sign(re, im);
    }
}

/// `1 + b + ... + b^(n-1)`.
pub open spec fn power_sum(b: int, n: nat) -> int
    decreases n,
{
    if n == 0 {
        0
    } else {
        power_sum(b, (n - 1) as nat) + base_power(b, (n - 1) as nat)
    }
}

/// A normal value of `[0, 1)` lies at a binade below zero.
proof fn lemma_below_one_binade(x: Scalar)
    requires
        x.normal_s(),
        x.positive_s(),
        x.ival() < unit(),
    ensures
        x.k() <= -1,
        x.ulp() <= pow2(126),
{
    crate::scalar::lemma_mant(x.fraction);
    crate::scalar::lemma_pow2_30_32();
    let e = (x.k() + 127) as nat;
    lemma_pow2_pos(e);
    if x.k() >= 0 {
        crate::bits::lemma_pow2_le(127, e);
        lemma_pow2_adds(31, 127);
        assert(x.w() * pow2(e) >= pow2(31) * pow2(127)) by (nonlinear_arith)
            requires
                x.w() >= 0x8000_0000,
                pow2(31) == 0x8000_0000,
                pow2(e) >= pow2(127),
        ;
    }
    crate::bits::lemma_pow2_le(e, 126);
}

/// The sum of a normal value of `[0, 36)` at a binade from 0 to 7 and the
/// negation of a digit, when it is not normal, is zero and exact.
proof fn lemma_digit_difference_zero(m: Scalar, nd: Scalar)
    requires
        m.normal_s(),
        nd.normal_s(),
        0 <= m.k() <= 7,
        -1 <= nd.k() <= 7,
        !add_spec(m, nd).normal_s(),
    ensures
        m.ival() + nd.ival() == 0,
{
    let big = if m.k() > nd.k() {
        m
    } else {
        nd
    };
    let small = if m.k() > nd.k() {
        nd
    } else {
        m
    };
    let sh = (big.k() - small.k()) as nat;
    let x = big.w() * pow2(sh) + small.w();
    let t = small.k() - 31;
    assert(add_spec(m, nd) == pack_spec(x, t));
    if x != 0 {
        crate::scalar::lemma_pack_class(x, t);
        crate::scalar::lemma_mant(big.fraction);
        crate::scalar::lemma_mant(small.fraction);
        crate::scalar::lemma_pow2_30_32();
        crate::bits::lemma_pow2_le(sh, 8);
        lemma2_to64();
        let y = big.w() * pow2(sh);
        assert(-0x100_0000_0000 <= y <= 0x100_0000_0000) by (nonlinear_arith)
            requires
                y == big.w() * pow2(sh),
                -0x1_0000_0000 <= big.w() <= 0x1_0000_0000,
                0 < pow2(sh) <= 256,
        ;
        assert(pow2(41) == 0x200_0000_0000) by {
            lemma2_to64_rest();
        }
        crate::bits::lemma_sbits_le(x, 41);
    }
    let es = (small.k() + 127) as nat;
    lemma_pow2_adds(sh, es);
    assert(big.ival() == big.w() * pow2(sh) * pow2(es)) by (nonlinear_arith)
        requires
            big.ival() == big.w() * pow2((big.k() + 127) as nat),
            pow2((big.k() + 127) as nat) == pow2(sh) * pow2(es),
    ;
    assert(big.ival() + small.ival() == x * pow2(es)) by (nonlinear_arith)
        requires
            big.ival() == big.w() * pow2(sh) * pow2(es),
            small.ival() == small.w() * pow2(es),
            x == big.w() * pow2(sh) + small.w(),
    ;
}

/// One step of the fractional digit recurrence falls short of the value
/// times the base by less than `2^-23`: the rounding of the product and of
/// the difference.
#[verifier::spinoff_prover]
#[verifier::rlimit(40)]
proof fn lemma_digit_step_short(fp: Scalar, bi: int)
    requires
        2 <= bi <= 36,
        not_negative(fp),
        normal_units(fp) < unit(),
    ensures
        ({
            let b = pack_spec(bi, 0);
            let m = mul_spec(fp, b);
            let d = to_u8_spec(m);
            let next = sub_spec(m, pack_spec(d as int, 0));
            normal_units(fp) * bi < d * unit() + normal_units(next) + pow2(135)
        }),
{
    let b = pack_spec(bi, 0);
    let m = mul_spec(fp, b);
    let d = to_u8_spec(m);
    let z = sc(0i32, 0i8);
    lemma_digit_step(fp, bi);
    lemma_small_integer(bi);
    lemma2_to64();
    assert(pow2(23) == 0x80_0000);
    lemma_pow2_pos(135);
    lemma_pow2_pos(158);
    lemma_pow2_adds(134, 1);
    crate::bits::lemma_pow2_le(126, 134);
    assert(pow2(1) == 2);
    let next = sub_spec(m, pack_spec(d as int, 0));
    lemma_units_not_negative(next);
    if fp.normal_s() {
        crate::basic::lemma_normal_sign(fp);
        crate::basic::lemma_normal_sign(b);
        crate::scalar::lemma_mant(fp.fraction);
        crate::scalar::lemma_mant(b.fraction);
        crate::scalar::lemma_pow2_30_32();
        let x = fp.w() * b.w();
        assert(x >= 0x4000_0000_0000_0000) by (nonlinear_arith)
            requires
                x == fp.w() * b.w(),
                fp.w() >= 0x8000_0000,
                b.w() >= 0x8000_0000,
        ;
        lemma2_to64_rest();
        if sbits(x) <= 62 {
            crate::bits::lemma_sbits_range(x, 62);
        }
        assert(x < 0x1_0000_0000_0000_0000) by (nonlinear_arith)
            requires
                x == fp.w() * b.w(),
                0 < fp.w() < 0x1_0000_0000,
                0 < b.w() < 0x1_0000_0000,
        ;
        crate::bits::lemma_sbits_le(x, 64);
        crate::arith::lemma_mul_normal_is_pack(fp, b);
        crate::scalar::lemma_pack_class(x, fp.k() + b.k() - 62);
        lemma_below_one_binade(fp);
        assert(b.k() >= 1) by {
            if b.k() == 0 {
                crate::scalar::lemma_pack_class(bi, 0);
                crate::bits::lemma_sbits_band(bi);
                assert(pow2(1) == 2) by {
                    lemma2_to64();
                }
            }
        }
        if m.normal_s() {
            crate::laws::law_mul_rounds_down(fp, b);
            assert(fp.ival() * bi < m.ival() + m.ulp()) by (nonlinear_arith)
                requires
                    fp.ival() * b.ival() < (m.ival() + m.ulp()) * unit(),
                    b.ival() == bi * unit(),
                    unit() > 0,
            ;
            assert(m.ival() <= fp.ival() * bi) by (nonlinear_arith)
                requires
                    m.ival() * unit() <= fp.ival() * b.ival(),
                    b.ival() == bi * unit(),
                    unit() > 0,
            ;
            assert(m.ival() < 36 * unit()) by (nonlinear_arith)
                requires
                    m.ival() <= fp.ival() * bi,
                    0 <= fp.ival() < unit(),
                    bi <= 36,
            ;
            if m.k() >= 8 {
                let e = (m.k() + 127) as nat;
                crate::bits::lemma_pow2_le(135, e);
                lemma_pow2_adds(23, 135);
                assert(m.w() * pow2(e) >= 36 * pow2(158)) by (nonlinear_arith)
                    requires
                        m.w() >= 0x8000_0000,
                        pow2(158) == 0x80_0000 * pow2(135),
                        pow2(135) <= pow2(e),
                ;
            }
            crate::bits::lemma_pow2_le((m.k() + 127) as nat, 134);
            lemma_digit_below(m);
            if d == 0 {
                assert(pack_spec(0, 0) == z);
                assert(negate_spec(z) == z);
                crate::laws::law_zero_adds_nothing(m);
                assert(next == m);
                assert(fp.ival() * bi < (d as int) * unit() + m.ival() + pow2(135))
                    by (nonlinear_arith)
                    requires
                        fp.ival() * bi < m.ival() + m.ulp(),
                        d == 0,
                        m.ulp() <= pow2(134),
                        pow2(135) == pow2(134) * 2,
                        pow2(134) > 0,
                ;
            } else {
                lemma_digit_negation(d as int);
                let nd = negate_spec(pack_spec(d as int, 0));
                let next = add_spec(m, nd);
                assert(sub_spec(m, pack_spec(d as int, 0)) == next);
                if next.normal_s() {
                    crate::laws::law_add_rounds_down(m, nd);
                    crate::basic::lemma_normal_sign(next);
                    lemma_below_one_binade(next);
                    crate::bits::lemma_pow2_le(126, 134);
                    lemma_pow2_adds(134, 1);
                    assert(pow2(1) == 2) by {
                        lemma2_to64();
                    }
                    assert(m.ival() + nd.ival() < next.ival() + next.ulp());
                    assert(nd.ival() == -(d as int) * unit());
                    assert(fp.ival() * bi < (d as int) * unit() + next.ival() + pow2(135))
                        by (nonlinear_arith)
                        requires
                            fp.ival() * bi < m.ival() + m.ulp(),
                            m.ival() + nd.ival() < next.ival() + next.ulp(),
                            nd.ival() == -(d as int) * unit(),
                            m.ulp() <= pow2(134),
                            next.ulp() <= pow2(126),
                            pow2(126) <= pow2(134),
                            pow2(135) == pow2(134) * 2,
                    ;
                } else {
                    lemma_digit_difference_zero(m, nd);
                    assert(fp.ival() * bi < (d as int) * unit() + pow2(135)) by (nonlinear_arith)
                        requires
                            fp.ival() * bi < m.ival() + m.ulp(),
                            m.ival() + nd.ival() == 0,
                            nd.ival() == -(d as int) * unit(),
                            m.ulp() <= pow2(134),
                            pow2(135) == pow2(134) * 2,
                            pow2(134) > 0,
                    ;
                }
            }
        } else {
            assert(false);
        }
    } else {
        assert(normal_units(fp) == 0);
        assert(0 * bi == 0);
    }
}

/// The fractional digits of a value in `[0, 1)` fall short of it by less
/// than one step of their last place plus the rounding of each step:
/// `fp - 0.d1 d2 ... dn < b^-n + 2^-23 (1 + b^-1 + ... + b^-(n-1))`
/// (compared after multiplying by `b^n`).
pub proof fn law_fraction_digits_fall_short_by_one_place(
    fp: Scalar,
    bi: int,
    digits: int,
    count: int,
    fuel: nat,
)
    requires
        2 <= bi <= 36,
        not_negative(fp),
        normal_units(fp) < unit(),
    ensures
        ({
            let ds = frac_digits(fp, pack_spec(bi, 0), digits, count, fuel);
            normal_units(fp) * base_power(bi, ds.len()) < (digits_number(ds, bi) + 1) * unit()
                + pow2(135) * power_sum(bi, ds.len())
        }),
    decreases digits - count, fuel,
{
    let b = pack_spec(bi, 0);
    let ds = frac_digits(fp, b, digits, count, fuel);
    lemma_pow2_pos(158);
    if count >= digits || fp.zero_s() || fuel == 0 {
        assert(ds.len() == 0);
        assert(base_power(bi, 0) == 1);
        assert(power_sum(bi, 0) == 0);
        assert(digits_number(ds, bi) == 0);
        assert(normal_units(fp) * 1 == normal_units(fp));
    } else {
        let m = mul_spec(fp, b);
        let d = to_u8_spec(m);
        let next = sub_spec(m, pack_spec(d as int, 0));
        lemma_digit_step(fp, bi);
        lemma_digit_step_short(fp, bi);
        let tail = if d == 0 && count == 0 {
            law_fraction_digits_fall_short_by_one_place(next, bi, digits, count, (fuel - 1) as nat);
            frac_digits(next, b, digits, count, (fuel - 1) as nat)
        } else {
            law_fraction_digits_fall_short_by_one_place(next, bi, digits, count + 1, fuel);
            frac_digits(next, b, digits, count + 1, fuel)
        };
        assert(ds == seq![d] + tail);
        assert(ds.subrange(1, ds.len() as int) =~= tail);
        let l = tail.len();
        assert(digits_number(ds, bi) == d * base_power(bi, l) + digits_number(tail, bi));
        let pl = base_power(bi, l);
        lemma_base_power_positive(bi, l);
        assert(base_power(bi, l + 1) == bi * pl);
        assert(power_sum(bi, l + 1) == power_sum(bi, l) + pl);
        let u = unit();
        let e = pow2(135) as int;
        let nt = digits_number(tail, bi);
        let sl = power_sum(bi, l);
        let a = normal_units(fp);
        let vn = normal_units(next);
        assert(a * (bi * pl) == (a * bi) * pl) by (nonlinear_arith);
        assert((a * bi) * pl < (d * u + vn + e) * pl) by (nonlinear_arith)
            requires
                a * bi < d * u + vn + e,
                pl > 0,
        ;
        assert((d * u + vn + e) * pl == d * pl * u + vn * pl + e * pl) by (nonlinear_arith);
        assert((d * pl + nt + 1) * u == d * pl * u + (nt + 1) * u) by (nonlinear_arith);
        assert(e * (sl + pl) == e * sl + e * pl) by (nonlinear_arith);
        assert(ds.len() == l + 1);
        assert(a * (bi * pl) < (d * pl + nt + 1) * u + e * (sl + pl)) by (nonlinear_arith)
            requires
                a * (bi * pl) == (a * bi) * pl,
                (a * bi) * pl < (d * u + vn + e) * pl,
                (d * u + vn + e) * pl == d * pl * u + vn * pl + e * pl,
                (d * pl + nt + 1) * u == d * pl * u + (nt + 1) * u,
                e * (sl + pl) == e * sl + e * pl,
                vn * pl < (nt + 1) * u + e * sl,
                pl > 0,
        ;
    }
}

} // verus!
