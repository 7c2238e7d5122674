//! Laws that relate the operations of the library to each other and to the
//! exact values they stand for.
use crate::arith::{add_normal_spec, add_spec, div_spec, mul_spec};
use crate::basic::{canonical, lemma_ival_injective, unit};
use crate::bitwise::{and_spec, combine, not_spec, or_spec, shl_spec, xor_spec, BitwiseOp};
use crate::circle::{cc, cpack_spec, Circle};
use crate::circle_laws::{ccanonical, cvalid};
use crate::circle_arith::{
    cadd_spec, cdiv_spec, cmul_spec, cs_add_normal_spec, cs_add_spec, cs_div_spec, cs_mul_spec,
    csquare_spec, ctrans, dq_im, dq_re, from_scalar_spec, lifted, msb, sc_add_spec, sc_div_spec,
    sc_mul_spec, strans, undefined_into,
};
use crate::neg::{lemma_negate_normal, magnitude_spec, negate_spec};
use crate::bits::{fdiv, in_band, sbits};
use crate::modular::{fmod, mod_spec};
use crate::order::{
    clamp_spec, compare_spec, law_compare_antisymmetric, law_max_min_bound, le_spec, lt_spec,
    max_spec, min_spec,
};
use crate::roots::{is_isqrt, isqrt, sqrt_spec};
use crate::rounding::{
    ceil_spec, floor_part, floor_spec, frac_bits, frac_spec, integer_spec, round_part, round_spec,
};
use crate::scalar::{
    lemma_pack_class, lemma_pack_normal_value, lemma_stored_exp, pack_spec, sc, stored_exp, Scalar,
};
use vstd::arithmetic::power2::*;
use vstd::prelude::*;

verus! {

/// Exploded or infinity.
pub open spec fn transfinite(x: Scalar) -> bool {
    x.exploded_s() || x.infinite_s()
}

/// Addition commutes, except where the result records which operand came
/// first: two different undefined operands, or exactly one transfinite
/// operand beside a defined one.
pub proof fn law_add_commutes(a: Scalar, b: Scalar)
    requires
        canonical(a),
        canonical(b),
        !(a.undefined_s() && b.undefined_s() && a != b),
        !(!a.undefined_s() && !b.undefined_s() && transfinite(a) != transfinite(b)),
    ensures
        add_spec(a, b) == add_spec(b, a),
{
    if a.normal_s() && b.normal_s() {
        lemma2_to64();
        if a.k() == b.k() {
            assert(b.w() * pow2(0) + a.w() == a.w() * pow2(0) + b.w());
        }
        assert(add_normal_spec(a, b) == add_normal_spec(b, a));
    }
}

/// Multiplication commutes, except where the result records which operand
/// came first: two different undefined operands, infinity times zero, or an
/// exploded times a vanished value.
pub proof fn law_mul_commutes(a: Scalar, b: Scalar)
    requires
        !(a.undefined_s() && b.undefined_s() && a != b),
        !(a.infinite_s() && b.zero_s()),
        !(a.zero_s() && b.infinite_s()),
        !(a.exploded_s() && b.vanished_s()),
        !(a.vanished_s() && b.exploded_s()),
    ensures
        mul_spec(a, b) == mul_spec(b, a),
{
    assert(a.w() * b.w() == b.w() * a.w()) by (nonlinear_arith);
    assert(crate::arith::sig(a) * crate::arith::sig(b) == crate::arith::sig(b) * crate::arith::sig(
        a,
    )) by (nonlinear_arith);
}

/// A normal value whose negation escapes is the bottom of the range (it
/// negates past the top) or the smallest positive power (it negates below
/// the bottom).
proof fn lemma_negate_escape(y: Scalar)
    requires
        y.normal_s(),
    ensures
        negate_spec(y).exploded_s() ==> y.ival() == -pow2(286),
        negate_spec(y).vanished_s() ==> y.ival() == pow2(31),
{
    crate::scalar::lemma_mant(y.fraction);
    crate::scalar::lemma_pow2_30_32();
    let w = y.w();
    let m = crate::bits::sbits(-w);
    crate::bits::lemma_sbits_band(-w);
    crate::scalar::lemma_pack_class(-w, y.k() - 31);
    assert(negate_spec(y) == crate::scalar::pack_spec(-w, y.k() - 31));
    if negate_spec(y).exploded_s() {
        let kk = y.k() - 31 + m - 1;
        assert(!(-127 <= kk <= 127));
        assert(!(kk < -127));
        assert(kk > 127);
        assert(m >= 33);
        crate::bits::lemma_pow2_le(32, (m - 1) as nat);
        assert(w == -0x1_0000_0000);
        lemma2_to64_rest();
        crate::bits::lemma_band_sbits(0x1_0000_0000, 33);
        assert(m == 33);
        lemma_pow2_adds(32, 254);
        assert(y.k() == 127);
        assert(y.ival() == w * pow2(254));
        assert(w * pow2(254) == -(pow2(32) * pow2(254))) by (nonlinear_arith)
            requires
                w == -0x1_0000_0000,
                pow2(32) == 0x1_0000_0000,
        ;
    }
    if negate_spec(y).vanished_s() {
        let kk = y.k() - 31 + m - 1;
        assert(!(-127 <= kk <= 127));
        assert(kk < -127);
        assert(m <= 31);
        crate::bits::lemma_pow2_le(m, 31);
        assert(w == 0x8000_0000);
        crate::bits::lemma_band_sbits(-0x8000_0000, 31);
        assert(m == 31);
        assert(y.k() == -127);
        lemma2_to64();
        assert(pow2(0) == 1);
    }
}

/// Negating twice gives back the value, except for a normal value whose
/// negation leaves the normal range.
pub proof fn law_negate_involution(x: Scalar)
    requires
        x.normal_s() ==> negate_spec(x).normal_s(),
    ensures
        negate_spec(negate_spec(x)) == x,
{
    if x.normal_s() {
        lemma_negate_involution_normal(x);
    }
}

proof fn lemma_negate_involution_normal(x: Scalar)
    requires
        x.normal_s(),
        negate_spec(x).normal_s(),
    ensures
        negate_spec(negate_spec(x)) == x,
{
    let y = negate_spec(x);
    lemma_negate_normal(x);
    lemma_negate_normal(y);
    lemma_negate_escape(y);
    crate::basic::lemma_ival_range(x);
    crate::basic::lemma_ival_range(y);
    crate::basic::lemma_normal_sign(x);
    let z = negate_spec(y);
    if z.normal_s() {
        lemma_ival_injective(z, x);
    } else if z.exploded_s() {
        crate::bits::lemma_pow2_le((x.k() + 159) as nat, 286);
    } else {
        crate::bits::lemma_pow2_le(31, (x.k() + 158) as nat);
    }
}

/// Shifting by `n` binades and back leaves a value unchanged, except for a
/// normal value shifted out of the exponent range.
pub proof fn law_shift_round_trip(x: Scalar, n: int)
    requires
        x.normal_s() ==> -127 <= x.k() + n <= 127,
    ensures
        shl_spec(shl_spec(x, n), -n) == x,
{
    if x.normal_s() {
        lemma_shift_round_trip_normal(x, n);
    }
}

proof fn lemma_shift_round_trip_normal(x: Scalar, n: int)
    requires
        x.normal_s(),
        -127 <= x.k() + n <= 127,
    ensures
        shl_spec(shl_spec(x, n), -n) == x,
{
    lemma_stored_exp(x.k() + n);
    lemma_stored_exp(x.k());
    crate::scalar::lemma_exp_round_trip(x.exponent);
    let y = shl_spec(x, n);
    assert(y == crate::scalar::sc(x.fraction, stored_exp(x.k() + n)));
    assert(y.normal_s() && y.k() == x.k() + n);
    assert(shl_spec(y, -n) == crate::scalar::sc(x.fraction, stored_exp(x.k())));
}

/// Circle addition commutes, except where the result records which operand
/// came first: two different undefined operands, or an exploded operand
/// beside a normal one.
pub proof fn law_circle_add_commutes(a: Circle, b: Circle)
    requires
        cvalid(a),
        cvalid(b),
        !(a.undefined_c() && b.undefined_c() && a != b),
        !(a.exploded_c() && b.normal_c()),
        !(a.normal_c() && b.exploded_c()),
    ensures
        cadd_spec(a, b) == cadd_spec(b, a),
{
    lemma2_to64();
    if a.normal_c() && b.normal_c() {
        if a.k() == b.k() {
            assert(b.real * pow2(0) + a.real == a.real * pow2(0) + b.real);
            assert(b.imaginary * pow2(0) + a.imaginary == a.imaginary * pow2(0) + b.imaginary);
        }
    } else {
        lemma_canonical_not_small(a);
        lemma_canonical_not_small(b);
    }
}

/// A canonical normal Circle is neither zero-shaped nor infinity-shaped.
proof fn lemma_canonical_not_small(c: Circle)
    ensures
        ccanonical(c) ==> !c.zero_c() && !c.infinite_c(),
{
    if ccanonical(c) {
        crate::scalar::lemma_pow2_30_32();
        if crate::bits::sbits(c.real as int) == 31 {
            crate::bits::lemma_sbits_band(c.real as int);
        } else {
            crate::bits::lemma_sbits_band(c.imaginary as int);
        }
    }
}

/// Circle multiplication commutes, except where the result records which
/// operand came first: two different undefined operands, infinity times
/// zero, or an exploded times a vanished Circle.
pub proof fn law_circle_mul_commutes(a: Circle, b: Circle)
    requires
        !(a.undefined_c() && b.undefined_c() && a != b),
        !(a.infinite_c() && b.zero_c()),
        !(a.zero_c() && b.infinite_c()),
        !(a.exploded_c() && b.n2_c()),
        !(a.n2_c() && b.exploded_c()),
    ensures
        cmul_spec(a, b) == cmul_spec(b, a),
{
    assert(a.real * b.real - a.imaginary * b.imaginary == b.real * a.real - b.imaginary
        * a.imaginary) by (nonlinear_arith);
    assert(a.real * b.imaginary + a.imaginary * b.real == b.real * a.imaginary + b.imaginary
        * a.real) by (nonlinear_arith);
}


/// The value of a normal `pack_spec(x, t)` is `x * 2^t` rounded toward
/// negative infinity, compared at any finer common scale `2^-(158 + c)`.
pub proof fn lemma_pack_floor(x: int, t: int, c: nat)
    requires
        x != 0,
        pack_spec(x, t).normal_s(),
        t + 158 + c >= 0,
    ensures
        ({
            let r = pack_spec(x, t);
            let v = x * pow2((t + 158 + c) as nat);
            r.ival() * pow2(c) <= v < (r.ival() + r.ulp()) * pow2(c)
        }),
{
    let r = pack_spec(x, t);
    let m = sbits(x);
    let k = t + m - 1;
    lemma_pack_class(x, t);
    let pc = pow2(c) as int;
    lemma_pow2_pos(c);
    if t + 158 >= 0 {
        lemma_pack_normal_value(x, t);
        let e = (t + 158) as nat;
        lemma_pow2_adds(e, c);
        assert(pow2((t + 158 + c) as nat) == pow2(e) * pc);
        let v0 = x * pow2(e);
        assert(x * pow2((t + 158 + c) as nat) == v0 * pc) by (nonlinear_arith)
            requires
                pow2((t + 158 + c) as nat) == pow2(e) * pc,
                v0 == x * pow2(e),
        ;
        assert(r.ival() * pc <= v0 * pc < (r.ival() + r.ulp()) * pc) by (nonlinear_arith)
            requires
                r.ival() <= v0 < r.ival() + r.ulp(),
                pc > 0,
        ;
    } else {
        let d = m - 32;
        assert(-127 <= k <= 127);
        assert(d > 0);
        let dn = d as nat;
        let p = pow2(dn) as int;
        lemma_pow2_pos(dn);
        let q = x / p;
        assert(r.w() == q);
        vstd::arithmetic::div_mod::lemma_fundamental_div_mod(x, p);
        vstd::arithmetic::div_mod::lemma_mod_bound(x, p);
        let rem = x % p;
        let big_p = pow2((t + 158 + c) as nat) as int;
        lemma_pow2_pos((t + 158 + c) as nat);
        let g = (t + d + 158) as nat;
        assert(r.k() + 127 == t + d + 158);
        let u = pow2(g) as int;
        lemma_pow2_adds(g, c);
        lemma_pow2_adds(dn, (t + 158 + c) as nat);
        assert(u * pc == p * big_p);
        assert(r.ival() == q * u);
        assert(r.ulp() == u);
        assert(q * u * pc <= x * big_p < (q * u + u) * pc) by (nonlinear_arith)
            requires
                u * pc == p * big_p,
                x == p * q + rem,
                0 <= rem < p,
                big_p > 0,
        ;
    }
}

/// Addition of two normal values is the exact sum rounded toward negative
/// infinity, when the sum is normal, except where the smaller operand is
/// dropped although it reaches a step of the larger one: exponents exactly
/// 31 apart, or further apart with the smaller operand negative.
pub proof fn law_add_rounds_down(a: Scalar, b: Scalar)
    requires
        a.normal_s(),
        b.normal_s(),
        (-30 <= a.k() - b.k() <= 30) || (a.k() - b.k() >= 32 && b.positive_s()) || (b.k() - a.k()
            >= 32 && a.positive_s()),
        add_spec(a, b).normal_s(),
    ensures
        ({
            let r = add_spec(a, b);
            r.ival() <= a.ival() + b.ival() < r.ival() + r.ulp()
        }),
{
    if a.k() - b.k() >= 32 || b.k() - a.k() >= 32 {
        let big = if a.k() > b.k() {
            a
        } else {
            b
        };
        let small = if a.k() > b.k() {
            b
        } else {
            a
        };
        assert(add_spec(a, b) == big);
        crate::scalar::lemma_mant(small.fraction);
        crate::scalar::lemma_pow2_30_32();
        let e = (small.k() + 127) as nat;
        lemma_pow2_pos(e);
        assert(0 < small.w() < 0x1_0000_0000);
        assert(small.ival() < pow2(32) * pow2(e)) by (nonlinear_arith)
            requires
                small.ival() == small.w() * pow2(e),
                0 < small.w() < 0x1_0000_0000,
                pow2(32) == 0x1_0000_0000,
                pow2(e) > 0,
        ;
        assert(small.ival() >= 0) by (nonlinear_arith)
            requires
                small.ival() == small.w() * pow2(e),
                0 < small.w(),
                pow2(e) > 0,
        ;
        lemma_pow2_adds(32, e);
        crate::bits::lemma_pow2_le(32 + e, (big.k() + 127) as nat);
    } else {
        lemma_add_rounds_down_near(a, b);
    }
}

proof fn lemma_add_rounds_down_near(a: Scalar, b: Scalar)
    requires
        a.normal_s(),
        b.normal_s(),
        -30 <= a.k() - b.k() <= 30,
        add_spec(a, b).normal_s(),
    ensures
        ({
            let r = add_spec(a, b);
            r.ival() <= a.ival() + b.ival() < r.ival() + r.ulp()
        }),
{
    let big = if a.k() > b.k() {
        a
    } else {
        b
    };
    let small = if a.k() > b.k() {
        b
    } else {
        a
    };
    let s = (big.k() - small.k()) as nat;
    let x = big.w() * pow2(s) + small.w();
    let t = small.k() - 31;
    assert(add_spec(a, b) == pack_spec(x, t));
    if x == 0 {
        assert(!pack_spec(x, t).normal_s());
    }
    lemma_pack_floor(x, t, 0);
    lemma2_to64();
    let e = (small.k() + 127) as nat;
    lemma_pow2_adds(s, e);
    assert((s + e) as nat == (big.k() + 127) as nat);
    assert(x * pow2(e) == big.w() * pow2((big.k() + 127) as nat) + small.w() * pow2(e))
        by (nonlinear_arith)
        requires
            x == big.w() * pow2(s) + small.w(),
            pow2((big.k() + 127) as nat) == pow2(s) * pow2(e),
    ;
    assert((t + 158 + 0) as nat == e);
}

/// Multiplication of two normal values is the exact product rounded toward
/// negative infinity, when the product is normal (compared in units of
/// `2^-316`, the product of two values' units).
pub proof fn law_mul_rounds_down(a: Scalar, b: Scalar)
    requires
        a.normal_s(),
        b.normal_s(),
        mul_spec(a, b).normal_s(),
    ensures
        ({
            let r = mul_spec(a, b);
            r.ival() * unit() <= a.ival() * b.ival() < (r.ival() + r.ulp()) * unit()
        }),
{
    let x = a.w() * b.w();
    let t = a.k() + b.k() - 62;
    crate::scalar::lemma_mant(a.fraction);
    crate::scalar::lemma_mant(b.fraction);
    crate::scalar::lemma_pow2_30_32();
    assert(x != 0) by (nonlinear_arith)
        requires
            x == a.w() * b.w(),
            a.w() != 0,
            b.w() != 0,
    ;
    lemma_pack_floor(x, t, 158);
    let ea = (a.k() + 127) as nat;
    let eb = (b.k() + 127) as nat;
    lemma_pow2_adds(ea, eb);
    assert((t + 158 + 158) as nat == (ea + eb) as nat);
    assert(a.ival() * b.ival() == x * pow2((ea + eb) as nat)) by (nonlinear_arith)
        requires
            a.ival() == a.w() * pow2(ea),
            b.ival() == b.w() * pow2(eb),
            x == a.w() * b.w(),
            pow2((ea + eb) as nat) == pow2(ea) * pow2(eb),
    ;
}

/// The floor of a normal value is the largest integer not above it: zero
/// for values in `[0, 1)`, otherwise a normal integer `f` with
/// `f <= x < f + 1`.
pub proof fn law_floor_is_greatest_integer_below(x: Scalar)
    requires
        x.normal_s(),
    ensures
        ({
            let f = floor_spec(x);
            &&& f.zero_s() ==> 0 <= x.ival() < unit()
            &&& f.normal_s() ==> f.ival() <= x.ival() < f.ival() + unit() && f.ival() % unit() == 0
            &&& f.zero_s() || f.normal_s()
        }),
{
    if x.k() >= 31 {
        let e = (x.k() - 31) as nat;
        lemma_pow2_adds(e, 158);
        assert((e + 158) as nat == (x.k() + 127) as nat);
        lemma_pow2_pos(158);
        let u = pow2(158) as int;
        assert(x.ival() == (x.w() * pow2(e)) * u) by (nonlinear_arith)
            requires
                x.ival() == x.w() * pow2((x.k() + 127) as nat),
                pow2((x.k() + 127) as nat) == pow2(e) * pow2(158),
                u == pow2(158),
        ;
        vstd::arithmetic::div_mod::lemma_mod_multiples_basic(x.w() * pow2(e), u);
    } else {
        lemma_floor_below(x);
    }
}

proof fn lemma_floor_below(x: Scalar)
    requires
        x.normal_s(),
        x.k() < 31,
    ensures
        ({
            let f = floor_spec(x);
            &&& f.zero_s() ==> 0 <= x.ival() < unit()
            &&& f.normal_s() ==> f.ival() <= x.ival() < f.ival() + unit() && f.ival() % unit() == 0
            &&& f.zero_s() || f.normal_s()
        }),
{
    let j = frac_bits(x.k());
    let p = pow2(j) as int;
    lemma_pow2_pos(j);
    crate::scalar::lemma_mant(x.fraction);
    crate::scalar::lemma_pow2_30_32();
    let w = x.w();
    let q = w / p;
    assert(floor_part(w, j) == q);
    vstd::arithmetic::div_mod::lemma_fundamental_div_mod(w, p);
    vstd::arithmetic::div_mod::lemma_mod_bound(w, p);
    let e = (x.k() + 127) as nat;
    lemma_pow2_adds(j, e);
    assert((j + e) as nat == 158);
    lemma_pow2_pos(e);
    let u = pow2(158) as int;
    assert(x.ival() == w * pow2(e));
    assert(q * u <= x.ival() < (q + 1) * u) by (nonlinear_arith)
        requires
            w == p * q + w % p,
            0 <= w % p < p,
            u == p * pow2(e),
            x.ival() == w * pow2(e),
            pow2(e) > 0,
    ;
    assert((q + 1) * u == q * u + u) by (nonlinear_arith);
    crate::bits::lemma_pow2_le(1, j);
    lemma2_to64();
    vstd::arithmetic::div_mod::lemma_div_is_ordered_by_denominator(
        if w >= 0 { w } else { -w },
        2,
        p,
    );
    assert(-0x8000_0000 <= q < 0x8000_0000) by (nonlinear_arith)
        requires
            w == p * q + w % p,
            0 <= w % p < p,
            p >= 2,
            -0x1_0000_0000 <= w < 0x1_0000_0000,
    ;
    if q != 0 {
        crate::bits::lemma_sbits_le(q, 32);
        lemma_pack_class(q, 0);
        lemma_pack_normal_value(q, 0);
        assert(floor_spec(x) == pack_spec(q, 0));
        vstd::arithmetic::div_mod::lemma_mod_multiples_basic(q, u);
        let f = floor_spec(x);
        assert(f.normal_s());
        assert(f.ival() == q * u);
        assert(f.ival() % unit() == 0);
        assert(f.ival() <= x.ival() < f.ival() + unit());
    } else {
        assert(floor_spec(x) == pack_spec(0, 0));
        assert(floor_spec(x).zero_s());
        assert(q * u == 0) by (nonlinear_arith)
            requires
                q == 0,
        ;
        assert(0 <= x.ival() < unit());
    }
}

/// The floored modulus of two normal values differs from the numerator by a
/// whole multiple of the period and lies between zero and the period, on
/// the period's side; except where a numerator of smaller exponent and the
/// other sign is added to the period and that sum rounds.
pub proof fn law_modulus_remainder(a: Scalar, b: Scalar)
    requires
        a.normal_s(),
        b.normal_s(),
        a.k() >= b.k() || a.negative_s() == b.negative_s() || (mod_spec(a, b).normal_s()
            && mod_spec(a, b).ival() == a.ival() + b.ival()),
        mod_spec(a, b).normal_s() || mod_spec(a, b).zero_s(),
    ensures
        ({
            let r = mod_spec(a, b);
            let rv = if r.zero_s() {
                0
            } else {
                r.ival()
            };
            &&& (a.ival() - rv) % (if b.ival() > 0 {
                b.ival()
            } else {
                -b.ival()
            }) == 0
            &&& b.positive_s() ==> 0 <= rv < b.ival()
            &&& b.negative_s() ==> b.ival() < rv <= 0
        }),
{
    if a.k() >= b.k() {
        lemma_modulus_remainder_aligned(a, b);
    } else {
        crate::basic::lemma_normal_sign(a);
        crate::basic::lemma_normal_sign(b);
        crate::basic::lemma_ival_range(a);
        crate::basic::lemma_ival_range(b);
        crate::bits::lemma_pow2_le((a.k() + 159) as nat, (b.k() + 158) as nat);
        let m = if b.ival() > 0 {
            b.ival()
        } else {
            -b.ival()
        };
        assert(m > 0);
        let pq = pow2((a.k() + 159) as nat);
        let pb = pow2((b.k() + 158) as nat);
        assert(pq <= pb);
        lemma_pow2_pos((a.k() + 158) as nat);
        if a.negative_s() == b.negative_s() {
            assert(mod_spec(a, b) == a);
            assert(!a.zero_s());
            vstd::arithmetic::div_mod::lemma_mod_multiples_basic(0, m);
            assert(0 * m == 0);
            assert(a.ival() - a.ival() == 0);
            if b.positive_s() {
                assert(0 <= a.ival() < pq);
                assert(pb <= b.ival());
            } else {
                assert(b.ival() < -pb);
                assert(-pq <= a.ival() < 0);
            }
        } else {
            let r = mod_spec(a, b);
            assert(!r.zero_s());
            if b.positive_s() {
                assert(-pq <= a.ival() < 0);
                assert(pb <= b.ival());
            } else {
                assert(0 < a.ival() < pq);
                assert(b.ival() < -pb);
            }
            assert(a.ival() - r.ival() == -b.ival());
            if b.ival() > 0 {
                vstd::arithmetic::div_mod::lemma_mod_multiples_basic(-1, m);
                assert(-1 * m == -b.ival());
            } else {
                vstd::arithmetic::div_mod::lemma_mod_multiples_basic(1, m);
                assert(1 * m == -b.ival());
            }
        }
    }
}

proof fn lemma_modulus_remainder_aligned(a: Scalar, b: Scalar)
    requires
        a.normal_s(),
        b.normal_s(),
        a.k() >= b.k(),
        mod_spec(a, b).normal_s() || mod_spec(a, b).zero_s(),
    ensures
        ({
            let r = mod_spec(a, b);
            let rv = if r.zero_s() {
                0
            } else {
                r.ival()
            };
            &&& (a.ival() - rv) % (if b.ival() > 0 {
                b.ival()
            } else {
                -b.ival()
            }) == 0
            &&& b.positive_s() ==> 0 <= rv < b.ival()
            &&& b.negative_s() ==> b.ival() < rv <= 0
        }),
{
    crate::scalar::lemma_mant(a.fraction);
    crate::scalar::lemma_mant(b.fraction);
    crate::scalar::lemma_pow2_30_32();
    crate::basic::lemma_normal_sign(b);
    let d = (a.k() - b.k()) as nat;
    let wb = b.w();
    let x = a.w() * pow2(d);
    let n = fdiv(x, wb);
    let f = x - wb * n;
    assert(f == fmod(x, wb));
    let r = mod_spec(a, b);
    assert(r == pack_spec(f, b.k() - 31));
    let e = (b.k() + 127) as nat;
    lemma_pow2_pos(e);
    let pe = pow2(e) as int;
    lemma_pow2_adds(d, e);
    assert((d + e) as nat == (a.k() + 127) as nat);
    assert(a.ival() == x * pe) by (nonlinear_arith)
        requires
            a.ival() == a.w() * pow2((a.k() + 127) as nat),
            pow2((a.k() + 127) as nat) == pow2(d) * pe,
            x == a.w() * pow2(d),
    ;
    if wb > 0 {
        assert(n == x / wb);
        vstd::arithmetic::div_mod::lemma_fundamental_div_mod(x, wb);
        vstd::arithmetic::div_mod::lemma_mod_bound(x, wb);
        assert(0 <= f < wb) by (nonlinear_arith)
            requires
                x == wb * n + x % wb,
                0 <= x % wb < wb,
                f == x - wb * n,
        ;
    } else {
        assert(n == (-x) / (-wb));
        vstd::arithmetic::div_mod::lemma_fundamental_div_mod(-x, -wb);
        vstd::arithmetic::div_mod::lemma_mod_bound(-x, -wb);
        assert(wb < f <= 0) by (nonlinear_arith)
            requires
                -x == (-wb) * n + (-x) % (-wb),
                0 <= (-x) % (-wb) < -wb,
                f == x - wb * n,
        ;
    }
    let rv = if r.zero_s() {
        0
    } else {
        r.ival()
    };
    if f != 0 {
        crate::bits::lemma_sbits_le(f, 32);
        lemma_pack_class(f, b.k() - 31);
        lemma_pack_normal_value(f, b.k() - 31);
        assert(rv == f * pe);
    } else {
        assert(r.zero_s());
        assert(f * pe == 0) by (nonlinear_arith)
            requires
                f == 0,
        ;
        assert(rv == f * pe);
    }
    assert(a.ival() - rv == n * (wb * pe)) by (nonlinear_arith)
        requires
            a.ival() == x * pe,
            rv == f * pe,
            f == x - wb * n,
    ;
    assert(b.ival() == wb * pe);
    if wb > 0 {
        assert(wb * pe > 0) by (nonlinear_arith)
            requires
                wb > 0,
                pe > 0,
        ;
        vstd::arithmetic::div_mod::lemma_mod_multiples_basic(n, wb * pe);
    } else {
        assert(wb * pe < 0) by (nonlinear_arith)
            requires
                wb < 0,
                pe > 0,
        ;
        assert(n * (wb * pe) == (-n) * (-(wb * pe))) by (nonlinear_arith);
        vstd::arithmetic::div_mod::lemma_mod_multiples_basic(-n, -(wb * pe));
    }
    if wb > 0 {
        assert(0 <= f * pe < wb * pe) by (nonlinear_arith)
            requires
                0 <= f < wb,
                pe > 0,
        ;
    } else {
        assert(wb * pe < f * pe <= 0) by (nonlinear_arith)
            requires
                wb < f <= 0,
                pe > 0,
        ;
    }
}

/// The square root of a positive normal value is positive, and is the true
/// root rounded down: `r^2 <= x < (r + ulp)^2` (compared in units of `2^-316`).
pub proof fn law_sqrt_rounds_down(x: Scalar)
    requires
        x.normal_s(),
        x.positive_s(),
    ensures
        ({
            let r = sqrt_spec(x);
            &&& r.normal_s()
            &&& r.positive_s()
            &&& r.ival() * r.ival() <= x.ival() * unit() < (r.ival() + r.ulp()) * (r.ival()
                + r.ulp())
        }),
{
    crate::scalar::lemma_mant(x.fraction);
    crate::scalar::lemma_pow2_30_32();
    crate::basic::lemma_normal_sign(x);
    let h = fdiv(x.k(), 2);
    let o = x.k() - 2 * h;
    assert(h == x.k() / 2);
    assert(0 <= o <= 1);
    let n = x.w() * pow2((31 + o) as nat);
    let s = isqrt(n);
    lemma2_to64();
    lemma2_to64_rest();
    assert(pow2(31) * pow2(31) == pow2(62)) by {
        lemma_pow2_adds(31, 31);
    }
    lemma_pow2_adds(32, (31 + o) as nat);
    lemma_pow2_adds(31, (31 + o) as nat);
    assert(0x4000_0000_0000_0000 <= n < 0x1_0000_0000_0000_0000) by (nonlinear_arith)
        requires
            n == x.w() * pow2((31 + o) as nat),
            0x8000_0000 <= x.w() < 0x1_0000_0000,
            pow2((31 + o) as nat) == 0x8000_0000 || pow2((31 + o) as nat) == 0x1_0000_0000,
    ;
    let g = crate::roots::isqrt_bisect_ghost(n);
    crate::roots::lemma_isqrt_unique(n, g);
    assert(is_isqrt(n, s));
    crate::roots::lemma_root_band(n, s);
    crate::scalar::lemma_stored_frac(s);
    crate::scalar::lemma_stored_exp(h);
    let r = sqrt_spec(x);
    assert(r.normal_s() && r.k() == h && r.w() == s);
    let eh = (h + 127) as nat;
    let pe = pow2(eh) as int;
    lemma_pow2_pos(eh);
    lemma_pow2_adds(eh, eh);
    lemma_pow2_adds((31 + o) as nat, (2 * h + 254) as nat);
    lemma_pow2_adds((x.k() + 127) as nat, 158);
    assert((31 + o + 2 * h + 254) as nat == (x.k() + 127 + 158) as nat);
    let big = pow2((2 * h + 254) as nat) as int;
    assert(big == pe * pe);
    assert(x.ival() * unit() == n * big) by (nonlinear_arith)
        requires
            x.ival() == x.w() * pow2((x.k() + 127) as nat),
            unit() == pow2(158),
            pow2((x.k() + 127 + 158) as nat) == pow2((x.k() + 127) as nat) * pow2(158),
            pow2((x.k() + 127 + 158) as nat) == pow2((31 + o) as nat) * big,
            n == x.w() * pow2((31 + o) as nat),
    ;
    assert(r.ival() == s * pe);
    assert(r.ulp() == pe);
    assert((s * pe) * (s * pe) <= n * big < (s * pe + pe) * (s * pe + pe)) by (nonlinear_arith)
        requires
            s * s <= n < (s + 1) * (s + 1),
            big == pe * pe,
            pe > 0,
    ;
}

/// For a normal `pack_spec(x, t)` of a value with at least 32 significant
/// bits, the next value up, `r + ulp`, is at least `(x + 1) * 2^t`.
proof fn lemma_pack_floor_next(x: int, t: int, c: nat)
    requires
        x != 0,
        sbits(x) >= 32,
        pack_spec(x, t).normal_s(),
        t + 158 + c >= 0,
    ensures
        ({
            let r = pack_spec(x, t);
            (r.ival() + r.ulp()) * pow2(c) >= (x + 1) * pow2((t + 158 + c) as nat)
        }),
{
    let r = pack_spec(x, t);
    let m = sbits(x);
    let k = t + m - 1;
    lemma_pack_class(x, t);
    assert(-127 <= k <= 127);
    let d = (m - 32) as nat;
    let p = pow2(d) as int;
    lemma_pow2_pos(d);
    lemma_pow2_pos(c);
    if d == 0 {
        lemma2_to64();
    }
    let q = x / p;
    assert(r.w() == q);
    vstd::arithmetic::div_mod::lemma_fundamental_div_mod(x, p);
    vstd::arithmetic::div_mod::lemma_mod_bound(x, p);
    let big_p = pow2((t + 158 + c) as nat) as int;
    lemma_pow2_pos((t + 158 + c) as nat);
    let g = (t + d + 158) as nat;
    assert(r.k() + 127 == t + d + 158);
    let u = pow2(g) as int;
    lemma_pow2_adds(g, c);
    lemma_pow2_adds(d, (t + 158 + c) as nat);
    assert(u * pow2(c) == p * big_p);
    assert(r.ival() == q * u);
    assert(r.ulp() == u);
    assert((q * u + u) * pow2(c) >= (x + 1) * big_p) by (nonlinear_arith)
        requires
            u * pow2(c) == p * big_p,
            x == p * q + x % p,
            0 <= x % p < p,
            big_p > 0,
    ;
}

/// Division of two normal values is the exact quotient rounded toward
/// negative infinity, when the quotient is normal: `r <= a / b < r + ulp`,
/// written without division (the inequalities turn over for a negative
/// divisor).
pub proof fn law_div_rounds_down(a: Scalar, b: Scalar)
    requires
        a.normal_s(),
        b.normal_s(),
        div_spec(a, b).normal_s(),
    ensures
        ({
            let r = div_spec(a, b);
            &&& b.positive_s() ==> r.ival() * b.ival() <= a.ival() * unit() < (r.ival()
                + r.ulp()) * b.ival()
            &&& b.negative_s() ==> (r.ival() + r.ulp()) * b.ival() < a.ival() * unit()
                <= r.ival() * b.ival()
        }),
{
    crate::scalar::lemma_mant(a.fraction);
    crate::scalar::lemma_mant(b.fraction);
    crate::scalar::lemma_pow2_30_32();
    crate::basic::lemma_normal_sign(a);
    crate::basic::lemma_normal_sign(b);
    lemma2_to64_rest();
    let wa = a.w();
    let wb = b.w();
    let x = wa * pow2(33);
    let q = fdiv(x, wb);
    let t = a.k() - b.k() - 33;
    let r = div_spec(a, b);
    assert(r == pack_spec(q, t));
    let c: nat = 300;
    let big_p = pow2((t + 158 + c) as nat) as int;
    let pc = pow2(c) as int;
    lemma_pow2_pos(c);
    lemma_pow2_pos((t + 158 + c) as nat);
    // the exact quotient brackets the integer one
    if wb > 0 {
        assert(q == x / wb);
        vstd::arithmetic::div_mod::lemma_fundamental_div_mod(x, wb);
        vstd::arithmetic::div_mod::lemma_mod_bound(x, wb);
        assert(q * wb <= x < (q + 1) * wb) by (nonlinear_arith)
            requires
                x == wb * q + x % wb,
                0 <= x % wb < wb,
        ;
    } else {
        assert(q == (-x) / (-wb));
        vstd::arithmetic::div_mod::lemma_fundamental_div_mod(-x, -wb);
        vstd::arithmetic::div_mod::lemma_mod_bound(-x, -wb);
        assert((q + 1) * wb < x <= q * wb) by (nonlinear_arith)
            requires
                -x == (-wb) * q + (-x) % (-wb),
                0 <= (-x) % (-wb) < -wb,
        ;
    }
    // the integer quotient has at least 32 significant bits
    assert(q >= 0x1_0000_0000 || q <= -0x1_0000_0000) by (nonlinear_arith)
        requires
            x == wa * 0x2_0000_0000,
            (0x8000_0000 <= wa < 0x1_0000_0000) || (-0x1_0000_0000 <= wa < -0x8000_0000),
            (0x8000_0000 <= wb < 0x1_0000_0000) || (-0x1_0000_0000 <= wb < -0x8000_0000),
            wb > 0 ==> q * wb <= x < (q + 1) * wb,
            wb < 0 ==> (q + 1) * wb < x <= q * wb,
    ;
    if sbits(q) < 32 {
        crate::bits::lemma_sbits_range(q, 31);
    }
    lemma_pack_floor(q, t, c);
    lemma_pack_floor_next(q, t, c);
    // scale everything to units of 2^-(316 + c)
    let eb = (b.k() + 127) as nat;
    let pb = pow2(eb) as int;
    lemma_pow2_pos(eb);
    lemma_pow2_adds(33, (t + 158 + c) as nat);
    lemma_pow2_adds((33 + t + 158 + c) as nat, eb);
    lemma_pow2_adds((a.k() + 127) as nat, 158);
    lemma_pow2_adds((a.k() + 285) as nat, c);
    assert((33 + t + 158 + c + eb) as nat == (a.k() + 285 + c) as nat);
    let lhs = a.ival() * unit() * pc;
    assert(lhs == x * big_p * pb) by (nonlinear_arith)
        requires
            lhs == a.ival() * unit() * pc,
            a.ival() == wa * pow2((a.k() + 127) as nat),
            unit() == pow2(158),
            pow2((a.k() + 285) as nat) == pow2((a.k() + 127) as nat) * pow2(158),
            pow2((a.k() + 285 + c) as nat) == pow2((a.k() + 285) as nat) * pc,
            pow2((a.k() + 285 + c) as nat) == pow2((33 + t + 158 + c) as nat) * pb,
            pow2((33 + t + 158 + c) as nat) == pow2(33) * big_p,
            x == wa * pow2(33),
    ;
    assert(b.ival() == wb * pb);
    let lo = r.ival() * pc;
    let hi = (r.ival() + r.ulp()) * pc;
    assert(lo <= q * big_p);
    assert(hi >= (q + 1) * big_p);
    if wb > 0 {
        assert(lo * (wb * pb) <= x * big_p * pb < hi * (wb * pb)) by (nonlinear_arith)
            requires
                lo <= q * big_p,
                hi >= (q + 1) * big_p,
                q * wb <= x < (q + 1) * wb,
                wb > 0,
                pb > 0,
                big_p > 0,
        ;
        assert(r.ival() * b.ival() <= a.ival() * unit() < (r.ival() + r.ulp()) * b.ival())
            by (nonlinear_arith)
            requires
                lo == r.ival() * pc,
                hi == (r.ival() + r.ulp()) * pc,
                lo * (wb * pb) <= lhs < hi * (wb * pb),
                lhs == a.ival() * unit() * pc,
                b.ival() == wb * pb,
                pc > 0,
        ;
    } else {
        assert(hi * (wb * pb) < x * big_p * pb <= lo * (wb * pb)) by (nonlinear_arith)
            requires
                lo <= q * big_p,
                hi >= (q + 1) * big_p,
                (q + 1) * wb < x <= q * wb,
                wb < 0,
                pb > 0,
                big_p > 0,
        ;
        assert((r.ival() + r.ulp()) * b.ival() < a.ival() * unit() <= r.ival() * b.ival())
            by (nonlinear_arith)
            requires
                lo == r.ival() * pc,
                hi == (r.ival() + r.ulp()) * pc,
                hi * (wb * pb) < lhs <= lo * (wb * pb),
                lhs == a.ival() * unit() * pc,
                b.ival() == wb * pb,
                pc > 0,
        ;
    }
}

/// A normal value packs back to itself from its significand and exponent.
pub proof fn lemma_pack_self(x: Scalar)
    requires
        x.normal_s(),
    ensures
        pack_spec(x.w(), x.k() - 31) == x,
{
    crate::scalar::lemma_mant(x.fraction);
    crate::bits::lemma_band_sbits(x.w(), 32);
    lemma_pack_class(x.w(), x.k() - 31);
    lemma2_to64();
    assert(crate::bits::scale(x.w(), 0) == x.w() / 1);
    crate::scalar::lemma_exp_round_trip(x.exponent);
}

/// A value plus its negation is zero, for zero and for a normal value whose
/// negation is normal (the sum of escaped or undefined values is not).
pub proof fn law_add_negation_is_zero(x: Scalar)
    requires
        x.zero_s() || (x.normal_s() && negate_spec(x).normal_s()),
    ensures
        add_spec(x, negate_spec(x)).zero_s(),
{
    if x.normal_s() {
        lemma_add_negation_is_zero_normal(x);
    }
}

proof fn lemma_add_negation_is_zero_normal(x: Scalar)
    requires
        x.normal_s(),
        negate_spec(x).normal_s(),
    ensures
        add_spec(x, negate_spec(x)).zero_s(),
{
    let y = negate_spec(x);
    lemma_negate_normal(x);
    let a = x;
    let b = y;
    let big = if a.k() > b.k() {
        a
    } else {
        b
    };
    let small = if a.k() > b.k() {
        b
    } else {
        a
    };
    // the negation moves at most one binade
    crate::basic::lemma_ival_range(x);
    crate::basic::lemma_ival_range(y);
    crate::basic::lemma_normal_sign(x);
    crate::basic::lemma_normal_sign(y);
    if x.k() > y.k() + 1 {
        lemma_pow2_strictly_increases((y.k() + 159) as nat, (x.k() + 158) as nat);
    }
    if y.k() > x.k() + 1 {
        lemma_pow2_strictly_increases((x.k() + 159) as nat, (y.k() + 158) as nat);
    }
    assert(-1 <= x.k() - y.k() <= 1);
    let sft = (big.k() - small.k()) as nat;
    let z = big.w() * pow2(sft) + small.w();
    let e = (small.k() + 127) as nat;
    lemma_pow2_adds(sft, e);
    lemma_pow2_pos(e);
    assert(z * pow2(e) == big.ival() + small.ival()) by (nonlinear_arith)
        requires
            z == big.w() * pow2(sft) + small.w(),
            pow2((big.k() + 127) as nat) == pow2(sft) * pow2(e),
            big.ival() == big.w() * pow2((big.k() + 127) as nat),
            small.ival() == small.w() * pow2(e),
    ;
    assert(big.ival() + small.ival() == 0);
    assert(z == 0) by (nonlinear_arith)
        requires
            z * pow2(e) == 0,
            pow2(e) > 0,
    ;
    assert(add_spec(x, y) == pack_spec(z, small.k() - 31));
}

/// Multiplying a value by one leaves it unchanged.
pub proof fn law_mul_one_identity(x: Scalar)
    requires
        canonical(x),
    ensures
        mul_spec(x, crate::exponents::one_spec()) == x,
        mul_spec(crate::exponents::one_spec(), x) == x,
{
    let one = crate::exponents::one_spec();
    crate::scalar::lemma_pow2_30_32();
    crate::scalar::lemma_stored_exp(0);
    assert(one.w() == 0x8000_0000 && one.k() == 0);
    if x.normal_s() {
        lemma_mul_one_identity_normal(x);
    } else if x.exploded_s() || x.vanished_s() {
        let f = x.fraction as int;
        let n: nat = if x.exploded_s() { 31 } else { 30 };
        let j: nat = if x.exploded_s() { 32 } else { 33 };
        if x.exploded_s() {
            assert(in_band(f, 31));
        } else {
            assert(in_band(f, 30));
        }
        crate::bits::lemma_band_sbits(f, n);
        lemma2_to64_rest();
        assert(pow2(1) == 2 && pow2(2) == 4) by {
            lemma2_to64();
        }
        lemma_pow2_adds(1, 31);
        lemma_pow2_adds(2, 31);
        assert(crate::arith::sig(x) * one.w() == f * pow2(j)) by (nonlinear_arith)
            requires
                crate::arith::sig(x) == (if x.exploded_s() { 2 * f } else { 4 * f }),
                one.w() == pow2(31),
                pow2(j) == (if x.exploded_s() { 2 * pow2(31) } else { 4 * pow2(31) }),
        ;
        assert(one.w() * crate::arith::sig(x) == f * pow2(j)) by (nonlinear_arith)
            requires
                crate::arith::sig(x) * one.w() == f * pow2(j),
        ;
        lemma_signed_escape_self(x, j);
    }
}

/// An escaped value's fraction scaled by any power of two escapes, by
/// magnitude and then sign, back to the value itself.
pub proof fn lemma_signed_escape_self(x: Scalar, j: nat)
    requires
        x.exploded_s() || x.vanished_s(),
    ensures
        crate::arith::signed_escape_spec(x.fraction * pow2(j), x.exploded_s()) == x,
{
    let f = x.fraction as int;
    let n: nat = if x.exploded_s() {
        31
    } else {
        30
    };
    crate::scalar::lemma_pow2_30_32();
    crate::basic::lemma_classes(x);
    if x.exploded_s() {
        assert(in_band(f, 31));
    } else {
        assert(in_band(f, 30));
    }
    crate::bits::lemma_band_sbits(f, n);
    lemma_pow2_pos(j);
    assert(pow2(0) == 1) by {
        lemma2_to64();
    }
    let g = if f >= 0 {
        f
    } else {
        -f
    };
    assert(g != 0);
    assert((if f >= 0 { f * pow2(j) } else { -(f * pow2(j)) }) == g * pow2(j)) by (nonlinear_arith)
        requires
            g == (if f >= 0 { f } else { -f }),
    ;
    assert(f * pow2(j) < 0 <==> f < 0) by (nonlinear_arith)
        requires
            pow2(j) > 0,
    ;
    crate::bits::lemma_sbits_shift(g, j);
    crate::bits::lemma_scale_shift(g, j, sbits(g) - n);
    if f >= 0 {
        assert(crate::bits::scale(f, 0) == f) by {
            assert(f / 1 == f);
        }
    } else if g == pow2(n) {
        // The most negative fraction of the level: its magnitude needs one
        // more bit and comes back as the positive one, negated to itself.
        crate::bits::lemma_band_sbits(g, n + 1);
        assert(pow2(1) == 2) by {
            lemma2_to64();
        }
        lemma_pow2_unfold(n);
        assert(crate::bits::scale(g, 1) == g / 2);
    } else {
        assert(in_band(g, n));
        crate::bits::lemma_band_sbits(g, n);
        assert(crate::bits::scale(g, 0) == g) by {
            assert(g / 1 == g);
        }
    }
}

proof fn lemma_mul_one_identity_normal(x: Scalar)
    requires
        x.normal_s(),
    ensures
        mul_spec(x, crate::exponents::one_spec()) == x,
        mul_spec(crate::exponents::one_spec(), x) == x,
{
    let one = crate::exponents::one_spec();
    crate::scalar::lemma_mant(x.fraction);
    crate::scalar::lemma_pow2_30_32();
    crate::scalar::lemma_stored_exp(0);
    assert(one.w() == 0x8000_0000 && one.k() == 0);
    let w = x.w();
    crate::bits::lemma_band_mul(w, 32, 31);
    crate::bits::lemma_band_sbits(w * pow2(31), 63);
    lemma_pack_class(w * pow2(31), x.k() - 62);
    lemma_pow2_pos(31);
    vstd::arithmetic::div_mod::lemma_div_multiples_vanish(w, pow2(31) as int);
    assert(crate::bits::scale(w * pow2(31), 31) == w);
    lemma_pack_self(x);
    assert(w * one.w() == one.w() * w) by (nonlinear_arith);
    crate::arith::lemma_mul_normal_is_pack(x, one);
    crate::arith::lemma_mul_normal_is_pack(one, x);
}

/// Shifting a normal value by `n` binades within the range multiplies it by
/// `2^n` exactly.
pub proof fn law_shift_is_exact(x: Scalar, n: int)
    requires
        x.normal_s(),
        -127 <= x.k() + n <= 127,
    ensures
        n >= 0 ==> shl_spec(x, n).ival() == x.ival() * pow2(n as nat),
        n < 0 ==> shl_spec(x, n).ival() * pow2((-n) as nat) == x.ival(),
{
    lemma_stored_exp(x.k() + n);
    let r = shl_spec(x, n);
    assert(r.k() == x.k() + n && r.w() == x.w());
    if n >= 0 {
        lemma_pow2_adds((x.k() + 127) as nat, n as nat);
        vstd::arithmetic::mul::lemma_mul_is_associative(x.w(), pow2((x.k() + 127) as nat) as int, pow2(n as nat) as int);
    } else {
        lemma_pow2_adds((r.k() + 127) as nat, (-n) as nat);
        vstd::arithmetic::mul::lemma_mul_is_associative(x.w(), pow2((r.k() + 127) as nat) as int, pow2((-n) as nat) as int);
    }
}

/// AND of a value with itself is the value, except for escaped values,
/// whose ambiguous exponents make the pair undefined.
pub proof fn law_and_idempotent(x: Scalar)
    requires
        canonical(x),
        !x.exploded_s(),
        !x.vanished_s(),
    ensures
        and_spec(x, x) == x,
{
    if x.normal_s() {
        lemma_and_idempotent_normal(x);
    }
}

proof fn lemma_and_idempotent_normal(x: Scalar)
    requires
        x.normal_s(),
    ensures
        and_spec(x, x) == x,
{
    let w = x.w();
    crate::scalar::lemma_mant(x.fraction);
    crate::scalar::lemma_pow2_30_32();
    lemma2_to64();
    let v = (w * pow2(0)) as i64;
    assert(v == w as i64);
    assert(forall|a: i64| #[trigger] (a & a) == a) by (bit_vector);
    assert(combine(BitwiseOp::And, v, w as i64) as int == w);
    lemma_pack_self(x);
}

/// XOR of a value with itself is zero, except for undefined states (which
/// propagate) and escaped values (whose pair is undefined).
pub proof fn law_xor_self_is_zero(x: Scalar)
    requires
        canonical(x),
        !x.undefined_s(),
        !x.exploded_s(),
        !x.vanished_s(),
    ensures
        xor_spec(x, x).zero_s(),
{
    if x.normal_s() {
        lemma_xor_self_is_zero_normal(x);
    }
}

proof fn lemma_xor_self_is_zero_normal(x: Scalar)
    requires
        x.normal_s(),
    ensures
        xor_spec(x, x).zero_s(),
{
    let w = x.w();
    lemma2_to64();
    let v = (w * pow2(0)) as i64;
    assert(v == w as i64);
    assert(forall|a: i64| #[trigger] (a ^ a) == 0) by (bit_vector);
    assert(combine(BitwiseOp::Xor, v, w as i64) == 0);
}

/// A Circle component `f` in units of `2^-158`.
pub open spec fn cunits(c: Circle, f: int) -> int {
    f * pow2((c.k() + 128) as nat)
}

/// One component of a normal `cpack_spec` is that component of the exact
/// value rounded toward negative infinity at the result's precision,
/// compared at any finer common scale `2^-(158 + c)`.
proof fn lemma_cpack_component(x: int, y: int, t: int, z: int, c: nat)
    requires
        z == x || z == y,
        cpack_spec(x, y, t).normal_c(),
        t + 158 + c >= 0,
    ensures
        ({
            let r = cpack_spec(x, y, t);
            let m = if sbits(x) >= sbits(y) {
                sbits(x)
            } else {
                sbits(y)
            };
            let f = crate::bits::scale(z, m - 31);
            &&& cunits(r, f) * pow2(c) <= z * pow2((t + 158 + c) as nat) < (cunits(r, f) + pow2(
                (r.k() + 128) as nat,
            )) * pow2(c)
            &&& (z == x ==> r.real == f)
            &&& (z == y ==> r.imaginary == f)
        }),
{
    let r = cpack_spec(x, y, t);
    let m = if sbits(x) >= sbits(y) {
        sbits(x)
    } else {
        sbits(y)
    };
    let k = t + m - 1;
    assert(!(x == 0 && y == 0));
    assert(-127 <= k <= 127);
    crate::scalar::lemma_stored_exp(k);
    crate::bits::lemma_scale_fits(x, m, 31);
    crate::bits::lemma_scale_fits(y, m, 31);
    crate::scalar::lemma_pow2_30_32();
    assert(r.k() == k);
    let f = crate::bits::scale(z, m - 31);
    let e = (t + 158 + c) as nat;
    let g = (k + 128) as nat;
    let pc = pow2(c) as int;
    lemma_pow2_pos(e);
    lemma_pow2_pos(c);
    lemma_pow2_pos(g);
    lemma_pow2_adds(g, c);
    if m >= 31 {
        let d = (m - 31) as nat;
        let p = pow2(d) as int;
        lemma_pow2_pos(d);
        lemma_pow2_adds(d, e);
        assert(g + c == d + e);
        vstd::arithmetic::div_mod::lemma_fundamental_div_mod(z, p);
        vstd::arithmetic::div_mod::lemma_mod_bound(z, p);
        assert(f == z / p);
        assert(pow2(g) * pc == p * pow2(e));
        assert(f * pow2(g) * pc <= z * pow2(e) < (f * pow2(g) + pow2(g)) * pc)
            by (nonlinear_arith)
            requires
                z == p * f + z % p,
                0 <= z % p < p,
                pow2(g) * pc == p * pow2(e),
                pow2(e) > 0,
        ;
    } else {
        let d = (31 - m) as nat;
        let p = pow2(d) as int;
        lemma_pow2_pos(d);
        lemma_pow2_adds(d, (g + c) as nat);
        assert(e == d + g + c);
        assert(f == z * p);
        assert(f * pow2(g) * pc == z * pow2(e)) by (nonlinear_arith)
            requires
                f == z * p,
                pow2(e) == p * pow2((g + c) as nat),
                pow2((g + c) as nat) == pow2(g) * pc,
        ;
        assert(f * pow2(g) * pc < (f * pow2(g) + pow2(g)) * pc) by (nonlinear_arith)
            requires
                pow2(g) > 0,
                pc > 0,
        ;
    }
}

/// Adding two normal Circles rounds each part of the exact sum toward
/// negative infinity, when the sum is normal, except where the smaller
/// operand, 32 or more binades below, is dropped with a negative part.
pub proof fn law_circle_add_rounds_down(a: Circle, b: Circle)
    requires
        a.normal_c(),
        b.normal_c(),
        (-31 <= a.k() - b.k() <= 31) || (a.k() - b.k() >= 32 && b.real >= 0 && b.imaginary >= 0)
            || (b.k() - a.k() >= 32 && a.real >= 0 && a.imaginary >= 0),
        cadd_spec(a, b).normal_c(),
    ensures
        ({
            let r = cadd_spec(a, b);
            let u = pow2((r.k() + 128) as nat);
            &&& cunits(r, r.real as int) <= cunits(a, a.real as int) + cunits(b, b.real as int)
                < cunits(r, r.real as int) + u
            &&& cunits(r, r.imaginary as int) <= cunits(a, a.imaginary as int) + cunits(
                b,
                b.imaginary as int,
            ) < cunits(r, r.imaginary as int) + u
        }),
{
    if a.k() - b.k() >= 32 || b.k() - a.k() >= 32 {
        let big = if a.k() > b.k() {
            a
        } else {
            b
        };
        let small = if a.k() > b.k() {
            b
        } else {
            a
        };
        assert(cadd_spec(a, b) == big);
        crate::scalar::lemma_pow2_30_32();
        let e = (small.k() + 128) as nat;
        lemma_pow2_pos(e);
        lemma_pow2_adds(31, e);
        crate::bits::lemma_pow2_le(31 + e, (big.k() + 128) as nat);
        assert(0 <= cunits(small, small.real as int) < pow2(31) * pow2(e)) by (nonlinear_arith)
            requires
                cunits(small, small.real as int) == small.real * pow2(e),
                0 <= small.real < 0x8000_0000,
                pow2(31) == 0x8000_0000,
                pow2(e) > 0,
        ;
        assert(0 <= cunits(small, small.imaginary as int) < pow2(31) * pow2(e))
            by (nonlinear_arith)
            requires
                cunits(small, small.imaginary as int) == small.imaginary * pow2(e),
                0 <= small.imaginary < 0x8000_0000,
                pow2(31) == 0x8000_0000,
                pow2(e) > 0,
        ;
    } else {
        lemma_circle_add_rounds_down_near(a, b);
    }
}

proof fn lemma_circle_add_rounds_down_near(a: Circle, b: Circle)
    requires
        a.normal_c(),
        b.normal_c(),
        -31 <= a.k() - b.k() <= 31,
        cadd_spec(a, b).normal_c(),
    ensures
        ({
            let r = cadd_spec(a, b);
            let u = pow2((r.k() + 128) as nat);
            &&& cunits(r, r.real as int) <= cunits(a, a.real as int) + cunits(b, b.real as int)
                < cunits(r, r.real as int) + u
            &&& cunits(r, r.imaginary as int) <= cunits(a, a.imaginary as int) + cunits(
                b,
                b.imaginary as int,
            ) < cunits(r, r.imaginary as int) + u
        }),
{
    let big = if a.k() > b.k() {
        a
    } else {
        b
    };
    let small = if a.k() > b.k() {
        b
    } else {
        a
    };
    let sft = (big.k() - small.k()) as nat;
    let p = pow2(sft) as int;
    let x = big.real * p + small.real;
    let y = big.imaginary * p + small.imaginary;
    let t = small.k() - 30;
    assert(cadd_spec(a, b) == cpack_spec(x, y, t));
    lemma_cpack_component(x, y, t, x, 0);
    lemma_cpack_component(x, y, t, y, 0);
    lemma2_to64();
    let e = (small.k() + 128) as nat;
    lemma_pow2_adds(sft, e);
    assert((t + 158) as nat == e);
    let pb = pow2((big.k() + 128) as nat) as int;
    let ps = pow2(e) as int;
    assert(cunits(big, big.real as int) == big.real * pb);
    assert(cunits(small, small.real as int) == small.real * ps);
    assert(cunits(big, big.imaginary as int) == big.imaginary * pb);
    assert(cunits(small, small.imaginary as int) == small.imaginary * ps);
    assert(x * ps == big.real * pb + small.real * ps) by (nonlinear_arith)
        requires
            x == big.real * p + small.real,
            pb == p * ps,
    ;
    assert(y * ps == big.imaginary * pb + small.imaginary * ps) by (nonlinear_arith)
        requires
            y == big.imaginary * p + small.imaginary,
            pb == p * ps,
    ;
}

proof fn lemma_mul4(a: int, p: int, b: int, q: int)
    ensures
        (a * p) * (b * q) == (a * b) * (p * q),
{
    assert((a * p) * (b * q) == (a * b) * (p * q)) by (nonlinear_arith);
}

/// Multiplying two normal Circles rounds each part of the exact product
/// toward negative infinity, when the product is normal (compared in units
/// of `2^-316`).
pub proof fn law_circle_mul_rounds_down(a: Circle, b: Circle)
    requires
        a.normal_c(),
        b.normal_c(),
        cmul_spec(a, b).normal_c(),
    ensures
        ({
            let r = cmul_spec(a, b);
            let u = pow2((r.k() + 128) as nat);
            let re = cunits(a, a.real as int) * cunits(b, b.real as int) - cunits(
                a,
                a.imaginary as int,
            ) * cunits(b, b.imaginary as int);
            let im = cunits(a, a.real as int) * cunits(b, b.imaginary as int) + cunits(
                a,
                a.imaginary as int,
            ) * cunits(b, b.real as int);
            &&& cunits(r, r.real as int) * unit() <= re < (cunits(r, r.real as int) + u) * unit()
            &&& cunits(r, r.imaginary as int) * unit() <= im < (cunits(r, r.imaginary as int) + u)
                * unit()
        }),
{
    let x = a.real * b.real - a.imaginary * b.imaginary;
    let y = a.real * b.imaginary + a.imaginary * b.real;
    let t = a.k() + b.k() - 60;
    assert(cmul_spec(a, b) == cpack_spec(x, y, t));
    lemma_cpack_component(x, y, t, x, 158);
    lemma_cpack_component(x, y, t, y, 158);
    let ea = (a.k() + 128) as nat;
    let eb = (b.k() + 128) as nat;
    lemma_pow2_adds(ea, eb);
    assert((t + 158 + 158) as nat == ea + eb);
    let pa = pow2(ea) as int;
    let pb = pow2(eb) as int;
    assert(cunits(a, a.real as int) == a.real * pa);
    assert(cunits(a, a.imaginary as int) == a.imaginary * pa);
    assert(cunits(b, b.real as int) == b.real * pb);
    assert(cunits(b, b.imaginary as int) == b.imaginary * pb);
    let pp = pa * pb;
    lemma_mul4(a.real as int, pa, b.real as int, pb);
    lemma_mul4(a.imaginary as int, pa, b.imaginary as int, pb);
    lemma_mul4(a.real as int, pa, b.imaginary as int, pb);
    lemma_mul4(a.imaginary as int, pa, b.real as int, pb);
    vstd::arithmetic::mul::lemma_mul_is_distributive_sub_other_way(
        pp,
        a.real * b.real,
        a.imaginary * b.imaginary,
    );
    vstd::arithmetic::mul::lemma_mul_is_distributive_add_other_way(
        pp,
        a.real * b.imaginary,
        a.imaginary * b.real,
    );
}
/// Floor, ceiling and rounding leave an integer unchanged.
pub proof fn law_integers_are_fixed(x: Scalar)
    requires
        integer_spec(x),
    ensures
        floor_spec(x) == x,
        ceil_spec(x) == x,
        round_spec(x) == x,
{
    if x.normal_s() && x.k() < 31 {
        let j = frac_bits(x.k());
        let p = pow2(j) as int;
        lemma_pow2_pos(j);
        let q = x.w() / p;
        vstd::arithmetic::div_mod::lemma_fundamental_div_mod(x.w(), p);
        assert(x.w() == q * p);
        crate::scalar::lemma_mant(x.fraction);
        crate::bits::lemma_band_sbits(x.w(), 32);
        assert(q != 0);
        assert(floor_part(x.w(), j) == q);
        assert(round_part(x.w(), j) == q) by {
            assert(x.w() - q * p == 0);
        }
        lemma_pack_self(x);
        crate::scalar::lemma_pack_shift(q, 0, j);
        assert(0 - j == x.k() - 31);
        assert(q * p == q * pow2(j) as int);
    }
}

proof fn lemma_lb_bits_range(x: Scalar, n: nat)
    ensures
        0 <= crate::exponents::lb_bits(x, n).0 < pow2(n),
    decreases n,
{
    if n == 0 {
        lemma2_to64();
    } else {
        lemma_lb_bits_range(x, (n - 1) as nat);
        lemma_pow2_unfold(n);
    }
}

/// A non-zero `x * 2^t` of magnitude in `[2^lo, 2^hi)` (in units of
/// `2^-158`, `lo >= 32`, `hi <= 285`) packs to a normal value in binade at
/// most `hi - 158`.
proof fn lemma_pack_in_range(x: int, t: int, s: int, lo: nat, hi: nat)
    requires
        x != 0,
        t + 158 >= 0,
        s == x * pow2((t + 158) as nat),
        32 <= lo,
        hi <= 285,
        pow2(lo) <= (if s >= 0 { s } else { -s }) < pow2(hi),
    ensures
        pack_spec(x, t).normal_s(),
        pack_spec(x, t).k() <= hi - 158,
{
    let m = sbits(x);
    let e = (t + 158) as nat;
    let p = pow2(e) as int;
    lemma_pow2_pos(e);
    lemma_pack_class(x, t);
    let mag = if s >= 0 {
        s
    } else {
        -s
    };
    lemma_pow2_unfold(lo);
    lemma_pow2_pos((lo - 1) as nat);
    if x == -1 {
        assert(sbits(-1) == 0) by {
            reveal_with_fuel(crate::bits::nb, 2);
        }
        assert(mag == p);
        if t + m - 1 > hi - 158 {
            crate::bits::lemma_pow2_le(hi, e);
        }
        if t + m - 1 < -127 {
            crate::bits::lemma_pow2_le(e, (lo - 1) as nat);
        }
    } else {
        crate::bits::lemma_sbits_band(x);
        let low = pow2((m - 1) as nat) as int;
        let high = pow2(m) as int;
        lemma_pow2_adds((m - 1) as nat, e);
        lemma_pow2_adds(m, e);
        if x > 0 {
            assert(low * p <= s < high * p) by (nonlinear_arith)
                requires
                    low <= x < high,
                    s == x * p,
                    p > 0,
            ;
        } else {
            assert(s < 0) by (nonlinear_arith)
                requires
                    x < 0,
                    s == x * p,
                    p > 0,
            ;
            assert(low * p < mag <= high * p) by (nonlinear_arith)
                requires
                    -high <= x < -low,
                    s == x * p,
                    mag == -s,
                    p > 0,
            ;
        }
        if t + m - 1 > hi - 158 {
            crate::bits::lemma_pow2_le(hi, ((m - 1) as nat + e) as nat);
        }
        if t + m - 1 < -127 {
            crate::bits::lemma_pow2_le((m + e) as nat, (lo - 1) as nat);
        }
    }
}

/// The binary logarithm of a positive normal value lies in its binade:
/// `k <= lb(x) < k + 1` for `x` in `[2^k, 2^(k+1))` (in units of `2^-158`;
/// a zero result counts as `0`).
pub proof fn law_lb_in_binade(x: Scalar)
    requires
        x.normal_s(),
        x.positive_s(),
    ensures
        ({
            let r = crate::exponents::lb_spec(x);
            let rv = if r.zero_s() {
                0
            } else {
                r.ival()
            };
            &&& r.zero_s() || r.normal_s()
            &&& x.k() * unit() <= rv < (x.k() + 1) * unit()
        }),
{
    let k = x.k();
    let start = crate::scalar::sc(x.fraction, stored_exp(0));
    let raw = crate::exponents::lb_bits(start, 32).0;
    lemma_lb_bits_range(start, 32);
    lemma2_to64();
    lemma2_to64_rest();
    lemma_pow2_adds(126, 32);
    let a = pack_spec(k, 0);
    let b = pack_spec(raw, -32);
    assert(crate::exponents::lb_spec(x) == add_spec(a, b));
    let u = pow2(158) as int;
    lemma_pow2_pos(126);
    crate::bits::lemma_sbits_le(k, 8);
    crate::bits::lemma_sbits_le(raw, 32);
    if k != 0 {
        lemma_pack_class(k, 0);
        lemma_pack_normal_value(k, 0);
        assert(a.ival() == k * u);
    } else {
        assert(a.zero_s());
    }
    if raw != 0 {
        lemma_pack_class(raw, -32);
        lemma_pack_normal_value(raw, -32);
        assert(b.ival() == raw * pow2(126));
        assert(b.positive_s());
        assert(b.k() <= -1) by {
            crate::bits::lemma_sbits_le(raw, 32);
        }
    } else {
        assert(b.zero_s());
    }
    assert(0 <= raw * pow2(126) < u) by (nonlinear_arith)
        requires
            0 <= raw < pow2(32),
            u == pow2(126) * pow2(32),
            pow2(126) > 0,
    ;
    assert(raw != 0 ==> raw * pow2(126) > 0) by (nonlinear_arith)
        requires
            0 <= raw,
            pow2(126) > 0,
    ;
    lemma_pow2_pos(158);
    if k == 0 && raw == 0 {
        assert(add_spec(a, b).zero_s());
    } else if k == 0 {
        assert(add_spec(a, b) == b);
        assert(b.normal_s());
        assert(0 * u <= b.ival() < (0 + 1) * u);
    } else if raw == 0 {
        assert(add_spec(a, b) == a);
        assert(a.normal_s());
        assert(k * u <= k * u < (k + 1) * u) by (nonlinear_arith)
            requires
                u > 0,
        ;
    } else {
        let r = add_spec(a, b);
        let sum = a.ival() + b.ival();
        assert(k * u < sum < (k + 1) * u) by (nonlinear_arith)
            requires
                sum == k * u + raw * pow2(126),
                0 < raw * pow2(126) < u,
        ;
        if a.k() - b.k() >= 31 {
            assert(r == a);
            assert(k * u <= k * u < (k + 1) * u) by (nonlinear_arith)
                requires
                    u > 0,
            ;
        } else {
            let big = if a.k() > b.k() {
                a
            } else {
                b
            };
            let small = if a.k() > b.k() {
                b
            } else {
                a
            };
            let sft = (big.k() - small.k()) as nat;
            let xx = big.w() * pow2(sft) + small.w();
            let t = small.k() - 31;
            assert(r == pack_spec(xx, t));
            let e = (small.k() + 127) as nat;
            lemma_pow2_adds(sft, e);
            assert((sft + e) as nat == (big.k() + 127) as nat);
            assert(xx * pow2(e) == big.w() * pow2((big.k() + 127) as nat) + small.w() * pow2(e))
                by (nonlinear_arith)
                requires
                    xx == big.w() * pow2(sft) + small.w(),
                    pow2((big.k() + 127) as nat) == pow2(sft) * pow2(e),
            ;
            assert(xx * pow2(e) == sum);
            // The sum is far from zero and below 2^7 in magnitude.
            lemma_pow2_adds(158, 7);
            assert(pow2(7) == 128);
            assert(-127 <= k <= 127);
            assert(pow2(126) <= (if sum >= 0 { sum } else { -sum }) < pow2(165)) by (nonlinear_arith)
                requires
                    sum == k * u + raw * pow2(126),
                    0 < raw * pow2(126) < u,
                    u == pow2(126) * pow2(32),
                    pow2(165) == u * 128,
                    pow2(32) == 0x1_0000_0000,
                    -127 <= k <= 127,
                    k != 0,
                    0 < raw < 0x1_0000_0000,
            ;
            assert(xx != 0) by {
                if xx == 0 {
                    assert(xx * pow2(e) == 0) by (nonlinear_arith)
                        requires
                            xx == 0,
                    ;
                }
            }
            lemma_pack_in_range(xx, t, sum, 126, 165);
            lemma_add_rounds_down_near(a, b);
            let ul = r.ulp();
            let j = (31 - r.k()) as nat;
            lemma_pow2_adds(j, (r.k() + 127) as nat);
            assert((j + (r.k() + 127) as nat) as nat == 158);
            assert(k * u == (k * pow2(j)) * ul) by (nonlinear_arith)
                requires
                    u == pow2(j) * ul,
            ;
            assert(r.ival() == r.w() * ul);
            lemma_pow2_pos((r.k() + 127) as nat);
            assert(k * u <= r.ival()) by (nonlinear_arith)
                requires
                    k * u == (k * pow2(j)) * ul,
                    r.ival() == r.w() * ul,
                    k * u <= sum < r.ival() + ul,
                    ul > 0,
            ;
        }
    }
}

/// Absolute value of an integer.
pub open spec fn abs_i(v: int) -> int {
    if v >= 0 {
        v
    } else {
        -v
    }
}

/// The binade of a normal value bounds its magnitude from both sides, so a
/// bound on the magnitude bounds the binade.
proof fn lemma_binade_bounds(z: Scalar, lo: nat, hi: nat)
    requires
        z.normal_s(),
    ensures
        z.positive_s() ==> z.ival() > 0,
        z.negative_s() ==> z.ival() < 0,
        pow2((z.k() + 158) as nat) <= abs_i(z.ival()) <= pow2((z.k() + 159) as nat),
        z.positive_s() ==> abs_i(z.ival()) < pow2((z.k() + 159) as nat),
        pow2(lo) < abs_i(z.ival()) ==> lo <= z.k() + 158,
        z.positive_s() && pow2(lo) <= abs_i(z.ival()) ==> lo <= z.k() + 158,
        pow2(lo) <= abs_i(z.ival()) ==> lo <= z.k() + 159,
        abs_i(z.ival()) < pow2(hi) ==> z.k() + 159 <= hi,
        z.negative_s() ==> pow2((z.k() + 158) as nat) < abs_i(z.ival()),
        abs_i(z.ival()) <= pow2(hi) ==> z.k() + 158 <= hi,
        z.negative_s() && abs_i(z.ival()) <= pow2(hi) ==> z.k() + 159 <= hi,
{
    crate::basic::lemma_ival_range(z);
    crate::basic::lemma_normal_sign(z);
    lemma_pow2_pos((z.k() + 158) as nat);
    if pow2(lo) <= abs_i(z.ival()) && z.k() + 159 < lo {
        crate::bits::lemma_pow2_le((z.k() + 160) as nat, lo);
        lemma_pow2_strictly_increases((z.k() + 159) as nat, (z.k() + 160) as nat);
    }
    if pow2(lo) <= abs_i(z.ival()) && z.k() + 158 < lo {
        crate::bits::lemma_pow2_le((z.k() + 159) as nat, lo);
    }
    if abs_i(z.ival()) < pow2(hi) && hi < z.k() + 159 {
        crate::bits::lemma_pow2_le(hi, (z.k() + 158) as nat);
    }
    if abs_i(z.ival()) <= pow2(hi) && hi < z.k() + 158 {
        lemma_pow2_strictly_increases(hi, (z.k() + 158) as nat);
    }
}

/// A non-zero multiple of a positive step is at least one step away from zero.
proof fn lemma_nonzero_multiple(v: int, u: int)
    requires
        u > 0,
        v % u == 0,
        v != 0,
    ensures
        v >= u || v <= -u,
{
    vstd::arithmetic::div_mod::lemma_fundamental_div_mod(v, u);
    let q = v / u;
    assert(v == u * q);
    assert(v >= u || v <= -u) by (nonlinear_arith)
        requires
            v == u * q,
            v != 0,
            u > 0,
    ;
}

/// The fractional part of a normal value lies in `[0, 1)`: it is zero or a
/// positive normal value below one.
pub proof fn law_frac_in_unit_interval(x: Scalar)
    requires
        x.normal_s(),
        !(x.negative_s() && x.k() <= -31),
        x.k() >= 31 ==> negate_spec(x).normal_s(),
    ensures
        ({
            let r = frac_spec(x);
            r.zero_s() || (r.normal_s() && 0 < r.ival() < unit())
        }),
{
    let f = floor_spec(x);
    let u = unit();
    law_floor_is_greatest_integer_below(x);
    crate::basic::lemma_normal_sign(x);
    lemma_binade_bounds(x, 0, 0);
    lemma_pow2_pos(158);
    if x.k() >= 31 {
        law_integers_are_fixed(x);
        law_add_negation_is_zero(x);
    } else if f.zero_s() {
        assert(frac_spec(x) == x);
        lemma_pow2_pos((x.k() + 158) as nat);
    } else if f.ival() == x.ival() {
        lemma_ival_injective(f, x);
        lemma_nonzero_multiple(f.ival(), u);
        lemma_binade_bounds(x, 158, 0);
        lemma_negate_normal(x);
        law_add_negation_is_zero(x);
    } else {
        lemma_frac_general(x);
    }
}

proof fn lemma_frac_general(x: Scalar)
    requires
        x.normal_s(),
        !(x.negative_s() && x.k() <= -31),
        x.k() < 31,
        floor_spec(x).normal_s(),
        floor_spec(x).ival() <= x.ival() < floor_spec(x).ival() + unit(),
        floor_spec(x).ival() % unit() == 0,
        floor_spec(x).ival() != x.ival(),
    ensures
        ({
            let r = frac_spec(x);
            r.normal_s() && 0 < r.ival() < unit()
        }),
{
    let f = floor_spec(x);
    let u = unit();
    lemma_pow2_pos(158);
    crate::basic::lemma_normal_sign(x);
    crate::basic::lemma_normal_sign(f);
    lemma_binade_bounds(x, 0, 0);
    lemma_binade_bounds(f, 0, 0);
    assert(f.ival() != 0);
    lemma_nonzero_multiple(f.ival(), u);
    lemma_pow2_unfold(159);
    lemma_pow2_unfold(190);
    crate::bits::lemma_pow2_le((x.k() + 159) as nat, 189);
    crate::bits::lemma_pow2_le(158, 189);
    assert(abs_i(f.ival()) < abs_i(x.ival()) + u);
    assert(u <= abs_i(f.ival()));
    lemma_binade_bounds(f, 158, 190);
    assert(-1 <= f.k() <= 31);
    lemma_negate_normal(f);
    let b = negate_spec(f);
    assert(b.normal_s());
    assert(b.ival() == -f.ival());
    crate::basic::lemma_normal_sign(b);
    lemma_binade_bounds(b, 158, 0);
    if x.positive_s() {
        lemma_binade_bounds(x, 158, 0);
        lemma_binade_bounds(b, 0, (x.k() + 159) as nat);
        if x.k() >= 1 {
            lemma_pow2_unfold((x.k() + 158) as nat);
            crate::bits::lemma_pow2_le(158, (x.k() + 157) as nat);
            lemma_binade_bounds(b, (x.k() + 157) as nat, 0);
        }
        assert(x.k() - 1 <= b.k() <= x.k());
    } else {
        lemma_binade_bounds(b, (x.k() + 158) as nat, 0);
        if x.k() >= 0 {
            lemma_pow2_unfold((x.k() + 159) as nat);
            crate::bits::lemma_pow2_le(158, (x.k() + 158) as nat);
            lemma_pow2_unfold((x.k() + 160) as nat);
            lemma_binade_bounds(b, 0, (x.k() + 160) as nat);
            assert(x.k() <= b.k() <= x.k() + 1);
        } else {
            crate::bits::lemma_pow2_le((x.k() + 159) as nat, 158);
            lemma_binade_bounds(b, 0, 159);
            assert(b.k() == 0);
        }
    }
    let s = x.ival() + b.ival();
    assert(0 < s < u);
    assert(frac_spec(x) == add_spec(x, b));
    // The sum is exact up to the alignment of the smaller operand.
    let big = if x.k() > b.k() {
        x
    } else {
        b
    };
    let small = if x.k() > b.k() {
        b
    } else {
        x
    };
    let sft = (big.k() - small.k()) as nat;
    let xx = big.w() * pow2(sft) + small.w();
    let t = small.k() - 31;
    let e = (small.k() + 127) as nat;
    assert(sft <= 30);
    assert(add_spec(x, b) == pack_spec(xx, t));
    lemma_pow2_adds(sft, e);
    assert((sft + e) as nat == (big.k() + 127) as nat);
    assert(xx * pow2(e) == big.w() * pow2((big.k() + 127) as nat) + small.w() * pow2(e))
        by (nonlinear_arith)
        requires
            xx == big.w() * pow2(sft) + small.w(),
            pow2((big.k() + 127) as nat) == pow2(sft) * pow2(e),
    ;
    assert(xx * pow2(e) == s);
    lemma_pow2_pos(e);
    assert(xx != 0 && pow2(e) <= s) by (nonlinear_arith)
        requires
            s == xx * pow2(e),
            s > 0,
            pow2(e) > 0,
    ;
    crate::bits::lemma_pow2_le(158, 165);
    lemma_pack_in_range(xx, t, s, e, 165);
    lemma_add_rounds_down_near(x, b);
    let r = add_spec(x, b);
    let ul = r.ulp();
    lemma_pow2_pos((r.k() + 127) as nat);
    crate::basic::lemma_normal_sign(r);
    assert(r.w() > 0 && r.ival() > 0) by (nonlinear_arith)
        requires
            r.ival() == r.w() * ul,
            r.ival() <= s < r.ival() + ul,
            s > 0,
            ul > 0,
            r.w() != 0,
    ;
}

/// Zero is the identity of addition for every value that is not
/// transfinite (an exploded value or infinity plus anything finite is
/// undefined).
pub proof fn law_zero_adds_nothing(x: Scalar)
    requires
        !x.exploded_s(),
        !x.infinite_s(),
    ensures
        add_spec(x, sc(0i32, 0i8)) == x,
        add_spec(sc(0i32, 0i8), x) == x,
{
}

/// Multiplication by zero gives zero for every value but infinity (whose
/// product with zero is undefined) and undefined states (which propagate).
pub proof fn law_zero_absorbs_multiplication(x: Scalar)
    requires
        !x.infinite_s(),
        !x.undefined_s(),
    ensures
        mul_spec(x, sc(0i32, 0i8)) == sc(0i32, 0i8),
        mul_spec(sc(0i32, 0i8), x) == sc(0i32, 0i8),
{
}

/// The bitwise identities: all ones (infinity) is the identity of AND and
/// zero its annihilator; zero is the identity of OR and XOR; all ones
/// absorbs OR, and XOR with all ones is NOT. Undefined states propagate.
pub proof fn law_bitwise_identities(x: Scalar)
    ensures
        and_spec(sc(-1i32, 0i8), x) == x,
        and_spec(x, sc(-1i32, 0i8)) == x,
        or_spec(sc(0i32, 0i8), x) == x,
        or_spec(x, sc(0i32, 0i8)) == x,
        xor_spec(sc(0i32, 0i8), x) == x,
        xor_spec(x, sc(0i32, 0i8)) == x,
        xor_spec(sc(-1i32, 0i8), x) == not_spec(x),
        xor_spec(x, sc(-1i32, 0i8)) == not_spec(x),
        !x.undefined_s() ==> and_spec(sc(0i32, 0i8), x) == sc(0i32, 0i8),
        !x.undefined_s() ==> and_spec(x, sc(0i32, 0i8)) == sc(0i32, 0i8),
        !x.undefined_s() ==> or_spec(sc(-1i32, 0i8), x) == sc(-1i32, 0i8),
        !x.undefined_s() ==> or_spec(x, sc(-1i32, 0i8)) == sc(-1i32, 0i8),
{
    crate::basic::lemma_classes(x);
}

/// Adding a Scalar and a Circle gives the same result in either order,
/// except where the result is undefined and its cause names the operand
/// order: both operands undefined (unless the Circle holds the Scalar's
/// state), or one transfinite beside a finite one.
pub proof fn law_mixed_add_commutes(s: Scalar, c: Circle)
    requires
        canonical(s),
        cvalid(c),
        !(s.undefined_s() && c.undefined_c() && c != undefined_into(s)),
        !(strans(s) != ctrans(c) && !s.undefined_s() && !c.undefined_c()),
    ensures
        sc_add_spec(s, c) == cs_add_spec(c, s),
{
    crate::basic::lemma_classes(s);
}

/// Multiplying a Scalar and a Circle gives the same result in either order,
/// except where the result is undefined and its cause names the operand
/// order: both operands undefined (unless the Circle holds the Scalar's
/// state), infinity times zero, or an exploded
/// operand times a vanished one.
pub proof fn law_mixed_mul_commutes(s: Scalar, c: Circle)
    requires
        canonical(s),
        cvalid(c),
        !(s.undefined_s() && c.undefined_c() && c != undefined_into(s)),
        !(s.infinite_s() && c.zero_c()),
        !(s.zero_s() && c.infinite_c()),
        !(s.exploded_s() && c.n2_c()),
        !(s.vanished_s() && c.exploded_c()),
    ensures
        sc_mul_spec(s, c) == cs_mul_spec(c, s),
{
    crate::basic::lemma_classes(s);
}

/// Zero is the identity of Circle addition for every Circle in a canonical
/// state (exploded Circles included).
pub proof fn law_circle_zero_adds_nothing(c: Circle)
    requires
        cvalid(c),
    ensures
        cadd_spec(c, cc(0i32, 0i32, 0i8)) == c,
        cadd_spec(cc(0i32, 0i32, 0i8), c) == c,
{
    lemma_canonical_not_small(c);
}


/// Multiplying a Circle in a canonical state by zero gives zero, but for
/// infinity (whose product with zero is undefined) and undefined states
/// (which propagate).
pub proof fn law_circle_zero_absorbs_multiplication(c: Circle)
    requires
        cvalid(c),
        !c.infinite_c(),
        !c.undefined_c(),
    ensures
        cmul_spec(c, cc(0i32, 0i32, 0i8)) == cc(0i32, 0i32, 0i8),
        cmul_spec(cc(0i32, 0i32, 0i8), c) == cc(0i32, 0i32, 0i8),
{
    lemma_canonical_not_small(c);
}

/// Lifting a non-zero fraction pair to full width multiplies both by the
/// same power of two, keeps them in the fraction range and leaves the wider
/// one at 31 significant bits (so its square is at least `2^60`).
proof fn lemma_lift(p: int, q: int)
    requires
        -0x8000_0000 <= p < 0x8000_0000,
        -0x8000_0000 <= q < 0x8000_0000,
        p != 0 || q != 0,
    ensures
        0 <= msb(p, q) <= 31,
        lifted(p, q, p) == p * pow2((31 - msb(p, q)) as nat),
        lifted(p, q, q) == q * pow2((31 - msb(p, q)) as nat),
        -0x8000_0000 <= lifted(p, q, p) < 0x8000_0000,
        -0x8000_0000 <= lifted(p, q, q) < 0x8000_0000,
        lifted(p, q, p) * lifted(p, q, p) + lifted(p, q, q) * lifted(p, q, q) >= 0x1000_0000_0000_0000,
        lifted(p, q, p) >= 0x4000_0000 || lifted(p, q, p) < -0x4000_0000 || lifted(p, q, q)
            >= 0x4000_0000 || lifted(p, q, q) < -0x4000_0000,
{
    crate::scalar::lemma_pow2_30_32();
    crate::bits::lemma_sbits_le(p, 31);
    crate::bits::lemma_sbits_le(q, 31);
    let m = msb(p, q);
    let j = (31 - m) as nat;
    let l = pow2(j) as int;
    lemma_pow2_pos(j);
    assert(pow2(0) == 1) by {
        lemma2_to64();
    }
    crate::bits::lemma_scale_fits(p, m as nat, 31);
    crate::bits::lemma_scale_fits(q, m as nat, 31);
    let lp = lifted(p, q, p);
    let lq = lifted(p, q, q);
    if m == 31 {
        assert(p / 1 == p && q / 1 == q);
        assert(l == 1);
        assert(lp == p);
        assert(lq == q);
        assert(p * l == p && q * l == q) by (nonlinear_arith)
            requires
                l == 1,
        ;
    } else {
        assert((-(m - 31)) as nat == j);
        assert(lp == p * pow2(j) as int);
        assert(lq == q * pow2(j) as int);
    }
    assert(lp == p * l);
    assert(lq == q * l);
    let w = if sbits(p) >= sbits(q) {
        p
    } else {
        q
    };
    let v = if sbits(p) >= sbits(q) {
        q
    } else {
        p
    };
    let lw = w * l;
    let lv = v * l;
    assert(sbits(-1) == 0 && sbits(0) == 0) by {
        reveal_with_fuel(crate::bits::nb, 2);
    }
    if w != 0 && w != -1 {
        crate::bits::lemma_sbits_shift(w, j);
        assert(sbits(lw) == 31);
        crate::bits::lemma_sbits_band(lw);
        assert(lw * lw >= 0x1000_0000_0000_0000) by (nonlinear_arith)
            requires
                (0x4000_0000 <= lw) || (lw < -0x4000_0000),
        ;
    } else if w == -1 {
        assert(m == 0);
        assert(l == 0x8000_0000);
        assert(lw == -0x8000_0000) by (nonlinear_arith)
            requires
                w == -1,
                l == 0x8000_0000,
                lw == w * l,
        ;
        assert(lw * lw >= 0x1000_0000_0000_0000) by (nonlinear_arith)
            requires
                lw == -0x8000_0000,
        ;
    } else {
        assert(m == 0);
        assert(v == -1);
        assert(l == 0x8000_0000);
        assert(lv == -0x8000_0000) by (nonlinear_arith)
            requires
                v == -1,
                l == 0x8000_0000,
                lv == v * l,
        ;
        assert(lv * lv >= 0x1000_0000_0000_0000) by (nonlinear_arith)
            requires
                lv == -0x8000_0000,
        ;
    }
    assert(lw * lw >= 0 && lv * lv >= 0) by (nonlinear_arith);
}

/// Floor division by a positive divisor brackets the dividend.
proof fn lemma_floor_bounds(x: int, d: int)
    requires
        d > 0,
    ensures
        fdiv(x, d) * d <= x < (fdiv(x, d) + 1) * d,
{
    vstd::arithmetic::div_mod::lemma_fundamental_div_mod(x, d);
    vstd::arithmetic::div_mod::lemma_mod_bound(x, d);
    let a = x / d;
    assert(a * d <= x < (a + 1) * d) by (nonlinear_arith)
        requires
            x == d * a + x % d,
            0 <= x % d < d,
    ;
}

/// Quotients of two numerators whose squares sum to `dx * d` (`dx` at least
/// `2^60`, `d` at most `2^63`) by `d`, scaled by `2^33`, cannot both be
/// narrower than 31 significant bits.
proof fn lemma_quot_wide(p: int, q: int, d: int, dx: int)
    requires
        0 < d <= 0x8000_0000_0000_0000,
        dx >= 0x1000_0000_0000_0000,
        p * p + q * q == dx * d,
    ensures
        sbits(fdiv(p * 0x2_0000_0000, d)) >= 31 || sbits(fdiv(q * 0x2_0000_0000, d)) >= 31,
{
    let a = fdiv(p * 0x2_0000_0000, d);
    let b = fdiv(q * 0x2_0000_0000, d);
    if sbits(a) <= 30 && sbits(b) <= 30 {
        crate::scalar::lemma_pow2_30_32();
        crate::bits::lemma_sbits_range(a, 30);
        crate::bits::lemma_sbits_range(b, 30);
        vstd::arithmetic::div_mod::lemma_fundamental_div_mod(p * 0x2_0000_0000, d);
        vstd::arithmetic::div_mod::lemma_mod_bound(p * 0x2_0000_0000, d);
        vstd::arithmetic::div_mod::lemma_fundamental_div_mod(q * 0x2_0000_0000, d);
        vstd::arithmetic::div_mod::lemma_mod_bound(q * 0x2_0000_0000, d);
        lemma_floor_bounds(p * 0x2_0000_0000, d);
        lemma_floor_bounds(q * 0x2_0000_0000, d);
        assert(-d <= 8 * p <= d) by (nonlinear_arith)
            requires
                a * d <= p * 0x2_0000_0000 < (a + 1) * d,
                -0x4000_0000 <= a < 0x4000_0000,
                d > 0,
        ;
        assert(-d <= 8 * q <= d) by (nonlinear_arith)
            requires
                b * d <= q * 0x2_0000_0000 < (b + 1) * d,
                -0x4000_0000 <= b < 0x4000_0000,
                d > 0,
        ;
        assert(64 * (p * p) <= d * d) by (nonlinear_arith)
            requires
                -d <= 8 * p <= d,
        ;
        assert(64 * (q * q) <= d * d) by (nonlinear_arith)
            requires
                -d <= 8 * q <= d,
        ;
        assert(false) by (nonlinear_arith)
            requires
                64 * (p * p) <= d * d,
                64 * (q * q) <= d * d,
                p * p + q * q == dx * d,
                dx >= 0x1000_0000_0000_0000,
                0 < d <= 0x8000_0000_0000_0000,
        ;
    }
}

/// One part of a Circle quotient: the floor of the lifted quotient, then
/// rounded down by packing, bounds the exact part.
proof fn lemma_div_part(
    p0: int,
    d0: int,
    lx: int,
    ly: int,
    aa: int,
    bb: int,
    q: int,
    f: int,
    ul: int,
    pc: int,
    g: int,
)
    requires
        d0 > 0,
        lx > 0,
        ly > 0,
        aa > 0,
        bb > 0,
        pc > 0,
        g > 0,
        q * (d0 * ly * ly) <= (p0 * lx * ly) * 0x2_0000_0000 < (q + 1) * (d0 * ly * ly),
        f * pc <= q * g,
        (q + 1) * g <= (f + ul) * pc,
        lx * 0x2_0000_0000 * g * bb == pc * ly * aa * unit(),
    ensures
        f * (d0 * bb * bb) <= (p0 * aa * bb) * unit() < (f + ul) * (d0 * bb * bb),
{
    let e = 0x2_0000_0000int;
    let n = p0 * lx * e;
    let dl = d0 * ly;
    assert((p0 * lx * ly) * e == n * ly) by (nonlinear_arith)
        requires
            n == p0 * lx * e,
    ;
    assert(q * (d0 * ly * ly) == (q * dl) * ly) by (nonlinear_arith)
        requires
            dl == d0 * ly,
    ;
    assert((q + 1) * (d0 * ly * ly) == ((q + 1) * dl) * ly) by (nonlinear_arith)
        requires
            dl == d0 * ly,
    ;
    lemma_cancel_le(q * dl, n, ly);
    lemma_cancel_lt(n, (q + 1) * dl, ly);
    assert(q * dl <= n < (q + 1) * dl);
    // Scale by the quotient step and compare with the packed part.
    lemma_mul_le(q * dl, n, g);
    lemma_mul_lt(n, (q + 1) * dl, g);
    assert((q * dl) * g == (q * g) * dl) by (nonlinear_arith);
    assert(((q + 1) * dl) * g == ((q + 1) * g) * dl) by (nonlinear_arith);
    lemma_mul_le(f * pc, q * g, dl);
    lemma_mul_le((q + 1) * g, (f + ul) * pc, dl);
    assert((f * pc) * dl <= n * g < ((f + ul) * pc) * dl);
    // Multiply by `bb` and rewrite the powers.
    let kk = pc * ly;
    let uu = unit();
    let lhs = lx * e * g * bb;
    assert(n * g * bb == p0 * lhs) by (nonlinear_arith)
        requires
            n == p0 * lx * e,
            lhs == lx * e * g * bb,
    ;
    assert(lhs == pc * ly * aa * uu);
    assert(p0 * (pc * ly * aa * uu) == (p0 * aa * uu) * kk) by (nonlinear_arith)
        requires
            kk == pc * ly,
    ;
    assert(n * g * bb == (p0 * aa * unit()) * kk);
    lemma_mul_le((f * pc) * dl, n * g, bb);
    lemma_mul_lt(n * g, ((f + ul) * pc) * dl, bb);
    assert((f * pc) * dl * bb == (f * d0 * bb) * kk) by (nonlinear_arith)
        requires
            dl == d0 * ly,
            kk == pc * ly,
    ;
    assert(((f + ul) * pc) * dl * bb == ((f + ul) * d0 * bb) * kk) by (nonlinear_arith)
        requires
            dl == d0 * ly,
            kk == pc * ly,
    ;
    assert(kk > 0) by (nonlinear_arith)
        requires
            kk == pc * ly,
            pc > 0,
            ly > 0,
    ;
    lemma_cancel_le(f * d0 * bb, p0 * aa * unit(), kk);
    lemma_cancel_lt(p0 * aa * unit(), (f + ul) * d0 * bb, kk);
    lemma_mul_le(f * d0 * bb, p0 * aa * unit(), bb);
    lemma_mul_lt(p0 * aa * unit(), (f + ul) * d0 * bb, bb);
    assert((f * d0 * bb) * bb == f * (d0 * bb * bb)) by (nonlinear_arith);
    assert(((f + ul) * d0 * bb) * bb == (f + ul) * (d0 * bb * bb)) by (nonlinear_arith);
    assert((p0 * aa * unit()) * bb == (p0 * aa * bb) * unit()) by (nonlinear_arith);
}

proof fn lemma_mul_le(x: int, y: int, k: int)
    requires
        x <= y,
        k > 0,
    ensures
        x * k <= y * k,
{
    assert(x * k <= y * k) by (nonlinear_arith)
        requires
            x <= y,
            k > 0,
    ;
}

proof fn lemma_mul_lt(x: int, y: int, k: int)
    requires
        x < y,
        k > 0,
    ensures
        x * k < y * k,
{
    assert(x * k < y * k) by (nonlinear_arith)
        requires
            x < y,
            k > 0,
    ;
}

proof fn lemma_cancel_le(x: int, y: int, k: int)
    requires
        x * k <= y * k,
        k > 0,
    ensures
        x <= y,
{
    if x > y {
        lemma_mul_lt(y, x, k);
    }
}

proof fn lemma_cancel_lt(x: int, y: int, k: int)
    requires
        x * k < y * k,
        k > 0,
    ensures
        x < y,
{
    if x >= y {
        if x > y {
            lemma_mul_lt(y, x, k);
        }
    }
}

/// The sum of the squares of the parts of `(a + ib)(c - id)` is the product
/// of the squared magnitudes.
proof fn lemma_sum_squares(a: int, b: int, c: int, d: int)
    ensures
        (a * c + b * d) * (a * c + b * d) + (b * c - a * d) * (b * c - a * d) == (a * a + b * b)
            * (c * c + d * d),
{
    let s1 = a * c;
    let s2 = b * d;
    let s3 = b * c;
    let s4 = a * d;
    assert(s1 * s2 == s3 * s4) by (nonlinear_arith)
        requires
            s1 == a * c,
            s2 == b * d,
            s3 == b * c,
            s4 == a * d,
    ;
    assert((s1 + s2) * (s1 + s2) == s1 * s1 + 2 * (s1 * s2) + s2 * s2) by (nonlinear_arith);
    assert((s3 - s4) * (s3 - s4) == s3 * s3 - 2 * (s3 * s4) + s4 * s4) by (nonlinear_arith);
    assert(s1 * s1 + s4 * s4 == (a * a) * (c * c + d * d)) by (nonlinear_arith)
        requires
            s1 == a * c,
            s4 == a * d,
    ;
    assert(s2 * s2 + s3 * s3 == (b * b) * (c * c + d * d)) by (nonlinear_arith)
        requires
            s2 == b * d,
            s3 == b * c,
    ;
    assert((a * a) * (c * c + d * d) + (b * b) * (c * c + d * d) == (a * a + b * b) * (c * c + d
        * d)) by (nonlinear_arith);
}

/// Circle division rounds each part of the exact quotient toward negative
/// infinity at the result's precision. With the operands' parts in units of
/// `2^-158`, the exact quotient is `(ar br + ai bi) / d + i (ai br - ar bi) / d`
/// with `d = br^2 + bi^2`.
pub proof fn law_circle_div_rounds_down(a: Circle, b: Circle)
    requires
        a.normal_c(),
        b.normal_c(),
        cdiv_spec(a, b).normal_c(),
    ensures
        ({
            let r = cdiv_spec(a, b);
            let u = pow2((r.k() + 128) as nat) as int;
            let ar = cunits(a, a.real as int);
            let ai = cunits(a, a.imaginary as int);
            let br = cunits(b, b.real as int);
            let bi = cunits(b, b.imaginary as int);
            let d = br * br + bi * bi;
            &&& cunits(r, r.real as int) * d <= (ar * br + ai * bi) * unit() < (cunits(
                r,
                r.real as int,
            ) + u) * d
            &&& cunits(r, r.imaginary as int) * d <= (ai * br - ar * bi) * unit() < (cunits(
                r,
                r.imaginary as int,
            ) + u) * d
        }),
{
    lemma_div_rounds_down_parts(a, b);
}

proof fn lemma_pow2_4(e1: nat, e2: nat, e3: nat, e4: nat)
    ensures
        pow2(e1) * pow2(e2) * pow2(e3) * pow2(e4) == pow2(e1 + e2 + e3 + e4),
{
    lemma_pow2_adds(e1, e2);
    lemma_pow2_adds(e1 + e2, e3);
    lemma_pow2_adds(e1 + e2 + e3, e4);
}

/// A packed part `f` (step `ul`) of a quotient `q` (step `g`, scaled by
/// `pc`), where the packing step is `h` quotient steps: the next quotient
/// step does not pass the next packed step.
proof fn lemma_pack_step(f: int, q: int, ul: int, pc: int, h: int, g: int)
    requires
        g > 0,
        ul * pc == h * g,
        q * g < (f * ul + ul) * pc,
    ensures
        (q + 1) * g <= (f * ul + ul) * pc,
{
    assert((f * ul + ul) * pc == ((f + 1) * h) * g) by (nonlinear_arith)
        requires
            ul * pc == h * g,
    ;
    assert(q < (f + 1) * h) by (nonlinear_arith)
        requires
            q * g < ((f + 1) * h) * g,
            g > 0,
    ;
    assert((q + 1) * g <= ((f + 1) * h) * g) by (nonlinear_arith)
        requires
            q + 1 <= (f + 1) * h,
            g > 0,
    ;
}

/// Scaling both pairs scales the products of a Circle quotient's
/// numerator and denominator.
proof fn lemma_scaled_pair(x0: int, x1: int, y0: int, y1: int, lx: int, ly: int)
    ensures
        (x0 * lx) * (y0 * ly) + (x1 * lx) * (y1 * ly) == (x0 * y0 + x1 * y1) * lx * ly,
        (x1 * lx) * (y0 * ly) - (x0 * lx) * (y1 * ly) == (x1 * y0 - x0 * y1) * lx * ly,
        (y0 * ly) * (y0 * ly) + (y1 * ly) * (y1 * ly) == (y0 * y0 + y1 * y1) * ly * ly,
{
    assert((x0 * lx) * (y0 * ly) == (x0 * y0) * (lx * ly)) by (nonlinear_arith);
    assert((x1 * lx) * (y1 * ly) == (x1 * y1) * (lx * ly)) by (nonlinear_arith);
    assert((x1 * lx) * (y0 * ly) == (x1 * y0) * (lx * ly)) by (nonlinear_arith);
    assert((x0 * lx) * (y1 * ly) == (x0 * y1) * (lx * ly)) by (nonlinear_arith);
    assert((y0 * ly) * (y0 * ly) == (y0 * y0) * (ly * ly)) by (nonlinear_arith);
    assert((y1 * ly) * (y1 * ly) == (y1 * y1) * (ly * ly)) by (nonlinear_arith);
    assert((x0 * y0) * (lx * ly) + (x1 * y1) * (lx * ly) == (x0 * y0 + x1 * y1) * lx * ly)
        by (nonlinear_arith);
    assert((x1 * y0) * (lx * ly) - (x0 * y1) * (lx * ly) == (x1 * y0 - x0 * y1) * lx * ly)
        by (nonlinear_arith);
    assert((y0 * y0) * (ly * ly) + (y1 * y1) * (ly * ly) == (y0 * y0 + y1 * y1) * ly * ly)
        by (nonlinear_arith);
}

proof fn lemma_div_rounds_down_parts(a: Circle, b: Circle)
    requires
        a.normal_c(),
        b.normal_c(),
        cdiv_spec(a, b).normal_c(),
    ensures
        ({
            let r = cdiv_spec(a, b);
            let u = pow2((r.k() + 128) as nat) as int;
            let ar = cunits(a, a.real as int);
            let ai = cunits(a, a.imaginary as int);
            let br = cunits(b, b.real as int);
            let bi = cunits(b, b.imaginary as int);
            let d = br * br + bi * bi;
            &&& cunits(r, r.real as int) * d <= (ar * br + ai * bi) * unit() < (cunits(
                r,
                r.real as int,
            ) + u) * d
            &&& cunits(r, r.imaginary as int) * d <= (ai * br - ar * bi) * unit() < (cunits(
                r,
                r.imaginary as int,
            ) + u) * d
        }),
{
    let r = cdiv_spec(a, b);
    let x0 = a.real as int;
    let x1 = a.imaginary as int;
    let y0 = b.real as int;
    let y1 = b.imaginary as int;
    let mx = msb(x0, x1);
    let my = msb(y0, y1);
    let xr = lifted(x0, x1, x0);
    let xi = lifted(x0, x1, x1);
    let yr = lifted(y0, y1, y0);
    let yi = lifted(y0, y1, y1);
    lemma2_to64();
    assert(forall|j: int| #[trigger] crate::bits::scale(0, j) == 0) by {
        assert forall|j: int| #[trigger] crate::bits::scale(0, j) == 0 by {
            if j >= 0 {
                lemma_pow2_pos(j as nat);
            }
        }
    }
    assert(y0 != 0 || y1 != 0);
    lemma_lift(y0, y1);
    let dd = yr * yr + yi * yi;
    assert(dd > 0) by (nonlinear_arith)
        requires
            dd == yr * yr + yi * yi,
            dd >= 0x1000_0000_0000_0000,
    ;
    let pp = xr * yr + xi * yi;
    let qq = xi * yr - xr * yi;
    let qr = dq_re(xr, xi, yr, yi);
    let qi = dq_im(xr, xi, yr, yi);
    lemma2_to64_rest();
    assert(pow2(33) == 0x2_0000_0000);
    assert(qr == fdiv(pp * 0x2_0000_0000, dd));
    assert(qi == fdiv(qq * 0x2_0000_0000, dd));
    let t = a.k() - b.k() - 33 + mx - my;
    assert(r == cpack_spec(qr, qi, t));
    assert(x0 != 0 || x1 != 0) by {
        if x0 == 0 && x1 == 0 {
            assert(xr == 0 && xi == 0);
            assert(pp == 0 && qq == 0) by (nonlinear_arith)
                requires
                    xr == 0,
                    xi == 0,
                    pp == xr * yr + xi * yi,
                    qq == xi * yr - xr * yi,
            ;
            assert(qr == 0 && qi == 0);
        }
    }
    lemma_lift(x0, x1);
    let dx = xr * xr + xi * xi;
    lemma_sum_squares(xr, xi, yr, yi);
    assert(dd <= 0x8000_0000_0000_0000) by (nonlinear_arith)
        requires
            dd == yr * yr + yi * yi,
            -0x8000_0000 <= yr < 0x8000_0000,
            -0x8000_0000 <= yi < 0x8000_0000,
    ;
    lemma_quot_wide(pp, qq, dd, dx);
    let m = if sbits(qr) >= sbits(qi) {
        sbits(qr)
    } else {
        sbits(qi)
    };
    assert(m >= 31);
    let k = t + m - 1;
    assert(!(qr == 0 && qi == 0)) by {
        if qr == 0 && qi == 0 {
            assert(sbits(0) == 0) by {
                reveal_with_fuel(crate::bits::nb, 2);
            }
        }
    }
    assert(-127 <= k <= 127);
    crate::scalar::lemma_stored_exp(k);
    assert(r.k() == k);
    let c: nat = 400;
    lemma_cpack_component(qr, qi, t, qr, c);
    lemma_cpack_component(qr, qi, t, qi, c);
    let pc = pow2(c) as int;
    let ge = (t + 158 + c) as nat;
    let g = pow2(ge) as int;
    let ue = (r.k() + 128) as nat;
    let ul = pow2(ue) as int;
    let he = (m - 31) as nat;
    let h = pow2(he) as int;
    lemma_pow2_pos(c);
    lemma_pow2_pos(ge);
    lemma_pow2_pos(ue);
    lemma_pow2_pos(he);
    lemma_pow2_adds(ue, c);
    lemma_pow2_adds(he, ge);
    assert(ue + c == he + ge);
    assert(ul * pc == h * g);
    // The lifted quotients floor the lifted ratios.
    vstd::arithmetic::div_mod::lemma_fundamental_div_mod(pp * 0x2_0000_0000, dd);
    vstd::arithmetic::div_mod::lemma_mod_bound(pp * 0x2_0000_0000, dd);
    vstd::arithmetic::div_mod::lemma_fundamental_div_mod(qq * 0x2_0000_0000, dd);
    vstd::arithmetic::div_mod::lemma_mod_bound(qq * 0x2_0000_0000, dd);
    assert(qr * dd <= pp * 0x2_0000_0000 < (qr + 1) * dd) by (nonlinear_arith)
        requires
            pp * 0x2_0000_0000 == dd * qr + (pp * 0x2_0000_0000) % dd,
            0 <= (pp * 0x2_0000_0000) % dd < dd,
    ;
    assert(qi * dd <= qq * 0x2_0000_0000 < (qi + 1) * dd) by (nonlinear_arith)
        requires
            qq * 0x2_0000_0000 == dd * qi + (qq * 0x2_0000_0000) % dd,
            0 <= (qq * 0x2_0000_0000) % dd < dd,
    ;
    // Everything in terms of the unlifted fractions.
    let lx = pow2((31 - mx) as nat) as int;
    let ly = pow2((31 - my) as nat) as int;
    lemma_pow2_pos((31 - mx) as nat);
    lemma_pow2_pos((31 - my) as nat);
    let d0 = y0 * y0 + y1 * y1;
    let pr = x0 * y0 + x1 * y1;
    let pi = x1 * y0 - x0 * y1;
    lemma_scaled_pair(x0, x1, y0, y1, lx, ly);
    assert(d0 > 0) by (nonlinear_arith)
        requires
            dd == d0 * ly * ly,
            dd > 0,
            d0 == y0 * y0 + y1 * y1,
    ;
    let ae = (a.k() + 128) as nat;
    let be = (b.k() + 128) as nat;
    let aa = pow2(ae) as int;
    let bb = pow2(be) as int;
    lemma_pow2_pos(ae);
    lemma_pow2_pos(be);
    lemma_pow2_4((31 - mx) as nat, 33, ge, be);
    lemma_pow2_4(c, (31 - my) as nat, ae, 158);
    assert(((31 - mx) as nat + 33 + ge + be) as nat == (c + (31 - my) as nat + ae + 158) as nat);
    assert(lx * 0x2_0000_0000 * g * bb == pc * ly * aa * unit());
    let fr = r.real as int;
    let fi = r.imaginary as int;
    assert(cunits(r, fr) == fr * ul);
    assert(cunits(r, fi) == fi * ul);
    lemma_pack_step(fr, qr, ul, pc, h, g);
    lemma_pack_step(fi, qi, ul, pc, h, g);
    lemma_div_part(pr, d0, lx, ly, aa, bb, qr, fr * ul, ul, pc, g);
    lemma_div_part(pi, d0, lx, ly, aa, bb, qi, fi * ul, ul, pc, g);
    let ar = cunits(a, x0);
    let ai = cunits(a, x1);
    let br = cunits(b, y0);
    let bi = cunits(b, y1);
    lemma_scaled_pair(x0, x1, y0, y1, aa, bb);
}

/// An undefined state propagates through every operation unchanged, so the
/// first undefined operand names the cause of the result.
pub proof fn law_undefined_propagates(a: Scalar, b: Scalar)
    ensures
        a.undefined_s() ==> {
            &&& add_spec(a, b) == a
            &&& mul_spec(a, b) == a
            &&& div_spec(a, b) == a
            &&& mod_spec(a, b) == a
            &&& and_spec(a, b) == a
            &&& or_spec(a, b) == a
            &&& xor_spec(a, b) == a
            &&& negate_spec(a) == a
            &&& floor_spec(a) == a
            &&& ceil_spec(a) == a
            &&& round_spec(a) == a
            &&& frac_spec(a) == a
            &&& sqrt_spec(a) == a
        },
        !a.undefined_s() && b.undefined_s() ==> {
            &&& add_spec(a, b) == b
            &&& mul_spec(a, b) == b
            &&& div_spec(a, b) == b
            &&& mod_spec(a, b) == b
            &&& and_spec(a, b) == b
            &&& or_spec(a, b) == b
            &&& xor_spec(a, b) == b
        },
{
    crate::basic::lemma_classes(a);
    crate::basic::lemma_classes(b);
}

/// An undefined Circle propagates through Circle arithmetic unchanged, the
/// first undefined operand naming the cause of the result.
pub proof fn law_circle_undefined_propagates(a: Circle, b: Circle)
    ensures
        a.undefined_c() ==> cadd_spec(a, b) == a && cmul_spec(a, b) == a && cdiv_spec(a, b) == a,
        !a.undefined_c() && b.undefined_c() ==> cadd_spec(a, b) == b && cmul_spec(a, b) == b
            && cdiv_spec(a, b) == b,
{
}

/// Magnitude removes the sign: it is never negative, and for a normal value
/// whose magnitude is normal (all but the most negative value of the top
/// binade) it is the absolute value.
pub proof fn law_magnitude_is_absolute(x: Scalar)
    ensures
        !magnitude_spec(x).negative_s(),
        x.normal_s() && magnitude_spec(x).normal_s() ==> magnitude_spec(x).ival() == abs_i(x.ival()),
{
    if x.normal_s() {
        lemma_negate_normal(x);
        lemma_binade_bounds(x, 0, 0);
        crate::basic::lemma_normal_sign(x);
        let r = negate_spec(x);
        if r.normal_s() {
            crate::basic::lemma_normal_sign(r);
        }
    }
}

/// Ordering is transitive: `a < b` and `b < c` give `a < c`, and the same
/// for `<=`.
pub proof fn law_order_transitive(a: Scalar, b: Scalar, c: Scalar)
    requires
        canonical(a),
        canonical(b),
        canonical(c),
    ensures
        lt_spec(a, b) && lt_spec(b, c) ==> lt_spec(a, c),
        le_spec(a, b) && le_spec(b, c) ==> le_spec(a, c),
{
    crate::basic::lemma_classes(a);
    crate::basic::lemma_classes(b);
    crate::basic::lemma_classes(c);
    if a.normal_s() {
        lemma_binade_bounds(a, 0, 0);
    }
    if b.normal_s() {
        lemma_binade_bounds(b, 0, 0);
    }
    if c.normal_s() {
        lemma_binade_bounds(c, 0, 0);
    }
    if a.normal_s() && c.normal_s() && compare_spec(a, c) == Some(core::cmp::Ordering::Equal) {
        lemma_ival_injective(a, c);
    }
}

/// The value one: significand `2^31` at logical exponent 0.
proof fn lemma_one()
    ensures
        sc(-0x8000_0000i32, -128i8).normal_s(),
        sc(-0x8000_0000i32, -128i8).k() == 0,
        sc(-0x8000_0000i32, -128i8).w() == 0x8000_0000,
        sc(-0x8000_0000i32, -128i8).ival() == unit(),
        sc(-0x8000_0000i32, -128i8).positive_s(),
{
    crate::scalar::lemma_pow2_30_32();
    lemma_pow2_adds(31, 127);
}

/// The ceiling of a normal value is the least integer not below it: zero or
/// a normal integer `c` with `c - 1 < x <= c`.
pub proof fn law_ceil_is_least_integer_above(x: Scalar)
    requires
        x.normal_s(),
    ensures
        ({
            let c = ceil_spec(x);
            let cv = if c.zero_s() {
                0
            } else {
                c.ival()
            };
            &&& c.zero_s() || c.normal_s()
            &&& cv - unit() < x.ival() <= cv
            &&& cv % unit() == 0
        }),
{
    let f = floor_spec(x);
    let u = unit();
    law_floor_is_greatest_integer_below(x);
    lemma_pow2_pos(158);
    lemma_binade_bounds(x, 0, 0);
    lemma_one();
    let one = sc(-0x8000_0000i32, -128i8);
    if f == x {
    } else if f.zero_s() {
        assert(ceil_spec(x) == one);
        vstd::arithmetic::div_mod::lemma_mod_self_0(u);
    } else {
        lemma_ceil_general(x);
    }
}

proof fn lemma_ceil_general(x: Scalar)
    requires
        x.normal_s(),
        floor_spec(x).normal_s(),
        floor_spec(x) != x,
        floor_spec(x).ival() <= x.ival() < floor_spec(x).ival() + unit(),
        floor_spec(x).ival() % unit() == 0,
    ensures
        ({
            let c = ceil_spec(x);
            let cv = if c.zero_s() {
                0
            } else {
                c.ival()
            };
            &&& c.zero_s() || c.normal_s()
            &&& cv - unit() < x.ival() <= cv
            &&& cv % unit() == 0
        }),
{
    let f = floor_spec(x);
    let u = unit();
    let one = sc(-0x8000_0000i32, -128i8);
    lemma_one();
    lemma_pow2_pos(158);
    lemma_binade_bounds(x, 0, 0);
    lemma_binade_bounds(f, 0, 0);
    crate::basic::lemma_normal_sign(x);
    crate::basic::lemma_normal_sign(f);
    if x.k() >= 31 {
        law_integers_are_fixed(x);
    }
    assert(x.k() <= 30);
    if f.ival() == x.ival() {
        lemma_ival_injective(f, x);
    }
    assert(f.ival() < x.ival());
    lemma_nonzero_multiple(f.ival(), u);
    assert(ceil_spec(x) == add_spec(f, one));
    let s = f.ival() + u;
    vstd::arithmetic::div_mod::lemma_mod_add_multiples_vanish(f.ival(), u);
    assert(s % u == 0);
    // The floor lies in binades -1 to 30.
    lemma_binade_bounds(f, 158, 0);
    lemma_pow2_adds(31, 158);
    let top = pow2(189) as int;
    crate::bits::lemma_pow2_le((x.k() + 159) as nat, 189);
    if x.positive_s() {
        assert(f.ival() > 0);
        lemma_binade_bounds(f, 0, 189);
        let j = pow2(31) as int - 1;
        assert(u * j + u == top && u * j == top - u) by (nonlinear_arith)
            requires
                j == pow2(31) - 1,
                top == pow2(31) * u,
        ;
        lemma_multiple_below(f.ival(), u, j);
    } else {
        assert(f.ival() < 0);
        assert(-f.ival() < top + u);
        let j = pow2(31) as int;
        assert(u * j == top) by (nonlinear_arith)
            requires
                j == pow2(31),
                top == pow2(31) * u,
        ;
        vstd::arithmetic::div_mod::lemma_fundamental_div_mod(f.ival(), u);
        let qf = f.ival() / u;
        assert(-f.ival() == (-qf) * u) by (nonlinear_arith)
            requires
                f.ival() == u * qf + f.ival() % u,
                f.ival() % u == 0,
        ;
        vstd::arithmetic::div_mod::lemma_mod_multiples_basic(-qf, u);
        lemma_multiple_below(-f.ival(), u, j);
        lemma_binade_bounds(f, 0, 189);
    }
    assert(-1 <= f.k() <= 30);
    if s == 0 {
        lemma_ceil_minus_one(f);
        assert(ceil_spec(x).zero_s());
    } else {
        lemma_ceil_add_one(f, s);
    }
}

/// A non-negative multiple of `u` below `u * (j + 1)` is at most `u * j`.
proof fn lemma_multiple_below(v: int, u: int, j: int)
    requires
        u > 0,
        v % u == 0,
        0 <= v < u * j + u,
    ensures
        v <= u * j,
{
    vstd::arithmetic::div_mod::lemma_fundamental_div_mod(v, u);
    let q = v / u;
    assert(v == u * q);
    assert(v <= u * j) by (nonlinear_arith)
        requires
            v == u * q,
            v < u * j + u,
            u > 0,
    ;
}

/// Minus one plus one is zero.
proof fn lemma_ceil_minus_one(f: Scalar)
    requires
        f.normal_s(),
        f.ival() == -unit(),
    ensures
        add_spec(f, sc(-0x8000_0000i32, -128i8)).zero_s(),
{
    let one = sc(-0x8000_0000i32, -128i8);
    lemma_one();
    lemma_binade_bounds(f, 158, 158);
    crate::basic::lemma_normal_sign(f);
    assert(f.k() == -1);
    let xx = one.w() * 2 + f.w();
    let e = (f.k() + 127) as nat;
    lemma_pow2_adds(1, e);
    assert(pow2(1) == 2) by {
        lemma2_to64();
    }
    assert(add_spec(f, one) == pack_spec(xx, f.k() - 31));
    assert(xx * pow2(e) == one.w() * pow2(127) + f.w() * pow2(e)) by (nonlinear_arith)
        requires
            xx == one.w() * 2 + f.w(),
            pow2(127) == 2 * pow2(e),
    ;
    lemma_pow2_pos(e);
    assert(xx == 0) by (nonlinear_arith)
        requires
            xx * pow2(e) == one.w() * pow2(127) + f.w() * pow2(e),
            one.w() * pow2(127) == unit(),
            f.w() * pow2(e) == -unit(),
            pow2(e) > 0,
    ;
}

/// A normal integer `f` (binade -1 to 30, not minus one) plus one is exact.
proof fn lemma_ceil_add_one(f: Scalar, s: int)
    requires
        f.normal_s(),
        -1 <= f.k() <= 30,
        f.ival() % unit() == 0,
        f.ival() != 0,
        s == f.ival() + unit(),
        s != 0,
        s % unit() == 0,
        f.positive_s() ==> f.ival() <= pow2(189) - unit(),
        f.negative_s() ==> -f.ival() <= pow2(189),
    ensures
        ({
            let r = add_spec(f, sc(-0x8000_0000i32, -128i8));
            r.normal_s() && r.ival() == s
        }),
{
    let one = sc(-0x8000_0000i32, -128i8);
    let u = unit();
    lemma_one();
    lemma_pow2_pos(158);
    crate::basic::lemma_normal_sign(f);
    lemma_binade_bounds(f, 0, 0);
    let big = if f.k() > one.k() {
        f
    } else {
        one
    };
    let small = if f.k() > one.k() {
        one
    } else {
        f
    };
    let sft = (big.k() - small.k()) as nat;
    let xx = big.w() * pow2(sft) + small.w();
    let t = small.k() - 31;
    let e = (small.k() + 127) as nat;
    assert(add_spec(f, one) == pack_spec(xx, t));
    lemma_pow2_adds(sft, e);
    assert((sft + e) as nat == (big.k() + 127) as nat);
    assert(xx * pow2(e) == big.w() * pow2((big.k() + 127) as nat) + small.w() * pow2(e))
        by (nonlinear_arith)
        requires
            xx == big.w() * pow2(sft) + small.w(),
            pow2((big.k() + 127) as nat) == pow2(sft) * pow2(e),
    ;
    assert(xx * pow2(e) == s);
    lemma_pow2_pos(e);
    assert(xx != 0) by {
        if xx == 0 {
            assert(xx * pow2(e) == 0) by (nonlinear_arith)
                requires
                    xx == 0,
            ;
        }
    }
    lemma_nonzero_multiple(s, u);
    lemma_pow2_adds(31, 158);
    lemma_pow2_unfold(190);
    assert(abs_i(s) < pow2(190));
    lemma_pack_in_range(xx, t, s, 158, 190);
    lemma_add_rounds_down_near(f, one);
    let r = add_spec(f, one);
    let ul = r.ulp();
    lemma_pow2_pos((r.k() + 127) as nat);
    crate::basic::lemma_normal_sign(r);
    lemma_binade_bounds(r, 0, 189);
    if s > 0 {
        assert(r.w() >= 0) by (nonlinear_arith)
            requires
                r.ival() == r.w() * ul,
                s < r.ival() + ul,
                s > 0,
                ul > 0,
        ;
        assert(r.positive_s());
        assert(r.ival() <= pow2(189));
        assert(r.k() <= 31);
    } else {
        assert(r.negative_s());
        if r.k() == 32 {
            lemma_pow2_adds(32, 158);
            assert(ul == pow2(159));
            lemma_pow2_unfold(159);
            lemma_binade_bounds(r, 190, 0);
            assert(false);
        }
    }
    assert(r.k() <= 31);
    // Both the sum and the packed value are multiples of the packed step.
    let d = (31 - r.k()) as nat;
    lemma_pow2_adds(d, (r.k() + 127) as nat);
    assert(u == pow2(d) * ul);
    vstd::arithmetic::div_mod::lemma_fundamental_div_mod(s, u);
    let j = s / u;
    assert(s == ul * (pow2(d) * j)) by (nonlinear_arith)
        requires
            s == u * j,
            u == pow2(d) * ul,
    ;
    assert(r.ival() == s) by (nonlinear_arith)
        requires
            s == ul * (pow2(d) * j),
            r.ival() == r.w() * ul,
            r.ival() <= s < r.ival() + ul,
            ul > 0,
    ;
}

/// Rounding gives the nearest integer, ties to the even one: zero or a
/// normal integer `r` with `|x - r| <= 1/2`, and `r` even when `x` lies
/// halfway between two integers.
pub proof fn law_round_is_nearest_integer(x: Scalar)
    requires
        x.normal_s(),
    ensures
        ({
            let r = round_spec(x);
            let rv = if r.zero_s() {
                0
            } else {
                r.ival()
            };
            &&& r.zero_s() || r.normal_s()
            &&& rv % unit() == 0
            &&& 2 * abs_i(x.ival() - rv) <= unit()
            &&& 2 * abs_i(x.ival() - rv) == unit() ==> (rv / unit()) % 2 == 0
        }),
{
    lemma_pow2_pos(158);
    if x.k() >= 31 {
        law_integers_are_fixed(x);
        law_floor_is_greatest_integer_below(x);
    } else {
        lemma_round_below(x);
    }
}

#[verifier::spinoff_prover]
#[verifier::rlimit(30)]
proof fn lemma_round_below(x: Scalar)
    requires
        x.normal_s(),
        x.k() < 31,
    ensures
        ({
            let r = round_spec(x);
            let rv = if r.zero_s() {
                0
            } else {
                r.ival()
            };
            &&& r.zero_s() || r.normal_s()
            &&& rv % unit() == 0
            &&& 2 * abs_i(x.ival() - rv) <= unit()
            &&& 2 * abs_i(x.ival() - rv) == unit() ==> (rv / unit()) % 2 == 0
        }),
{
    let j = frac_bits(x.k());
    let p = pow2(j) as int;
    lemma_pow2_pos(j);
    crate::scalar::lemma_mant(x.fraction);
    crate::scalar::lemma_pow2_30_32();
    let w = x.w();
    let q = w / p;
    let rem = w - q * p;
    vstd::arithmetic::div_mod::lemma_fundamental_div_mod(w, p);
    vstd::arithmetic::div_mod::lemma_mod_bound(w, p);
    assert(0 <= rem < p);
    let rq = round_part(w, j);
    let e = (x.k() + 127) as nat;
    lemma_pow2_adds(j, e);
    assert((j + e) as nat == 158);
    lemma_pow2_pos(e);
    let u = pow2(158) as int;
    let pe = pow2(e) as int;
    assert(x.ival() == w * pe);
    assert(x.ival() == q * u + rem * pe) by (nonlinear_arith)
        requires
            w == q * p + rem,
            u == p * pe,
            x.ival() == w * pe,
    ;
    crate::bits::lemma_pow2_le(1, j);
    lemma2_to64();
    assert(-0x8000_0000 <= q < 0x8000_0000) by (nonlinear_arith)
        requires
            w == p * q + w % p,
            0 <= w % p < p,
            p >= 2,
            -0x1_0000_0000 <= w < 0x1_0000_0000,
    ;
    // The distance to the chosen integer.
    let d = x.ival() - rq * u;
    if 2 * rem < p {
        assert(rq == q);
        assert(d == rem * pe);
        assert(0 <= 2 * (rem * pe) < u) by (nonlinear_arith)
            requires
                0 <= 2 * rem < p,
                u == p * pe,
                pe > 0,
        ;
        assert(abs_i(d) == d);
    } else if 2 * rem > p {
        assert(rq == q + 1);
        assert(d == -((p - rem) * pe)) by (nonlinear_arith)
            requires
                x.ival() == q * u + rem * pe,
                rq == q + 1,
                u == p * pe,
                d == x.ival() - rq * u,
        ;
        assert(0 < 2 * ((p - rem) * pe) < u) by (nonlinear_arith)
            requires
                p < 2 * rem,
                rem < p,
                u == p * pe,
                pe > 0,
        ;
        assert(abs_i(d) == (p - rem) * pe);
    } else {
        assert(rq % 2 == 0);
        assert(rq == q || rq == q + 1);
        assert(d == rem * pe || d == -((p - rem) * pe)) by (nonlinear_arith)
            requires
                x.ival() == q * u + rem * pe,
                rq == q || rq == q + 1,
                u == p * pe,
                d == x.ival() - rq * u,
        ;
        assert(2 * (rem * pe) == u && 2 * ((p - rem) * pe) == u) by (nonlinear_arith)
            requires
                2 * rem == p,
                u == p * pe,
        ;
        assert(rem * pe >= 0 && (p - rem) * pe >= 0) by (nonlinear_arith)
            requires
                0 <= rem,
                2 * rem == p,
                pe > 0,
        ;
        assert(2 * abs_i(d) == u);
    }
    assert(2 * abs_i(d) <= u);
    assert(2 * abs_i(d) == u ==> rq % 2 == 0);
    lemma_pow2_pos(158);
    vstd::arithmetic::div_mod::lemma_mod_multiples_basic(rq, u);
    vstd::arithmetic::div_mod::lemma_div_multiples_vanish(rq, u);
    assert(round_spec(x) == pack_spec(rq, 0));
    if rq != 0 {
        crate::bits::lemma_sbits_le(rq, 32);
        lemma_pack_class(rq, 0);
        lemma_pack_normal_value(rq, 0);
        assert(rq * pow2(158) == rq * u);
    }
}

/// Clamping stays within its bounds: a defined result is neither below the
/// lower bound nor above the upper one, and a value already between the
/// bounds is returned unchanged.
pub proof fn law_clamp_within_bounds(x: Scalar, lo: Scalar, hi: Scalar)
    requires
        canonical(x),
        canonical(lo),
        canonical(hi),
    ensures
        !clamp_spec(x, lo, hi).undefined_s() ==> !lt_spec(clamp_spec(x, lo, hi), lo) && !lt_spec(
            hi,
            clamp_spec(x, lo, hi),
        ),
        le_spec(lo, x) && le_spec(x, hi) ==> clamp_spec(x, lo, hi) == x,
{
    crate::basic::lemma_classes(x);
    crate::basic::lemma_classes(lo);
    crate::basic::lemma_classes(hi);
    let m = max_spec(x, lo);
    let r = clamp_spec(x, lo, hi);
    if !r.undefined_s() {
        assert(!x.undefined_s() && !lo.undefined_s() && !hi.undefined_s());
        assert(r == min_spec(m, hi));
        assert(!m.undefined_s());
        assert(!crate::order::unordered_pair(x, lo));
        law_max_min_bound(x, lo);
        assert(canonical(m));
        assert(!crate::order::unordered_pair(m, hi));
        law_max_min_bound(m, hi);
        law_compare_antisymmetric(lo, m);
        law_compare_antisymmetric(lo, hi);
        law_compare_antisymmetric(r, lo);
    }
    if le_spec(lo, x) && le_spec(x, hi) {
        law_order_transitive(lo, x, hi);
        law_compare_antisymmetric(x, lo);
        if x.normal_s() && lo.normal_s() && x.ival() == lo.ival() {
            lemma_ival_injective(x, lo);
        }
        if x.normal_s() && hi.normal_s() && x.ival() == hi.ival() {
            lemma_ival_injective(x, hi);
        }
        assert(m == x);
    }
}

/// Multiplying a normal Circle by a normal Scalar (in either order) rounds
/// each part of the exact product toward negative infinity, when the
/// product is normal (compared in units of `2^-316`).
pub proof fn law_circle_scalar_mul_rounds_down(c: Circle, s: Scalar)
    requires
        c.normal_c(),
        s.normal_s(),
        cs_mul_spec(c, s).normal_c(),
    ensures
        sc_mul_spec(s, c) == cs_mul_spec(c, s),
        ({
            let r = cs_mul_spec(c, s);
            let u = pow2((r.k() + 128) as nat);
            &&& cunits(r, r.real as int) * unit() <= cunits(c, c.real as int) * s.ival() < (cunits(
                r,
                r.real as int,
            ) + u) * unit()
            &&& cunits(r, r.imaginary as int) * unit() <= cunits(c, c.imaginary as int) * s.ival()
                < (cunits(r, r.imaginary as int) + u) * unit()
        }),
{
    let x = c.real * s.w();
    let y = c.imaginary * s.w();
    let t = c.k() + s.k() - 61;
    assert(cs_mul_spec(c, s) == cpack_spec(x, y, t));
    lemma_cpack_component(x, y, t, x, 158);
    lemma_cpack_component(x, y, t, y, 158);
    let ec = (c.k() + 128) as nat;
    let es = (s.k() + 127) as nat;
    lemma_pow2_adds(ec, es);
    assert((t + 158 + 158) as nat == ec + es);
    lemma_mul4(c.real as int, pow2(ec) as int, s.w(), pow2(es) as int);
    lemma_mul4(c.imaginary as int, pow2(ec) as int, s.w(), pow2(es) as int);
}

/// A quotient part at least `2^63 / 2^32` in magnitude has 31 or more
/// significant bits.
proof fn lemma_wide_quotient(x: int, w: int)
    requires
        x >= 0x4000_0000 || x < -0x4000_0000,
        -0x1_0000_0000 <= w < 0x1_0000_0000,
        w != 0,
    ensures
        sbits(fdiv(x * 0x2_0000_0000, w)) >= 31,
{
    let aw = abs_i(w);
    let xs = if w > 0 {
        x * 0x2_0000_0000
    } else {
        -(x * 0x2_0000_0000)
    };
    let q = fdiv(x * 0x2_0000_0000, w);
    assert(q == fdiv(xs, aw));
    lemma_floor_bounds(xs, aw);
    if sbits(q) <= 30 {
        crate::scalar::lemma_pow2_30_32();
        crate::bits::lemma_sbits_range(q, 30);
        assert(false) by (nonlinear_arith)
            requires
                q * aw <= xs < (q + 1) * aw,
                -0x4000_0000 <= q < 0x4000_0000,
                0 < aw <= 0x1_0000_0000,
                xs >= 0x8000_0000_0000_0000 || xs <= -0x8000_0000_0000_0000,
        ;
    }
}

/// Dividing a normal Circle by a normal Scalar rounds each part of the exact
/// quotient toward negative infinity at the result's precision: with `s`
/// in units of `2^-158`, each part `p` of the result satisfies
/// `p <= part / s < p + ulp`, written without division.
pub proof fn law_circle_scalar_div_rounds_down(c: Circle, s: Scalar)
    requires
        c.normal_c(),
        s.normal_s(),
        cs_div_spec(c, s).normal_c(),
    ensures
        ({
            let r = cs_div_spec(c, s);
            let u = pow2((r.k() + 128) as nat) as int;
            let sv = s.ival();
            let nr = cunits(c, c.real as int) * unit();
            let ni = cunits(c, c.imaginary as int) * unit();
            &&& cunits(r, r.real as int) * abs_i(sv) <= (if sv > 0 { nr } else { -nr }) < (cunits(
                r,
                r.real as int,
            ) + u) * abs_i(sv)
            &&& cunits(r, r.imaginary as int) * abs_i(sv) <= (if sv > 0 { ni } else { -ni }) < (
            cunits(r, r.imaginary as int) + u) * abs_i(sv)
        }),
{
    let r = cs_div_spec(c, s);
    let x0 = c.real as int;
    let x1 = c.imaginary as int;
    let mx = msb(x0, x1);
    let xr = lifted(x0, x1, x0);
    let xi = lifted(x0, x1, x1);
    let w = s.w();
    lemma2_to64();
    lemma2_to64_rest();
    lemma_binade_bounds(s, 0, 0);
    crate::scalar::lemma_mant(s.fraction);
    crate::basic::lemma_normal_sign(s);
    assert(w != 0);
    let qr = fdiv(xr * pow2(33), w);
    let qi = fdiv(xi * pow2(33), w);
    let t = c.k() - s.k() - 32 + mx - 31;
    assert(r == cpack_spec(qr, qi, t));
    assert(pow2(33) == 0x2_0000_0000);
    assert(forall|j: int| #[trigger] crate::bits::scale(0, j) == 0) by {
        assert forall|j: int| #[trigger] crate::bits::scale(0, j) == 0 by {
            if j >= 0 {
                lemma_pow2_pos(j as nat);
            }
        }
    }
    assert(x0 != 0 || x1 != 0) by {
        if x0 == 0 && x1 == 0 {
            assert(xr == 0 && xi == 0);
            assert(qr == 0 && qi == 0);
        }
    }
    lemma_lift(x0, x1);
    if xr >= 0x4000_0000 || xr < -0x4000_0000 {
        lemma_wide_quotient(xr, w);
    } else {
        lemma_wide_quotient(xi, w);
    }
    let m = if sbits(qr) >= sbits(qi) {
        sbits(qr)
    } else {
        sbits(qi)
    };
    assert(m >= 31);
    let k = t + m - 1;
    assert(-127 <= k <= 127);
    crate::scalar::lemma_stored_exp(k);
    assert(r.k() == k);
    let cc0: nat = 400;
    lemma_cpack_component(qr, qi, t, qr, cc0);
    lemma_cpack_component(qr, qi, t, qi, cc0);
    let pc = pow2(cc0) as int;
    let ge = (t + 158 + cc0) as nat;
    let g = pow2(ge) as int;
    let ue = (r.k() + 128) as nat;
    let ul = pow2(ue) as int;
    let he = (m - 31) as nat;
    let h = pow2(he) as int;
    lemma_pow2_pos(cc0);
    lemma_pow2_pos(ge);
    lemma_pow2_pos(ue);
    lemma_pow2_pos(he);
    lemma_pow2_adds(ue, cc0);
    lemma_pow2_adds(he, ge);
    assert(ue + cc0 == he + ge);
    let fr = r.real as int;
    let fi = r.imaginary as int;
    lemma_pack_step(fr, qr, ul, pc, h, g);
    lemma_pack_step(fi, qi, ul, pc, h, g);
    // Floor bounds, with the divisor's sign moved to the dividend.
    let aw = abs_i(w);
    let lx = pow2((31 - mx) as nat) as int;
    lemma_pow2_pos((31 - mx) as nat);
    let pr = if w > 0 {
        x0
    } else {
        -x0
    };
    let pi = if w > 0 {
        x1
    } else {
        -x1
    };
    assert((if w > 0 { xr * 0x2_0000_0000 } else { -(xr * 0x2_0000_0000) }) == (pr * lx * 1)
        * 0x2_0000_0000) by (nonlinear_arith)
        requires
            xr == x0 * lx,
            pr == (if w > 0 { x0 } else { -x0 }),
    ;
    assert((if w > 0 { xi * 0x2_0000_0000 } else { -(xi * 0x2_0000_0000) }) == (pi * lx * 1)
        * 0x2_0000_0000) by (nonlinear_arith)
        requires
            xi == x1 * lx,
            pi == (if w > 0 { x1 } else { -x1 }),
    ;
    lemma_floor_bounds(if w > 0 { xr * 0x2_0000_0000 } else { -(xr * 0x2_0000_0000) }, aw);
    lemma_floor_bounds(if w > 0 { xi * 0x2_0000_0000 } else { -(xi * 0x2_0000_0000) }, aw);
    assert(qr == fdiv(if w > 0 { xr * 0x2_0000_0000 } else { -(xr * 0x2_0000_0000) }, aw));
    assert(qi == fdiv(if w > 0 { xi * 0x2_0000_0000 } else { -(xi * 0x2_0000_0000) }, aw));
    assert(aw * 1 * 1 == aw);
    // The powers of two line up.
    let ce = (c.k() + 128) as nat;
    let se = (s.k() + 127) as nat;
    let cp = pow2(ce) as int;
    let sp = pow2(se) as int;
    lemma_pow2_pos(ce);
    lemma_pow2_pos(se);
    lemma_pow2_4((31 - mx) as nat, 33, ge, se);
    lemma_pow2_4(cc0, 0, ce, 158);
    assert(pow2(0) == 1);
    assert(((31 - mx) as nat + 33 + ge + se) as nat == (cc0 + 0 + ce + 158) as nat);
    assert(lx * 0x2_0000_0000 * g * sp == pc * 1 * cp * unit());
    assert(cunits(r, fr) == fr * ul);
    assert(cunits(r, fi) == fi * ul);
    lemma_div_part(pr, aw, lx, 1, cp, sp, qr, fr * ul, ul, pc, g);
    lemma_div_part(pi, aw, lx, 1, cp, sp, qi, fi * ul, ul, pc, g);
    // Cancel the extra factor of the divisor's scale.
    assert(abs_i(s.ival()) == aw * sp) by (nonlinear_arith)
        requires
            s.ival() == w * sp,
            sp > 0,
            aw == abs_i(w),
    ;
    assert((pr * cp * sp) * unit() == (pr * cp * unit()) * sp) by (nonlinear_arith);
    assert((pi * cp * sp) * unit() == (pi * cp * unit()) * sp) by (nonlinear_arith);
    lemma_div_cancel_scale(fr * ul, ul, aw, sp, pr * cp * unit());
    lemma_div_cancel_scale(fi * ul, ul, aw, sp, pi * cp * unit());
    assert((if s.ival() > 0 { cunits(c, x0) * unit() } else { -(cunits(c, x0) * unit()) }) == pr
        * cp * unit()) by (nonlinear_arith)
        requires
            cunits(c, x0) == x0 * cp,
            pr == (if w > 0 { x0 } else { -x0 }),
            s.ival() > 0 <==> w > 0,
    ;
    assert((if s.ival() > 0 { cunits(c, x1) * unit() } else { -(cunits(c, x1) * unit()) }) == pi
        * cp * unit()) by (nonlinear_arith)
        requires
            cunits(c, x1) == x1 * cp,
            pi == (if w > 0 { x1 } else { -x1 }),
            s.ival() > 0 <==> w > 0,
    ;
}

/// Dropping a common positive factor `sp` from a bracketing.
proof fn lemma_div_cancel_scale(f: int, ul: int, aw: int, sp: int, n: int)
    requires
        sp > 0,
        f * (aw * sp * sp) <= (n * sp) < (f + ul) * (aw * sp * sp),
    ensures
        f * (aw * sp) <= n < (f + ul) * (aw * sp),
{
    assert(f * (aw * sp * sp) == (f * (aw * sp)) * sp) by (nonlinear_arith);
    assert((f + ul) * (aw * sp * sp) == ((f + ul) * (aw * sp)) * sp) by (nonlinear_arith);
    lemma_cancel_le(f * (aw * sp), n, sp);
    lemma_cancel_lt(n, (f + ul) * (aw * sp), sp);
}

/// Dividing a normal Scalar by a normal Circle rounds each part of the exact
/// quotient `s * conj(c) / |c|^2` toward negative infinity at the result's
/// precision (parts in units of `2^-158`, written without division).
pub proof fn law_scalar_circle_div_rounds_down(s: Scalar, c: Circle)
    requires
        s.normal_s(),
        c.normal_c(),
        sc_div_spec(s, c).normal_c(),
    ensures
        ({
            let r = sc_div_spec(s, c);
            let u = pow2((r.k() + 128) as nat) as int;
            let br = cunits(c, c.real as int);
            let bi = cunits(c, c.imaginary as int);
            let d = br * br + bi * bi;
            &&& cunits(r, r.real as int) * d <= (s.ival() * br) * unit() < (cunits(
                r,
                r.real as int,
            ) + u) * d
            &&& cunits(r, r.imaginary as int) * d <= (-(s.ival() * bi)) * unit() < (cunits(
                r,
                r.imaginary as int,
            ) + u) * d
        }),
{
    let r = sc_div_spec(s, c);
    let w = s.w();
    let y0 = c.real as int;
    let y1 = c.imaginary as int;
    let my = msb(y0, y1);
    let yr = lifted(y0, y1, y0);
    let yi = lifted(y0, y1, y1);
    lemma2_to64();
    lemma2_to64_rest();
    crate::scalar::lemma_mant(s.fraction);
    assert(w != 0);
    assert(w * w >= 0x4000_0000_0000_0000) by (nonlinear_arith)
        requires
            w >= 0x8000_0000 || w < -0x8000_0000,
    ;
    assert(forall|j: int| #[trigger] crate::bits::scale(0, j) == 0) by {
        assert forall|j: int| #[trigger] crate::bits::scale(0, j) == 0 by {
            if j >= 0 {
                lemma_pow2_pos(j as nat);
            }
        }
    }
    assert(y0 != 0 || y1 != 0);
    lemma_lift(y0, y1);
    let dd = yr * yr + yi * yi;
    assert(dd > 0) by (nonlinear_arith)
        requires
            dd == yr * yr + yi * yi,
            dd >= 0x1000_0000_0000_0000,
    ;
    assert(dd <= 0x8000_0000_0000_0000) by (nonlinear_arith)
        requires
            dd == yr * yr + yi * yi,
            -0x8000_0000 <= yr < 0x8000_0000,
            -0x8000_0000 <= yi < 0x8000_0000,
    ;
    let pp = w * yr;
    let qq = -(w * yi);
    assert(pow2(33) == 0x2_0000_0000);
    let qr = dq_re(w, 0, yr, yi);
    let qi = dq_im(w, 0, yr, yi);
    assert(w * yr + 0 * yi == pp && 0 * yr - w * yi == qq);
    assert(qr == fdiv(pp * 0x2_0000_0000, dd));
    assert(qi == fdiv(qq * 0x2_0000_0000, dd));
    let t = s.k() - c.k() - 34 - my + 31;
    assert(r == cpack_spec(qr, qi, t));
    lemma_sum_squares(w, 0, yr, yi);
    assert(pp * pp + qq * qq == (w * w) * dd) by (nonlinear_arith)
        requires
            (w * yr + 0 * yi) * (w * yr + 0 * yi) + (0 * yr - w * yi) * (0 * yr - w * yi) == (w
                * w + 0 * 0) * (yr * yr + yi * yi),
            pp == w * yr,
            qq == -(w * yi),
            dd == yr * yr + yi * yi,
    ;
    lemma_quot_wide(pp, qq, dd, w * w);
    let m = if sbits(qr) >= sbits(qi) {
        sbits(qr)
    } else {
        sbits(qi)
    };
    assert(m >= 31);
    let k = t + m - 1;
    assert(-127 <= k <= 127);
    crate::scalar::lemma_stored_exp(k);
    assert(r.k() == k);
    let cc0: nat = 400;
    lemma_cpack_component(qr, qi, t, qr, cc0);
    lemma_cpack_component(qr, qi, t, qi, cc0);
    let pc = pow2(cc0) as int;
    let ge = (t + 158 + cc0) as nat;
    let g = pow2(ge) as int;
    let ue = (r.k() + 128) as nat;
    let ul = pow2(ue) as int;
    let he = (m - 31) as nat;
    let h = pow2(he) as int;
    lemma_pow2_pos(cc0);
    lemma_pow2_pos(ge);
    lemma_pow2_pos(ue);
    lemma_pow2_pos(he);
    lemma_pow2_adds(ue, cc0);
    lemma_pow2_adds(he, ge);
    assert(ue + cc0 == he + ge);
    let fr = r.real as int;
    let fi = r.imaginary as int;
    lemma_pack_step(fr, qr, ul, pc, h, g);
    lemma_pack_step(fi, qi, ul, pc, h, g);
    lemma_floor_bounds(pp * 0x2_0000_0000, dd);
    lemma_floor_bounds(qq * 0x2_0000_0000, dd);
    let ly = pow2((31 - my) as nat) as int;
    lemma_pow2_pos((31 - my) as nat);
    let d0 = y0 * y0 + y1 * y1;
    let pr = w * y0;
    let pi = -(w * y1);
    assert(pp == pr * 1 * ly && qq == pi * 1 * ly) by (nonlinear_arith)
        requires
            yr == y0 * ly,
            yi == y1 * ly,
            pp == w * yr,
            qq == -(w * yi),
            pr == w * y0,
            pi == -(w * y1),
    ;
    lemma_scaled_pair(y0, y1, y0, y1, ly, ly);
    assert(dd == d0 * ly * ly);
    assert(d0 > 0) by (nonlinear_arith)
        requires
            dd == d0 * ly * ly,
            dd > 0,
            d0 == y0 * y0 + y1 * y1,
    ;
    let se = (s.k() + 127) as nat;
    let ce = (c.k() + 128) as nat;
    let sp = pow2(se) as int;
    let cp = pow2(ce) as int;
    lemma_pow2_pos(se);
    lemma_pow2_pos(ce);
    lemma_pow2_4(0, 33, ge, ce);
    lemma_pow2_4(cc0, (31 - my) as nat, se, 158);
    assert(pow2(0) == 1);
    assert((0 + 33 + ge + ce) as nat == (cc0 + (31 - my) as nat + se + 158) as nat);
    assert(1 * 0x2_0000_0000 * g * cp == pc * ly * sp * unit());
    assert(cunits(r, fr) == fr * ul);
    assert(cunits(r, fi) == fi * ul);
    lemma_div_part(pr, d0, 1, ly, sp, cp, qr, fr * ul, ul, pc, g);
    lemma_div_part(pi, d0, 1, ly, sp, cp, qi, fi * ul, ul, pc, g);
    let br = cunits(c, y0);
    let bi = cunits(c, y1);
    lemma_scaled_pair(y0, y1, y0, y1, cp, cp);
    assert(br * br + bi * bi == d0 * cp * cp);
    assert(pr * sp * cp == s.ival() * br && pi * sp * cp == -(s.ival() * bi)) by (nonlinear_arith)
        requires
            pr == w * y0,
            pi == -(w * y1),
            s.ival() == w * sp,
            br == y0 * cp,
            bi == y1 * cp,
    ;
}

/// Adding a normal Scalar to a normal Circle (in either order) takes the
/// Scalar at the Circle's 31-bit precision (its significand halved, rounded
/// down) and rounds the exact sum of that and the real part toward negative
/// infinity, the imaginary part likewise; where the operands are 32 or
/// more binades apart the smaller one is dropped, which is such a rounding
/// when its dropped parts are not negative. Parts in units of `2^-158`.
pub proof fn law_circle_scalar_add_rounds_down(c: Circle, s: Scalar)
    requires
        c.normal_c(),
        s.normal_s(),
        cs_add_spec(c, s).normal_c(),
        c.k() - s.k() >= 32 ==> s.positive_s(),
        s.k() - c.k() >= 32 ==> c.real >= 0 && c.imaginary >= 0,
    ensures
        sc_add_spec(s, c) == cs_add_spec(c, s),
        ({
            let r = cs_add_spec(c, s);
            let u = pow2((r.k() + 128) as nat) as int;
            let hv = fdiv(s.w(), 2) * pow2((s.k() + 128) as nat);
            &&& hv <= s.ival() < hv + pow2((s.k() + 128) as nat)
            &&& cunits(r, r.real as int) <= cunits(c, c.real as int) + hv < cunits(
                r,
                r.real as int,
            ) + u
            &&& cunits(r, r.imaginary as int) <= cunits(c, c.imaginary as int) < cunits(
                r,
                r.imaginary as int,
            ) + u
        }),
{
    let r = cs_add_spec(c, s);
    let w = s.w();
    let h = fdiv(w, 2);
    let es = (s.k() + 127) as nat;
    let ps = pow2(es) as int;
    lemma_pow2_pos(es);
    lemma_pow2_unfold((s.k() + 128) as nat);
    lemma_floor_bounds(w, 2);
    assert(h * 2 <= w < (h + 1) * 2);
    let hv = h * pow2((s.k() + 128) as nat);
    assert(hv <= s.ival() < hv + 2 * ps) by (nonlinear_arith)
        requires
            hv == h * (2 * ps),
            s.ival() == w * ps,
            h * 2 <= w < (h + 1) * 2,
            ps > 0,
    ;
    assert(r == cs_add_normal_spec(c, s));
    crate::scalar::lemma_mant(s.fraction);
    crate::scalar::lemma_pow2_30_32();
    crate::basic::lemma_normal_sign(s);
    if c.k() > s.k() {
        let shift = c.k() - s.k();
        if shift >= 32 {
            assert(r == c);
            lemma_small_dropped(c, s, h);
        } else {
            let p = pow2(shift as nat) as int;
            let x = c.real * p + h;
            let y = c.imaginary * p;
            let t = s.k() - 30;
            assert(r == cpack_spec(x, y, t));
            lemma_cpack_component(x, y, t, x, 0);
            lemma_cpack_component(x, y, t, y, 0);
            assert(pow2(0) == 1) by {
                lemma2_to64();
            }
            lemma_pow2_adds(shift as nat, (s.k() + 128) as nat);
            assert((shift as nat + (s.k() + 128) as nat) as nat == (c.k() + 128) as nat);
            assert(x * pow2((t + 158) as nat) == cunits(c, c.real as int) + hv) by (nonlinear_arith)
                requires
                    x == c.real * p + h,
                    (t + 158) as nat == (s.k() + 128) as nat,
                    pow2((c.k() + 128) as nat) == p * pow2((s.k() + 128) as nat),
                    cunits(c, c.real as int) == c.real * pow2((c.k() + 128) as nat),
                    hv == h * pow2((s.k() + 128) as nat),
            ;
            assert(y * pow2((t + 158) as nat) == cunits(c, c.imaginary as int)) by (nonlinear_arith)
                requires
                    y == c.imaginary * p,
                    (t + 158) as nat == (s.k() + 128) as nat,
                    pow2((c.k() + 128) as nat) == p * pow2((s.k() + 128) as nat),
                    cunits(c, c.imaginary as int) == c.imaginary * pow2((c.k() + 128) as nat),
            ;
        }
    } else {
        let shift = s.k() - c.k();
        if shift >= 32 {
            assert(r == from_scalar_spec(s));
            lemma_big_scalar(c, s, h);
        } else {
            let p = pow2(shift as nat) as int;
            let x = h * p + c.real;
            let y = c.imaginary as int;
            let t = c.k() - 30;
            assert(r == cpack_spec(x, y, t));
            lemma_cpack_component(x, y, t, x, 0);
            lemma_cpack_component(x, y, t, y, 0);
            assert(pow2(0) == 1) by {
                lemma2_to64();
            }
            lemma_pow2_adds(shift as nat, (c.k() + 128) as nat);
            assert((shift as nat + (c.k() + 128) as nat) as nat == (s.k() + 128) as nat);
            assert(x * pow2((t + 158) as nat) == cunits(c, c.real as int) + hv) by (nonlinear_arith)
                requires
                    x == h * p + c.real,
                    (t + 158) as nat == (c.k() + 128) as nat,
                    pow2((s.k() + 128) as nat) == p * pow2((c.k() + 128) as nat),
                    cunits(c, c.real as int) == c.real * pow2((c.k() + 128) as nat),
                    hv == h * pow2((s.k() + 128) as nat),
            ;
        }
    }
}

/// A Scalar 32 or more binades below a Circle, with a non-negative halved
/// significand, is less than one step of the Circle's real part.
proof fn lemma_small_dropped(c: Circle, s: Scalar, h: int)
    requires
        c.normal_c(),
        s.normal_s(),
        c.k() - s.k() >= 32,
        h == fdiv(s.w(), 2),
        s.positive_s(),
        0x8000_0000 <= s.w() < 0x1_0000_0000,
    ensures
        ({
            let u = pow2((c.k() + 128) as nat) as int;
            let hv = h * pow2((s.k() + 128) as nat);
            &&& cunits(c, c.real as int) <= cunits(c, c.real as int) + hv < cunits(c, c.real as int)
                + u
        }),
{
    let es = (s.k() + 128) as nat;
    let ec = (c.k() + 128) as nat;
    lemma_pow2_pos(es);
    crate::scalar::lemma_pow2_30_32();
    lemma_floor_bounds(s.w(), 2);
    assert(0 <= h < 0x8000_0000);
    lemma_pow2_adds(31, es);
    crate::bits::lemma_pow2_le(31 + es, ec);
    assert(0 <= h * pow2(es) < pow2(ec)) by (nonlinear_arith)
        requires
            0 <= h < 0x8000_0000,
            pow2(31) == 0x8000_0000,
            pow2(31) * pow2(es) == pow2(31 + es),
            pow2(31 + es) <= pow2(ec),
            pow2(es) > 0,
    ;
}

/// A Scalar 32 or more binades above a Circle with non-negative parts: the
/// Circle is less than one step of the Scalar taken as a Circle.
proof fn lemma_big_scalar(c: Circle, s: Scalar, h: int)
    requires
        c.normal_c(),
        s.normal_s(),
        s.k() - c.k() >= 32,
        h == fdiv(s.w(), 2),
        c.real >= 0,
        c.imaginary >= 0,
        (0x8000_0000 <= s.w() < 0x1_0000_0000) || (-0x1_0000_0000 <= s.w() < -0x8000_0000),
    ensures
        ({
            let r = from_scalar_spec(s);
            let u = pow2((r.k() + 128) as nat) as int;
            let hv = h * pow2((s.k() + 128) as nat);
            &&& r.k() == s.k()
            &&& cunits(r, r.real as int) <= cunits(c, c.real as int) + hv < cunits(r, r.real as int)
                + u
            &&& cunits(r, r.imaginary as int) <= cunits(c, c.imaginary as int) < cunits(
                r,
                r.imaginary as int,
            ) + u
        }),
{
    let r = from_scalar_spec(s);
    let es = (s.k() + 128) as nat;
    let ec = (c.k() + 128) as nat;
    lemma_pow2_pos(es);
    lemma_pow2_pos(ec);
    crate::scalar::lemma_pow2_30_32();
    lemma_floor_bounds(s.w(), 2);
    assert(-0x8000_0000 <= h < 0x8000_0000);
    assert(r.real == h && r.imaginary == 0 && r.exponent == s.exponent);
    lemma_pow2_adds(31, ec);
    crate::bits::lemma_pow2_le(31 + ec, es);
    let cr = c.real as int;
    let ci = c.imaginary as int;
    assert(0 <= cr * pow2(ec) < pow2(es) && 0 <= ci * pow2(ec) < pow2(es)) by (nonlinear_arith)
        requires
            0 <= cr < 0x8000_0000,
            0 <= ci < 0x8000_0000,
            pow2(31) == 0x8000_0000,
            pow2(31) * pow2(ec) == pow2(31 + ec),
            pow2(31 + ec) <= pow2(es),
            pow2(ec) > 0,
    ;
    assert(0 * pow2(es) == 0);
}

/// The bitwise operations commute, except where both operands are
/// different undefined states (the first one propagates).
pub proof fn law_bitwise_commutes(a: Scalar, b: Scalar)
    requires
        canonical(a),
        canonical(b),
        !(a.undefined_s() && b.undefined_s() && a != b),
    ensures
        and_spec(a, b) == and_spec(b, a),
        or_spec(a, b) == or_spec(b, a),
        xor_spec(a, b) == xor_spec(b, a),
{
    crate::basic::lemma_classes(a);
    crate::basic::lemma_classes(b);
    if a.normal_s() && b.normal_s() && a.k() == b.k() {
        assert(pow2(0) == 1) by {
            lemma2_to64();
        }
        let x = a.w() as i64;
        let y = b.w() as i64;
        assert(a.w() * 1 == a.w() && b.w() * 1 == b.w());
        assert(x & y == y & x && x | y == y | x && x ^ y == y ^ x) by (bit_vector);
    }
}

/// Squaring a Circle is multiplying it by itself, in every canonical state.
pub proof fn law_circle_square_is_product(c: Circle)
    requires
        cvalid(c),
    ensures
        csquare_spec(c) == cmul_spec(c, c),
{
    lemma_canonical_not_small(c);
}

/// A normal value is an integer exactly when its floor is itself.
pub proof fn law_integer_iff_floor_fixed(x: Scalar)
    requires
        x.normal_s(),
    ensures
        integer_spec(x) <==> floor_spec(x) == x,
{
    if integer_spec(x) {
        law_integers_are_fixed(x);
    } else if floor_spec(x) == x {
        law_floor_is_greatest_integer_below(x);
        assert(x.k() < 31);
        let j = frac_bits(x.k());
        let e = (x.k() + 127) as nat;
        let p = pow2(j) as int;
        let pe = pow2(e) as int;
        lemma_pow2_pos(j);
        lemma_pow2_pos(e);
        lemma_pow2_adds(j, e);
        assert((j + e) as nat == 158);
        assert(x.ival() == x.w() * pe);
        vstd::arithmetic::div_mod::lemma_fundamental_div_mod(x.ival(), p * pe);
        let q = x.ival() / (p * pe);
        assert(x.w() * pe == (q * p) * pe) by (nonlinear_arith)
            requires
                x.ival() == x.w() * pe,
                x.ival() == (p * pe) * q + x.ival() % (p * pe),
                x.ival() % (p * pe) == 0,
        ;
        lemma_cancel_le(x.w(), q * p, pe);
        lemma_cancel_le(q * p, x.w(), pe);
        vstd::arithmetic::div_mod::lemma_mod_multiples_basic(q, p);
        assert(false);
    }
}

/// A canonical normal Circle is the only one with its value: two of them
/// are equal exactly when both parts have the same values.
pub proof fn law_circle_values_determine(a: Circle, b: Circle)
    requires
        ccanonical(a),
        ccanonical(b),
    ensures
        a == b <==> (cunits(a, a.real as int) == cunits(b, b.real as int) && cunits(
            a,
            a.imaginary as int,
        ) == cunits(b, b.imaginary as int)),
{
    if cunits(a, a.real as int) == cunits(b, b.real as int) && cunits(a, a.imaginary as int)
        == cunits(b, b.imaginary as int) {
        if a.k() < b.k() {
            lemma_finer_not_equal(a, b);
        } else if b.k() < a.k() {
            lemma_finer_not_equal(b, a);
        }
        assert(a.k() == b.k());
        let e = (a.k() + 128) as nat;
        lemma_pow2_pos(e);
        lemma_cancel_le(a.real as int, b.real as int, pow2(e) as int);
        lemma_cancel_le(b.real as int, a.real as int, pow2(e) as int);
        lemma_cancel_le(a.imaginary as int, b.imaginary as int, pow2(e) as int);
        lemma_cancel_le(b.imaginary as int, a.imaginary as int, pow2(e) as int);
        crate::scalar::lemma_exp_round_trip(a.exponent);
        crate::scalar::lemma_exp_round_trip(b.exponent);
    }
}

/// A canonical normal Circle at a lower binade cannot have the values of
/// one at a higher binade: its parts would need more than 31 bits.
proof fn lemma_finer_not_equal(a: Circle, b: Circle)
    requires
        ccanonical(a),
        ccanonical(b),
        a.k() < b.k(),
    ensures
        !(cunits(a, a.real as int) == cunits(b, b.real as int) && cunits(a, a.imaginary as int)
            == cunits(b, b.imaginary as int)),
{
    let d = (b.k() - a.k()) as nat;
    let ea = (a.k() + 128) as nat;
    let eb = (b.k() + 128) as nat;
    lemma_pow2_pos(ea);
    lemma_pow2_adds(d, ea);
    assert(d + ea == eb);
    crate::bits::lemma_pow2_le(1, d);
    lemma2_to64();
    crate::scalar::lemma_pow2_30_32();
    let pd = pow2(d) as int;
    if cunits(a, a.real as int) == cunits(b, b.real as int) && cunits(a, a.imaginary as int)
        == cunits(b, b.imaginary as int) {
        assert(a.real * pow2(ea) == (b.real * pd) * pow2(ea)) by (nonlinear_arith)
            requires
                a.real * pow2(ea) == b.real * pow2(eb),
                pow2(eb) == pd * pow2(ea),
        ;
        assert(a.imaginary * pow2(ea) == (b.imaginary * pd) * pow2(ea)) by (nonlinear_arith)
            requires
                a.imaginary * pow2(ea) == b.imaginary * pow2(eb),
                pow2(eb) == pd * pow2(ea),
        ;
        lemma_cancel_le(a.real as int, b.real * pd, pow2(ea) as int);
        lemma_cancel_le(b.real * pd, a.real as int, pow2(ea) as int);
        lemma_cancel_le(a.imaginary as int, b.imaginary * pd, pow2(ea) as int);
        lemma_cancel_le(b.imaginary * pd, a.imaginary as int, pow2(ea) as int);
        let v = if sbits(b.real as int) == 31 {
            b.real as int
        } else {
            b.imaginary as int
        };
        let av = if sbits(b.real as int) == 31 {
            a.real as int
        } else {
            a.imaginary as int
        };
        crate::bits::lemma_sbits_band(v);
        assert(av == v * pd);
        assert(false) by (nonlinear_arith)
            requires
                av == v * pd,
                pd >= 2,
                (0x4000_0000 <= v < 0x8000_0000) || (-0x8000_0000 <= v < -0x4000_0000),
                -0x8000_0000 <= av < 0x8000_0000,
        ;
    }
}

/// Packing a significand always gives a value in a canonical state.
proof fn lemma_pack_canonical(x: int, t: int)
    ensures
        canonical(pack_spec(x, t)),
{
    if x != 0 {
        lemma_pack_class(x, t);
    }
}

/// A signed escape of a non-zero significand is in a canonical state.
proof fn lemma_signed_escape_canonical(p: int, exploded: bool)
    requires
        p != 0,
    ensures
        canonical(crate::arith::signed_escape_spec(p, exploded)),
{
    let g = if p < 0 {
        -p
    } else {
        p
    };
    lemma_escaped_canonical(g, exploded);
    let e = crate::arith::escaped_spec(g, exploded);
    crate::basic::lemma_classes(e);
    crate::scalar::lemma_pow2_30_32();
    crate::bits::lemma_scale_band(g, 31);
    crate::bits::lemma_scale_band(g, 30);
}

/// An escaped result of a non-zero significand is in a canonical state.
proof fn lemma_escaped_canonical(p: int, exploded: bool)
    requires
        p != 0,
    ensures
        canonical(crate::arith::escaped_spec(p, exploded)),
{
    crate::scalar::lemma_pow2_30_32();
    crate::bits::lemma_scale_band(p, 31);
    crate::bits::lemma_scale_band(p, 30);
    crate::bits::lemma_scale_fits(p, sbits(p), 31);
}

/// The arithmetic keeps values in their canonical states: negation, sums,
/// products and quotients of canonical values are canonical.
pub proof fn law_arith_keeps_canonical(a: Scalar, b: Scalar)
    requires
        canonical(a),
        canonical(b),
    ensures
        canonical(negate_spec(a)),
        canonical(add_spec(a, b)),
        canonical(mul_spec(a, b)),
        canonical(div_spec(a, b)),
{
    crate::basic::lemma_classes(a);
    crate::basic::lemma_classes(b);
    crate::scalar::lemma_pow2_30_32();
    lemma2_to64();
    if a.normal_s() {
        lemma_pack_canonical(-a.w(), a.k() - 31);
    }
    if a.normal_s() && b.normal_s() {
        let big = if a.k() > b.k() {
            a
        } else {
            b
        };
        let small = if a.k() > b.k() {
            b
        } else {
            a
        };
        let sft = (big.k() - small.k()) as nat;
        lemma_pack_canonical(big.w() * pow2(sft) + small.w(), small.k() - 31);
        lemma_pack_canonical(a.w() * b.w(), a.k() + b.k() - 62);
        if a.w() * b.w() != 0 {
            lemma_signed_escape_canonical(a.w() * b.w(), true);
            lemma_signed_escape_canonical(a.w() * b.w(), false);
        }
        lemma_pack_canonical(fdiv(a.w() * pow2(33), b.w()), a.k() - b.k() - 33);
    }
    let sa = crate::arith::sig(a);
    let sb = crate::arith::sig(b);
    if (a.exploded_s() || a.vanished_s() || a.normal_s()) && (b.exploded_s() || b.vanished_s()
        || b.normal_s()) {
        lemma_sig_range(a);
        lemma_sig_range(b);
        assert(sa * sb != 0) by (nonlinear_arith)
            requires
                sa != 0,
                sb != 0,
        ;
        lemma_signed_escape_canonical(sa * sb, a.exploded_s() || b.exploded_s());
        lemma2_to64_rest();
        assert(sa * pow2(33) >= 0x8000_0000_0000_0000 || sa * pow2(33) <= -0x8000_0000_0000_0000)
            by (nonlinear_arith)
            requires
                sa >= 0x8000_0000 || sa < -0x8000_0000,
                pow2(33) == 0x2_0000_0000,
        ;
        lemma_floor_bounds_any(sa * pow2(33), sb);
        lemma_escaped_canonical(fdiv(sa * pow2(33), sb), !(a.vanished_s() || b.exploded_s()));
    }
}

/// The significand of a normal or escaped value is 32 bits wide.
proof fn lemma_sig_range(x: Scalar)
    requires
        x.normal_s() || x.exploded_s() || x.vanished_s(),
    ensures
        crate::arith::sig(x) >= 0x8000_0000 || crate::arith::sig(x) < -0x8000_0000,
        -0x1_0000_0000 <= crate::arith::sig(x) < 0x1_0000_0000,
{
    crate::scalar::lemma_mant(x.fraction);
    crate::basic::lemma_classes(x);
}

/// The floor of a quotient of a dividend at least `2^63` in magnitude by a
/// divisor below `2^32` in magnitude is not zero.
proof fn lemma_floor_bounds_any(x: int, d: int)
    requires
        x >= 0x8000_0000_0000_0000 || x <= -0x8000_0000_0000_0000,
        d != 0,
        -0x1_0000_0000 <= d < 0x1_0000_0000,
    ensures
        fdiv(x, d) != 0,
{
    let ad = abs_i(d);
    let xs = if d > 0 {
        x
    } else {
        -x
    };
    assert(fdiv(x, d) == fdiv(xs, ad));
    lemma_floor_bounds(xs, ad);
    let q = fdiv(xs, ad);
    if q == 0 {
        assert(0 <= xs < ad) by (nonlinear_arith)
            requires
                q == 0,
                q * ad <= xs < (q + 1) * ad,
        ;
    }
}

/// The other operations keep values in their canonical states too: the
/// roundings, the fractional part, magnitude, square root, remainder and
/// the bitwise operations of canonical values are canonical.
pub proof fn law_operations_keep_canonical(x: Scalar, y: Scalar)
    requires
        canonical(x),
        canonical(y),
    ensures
        canonical(floor_spec(x)),
        canonical(ceil_spec(x)),
        canonical(round_spec(x)),
        canonical(frac_spec(x)),
        canonical(magnitude_spec(x)),
        canonical(sqrt_spec(x)),
        canonical(mod_spec(x, y)),
        canonical(not_spec(x)),
        canonical(and_spec(x, y)),
        canonical(or_spec(x, y)),
        canonical(xor_spec(x, y)),
{
    crate::basic::lemma_classes(x);
    crate::basic::lemma_classes(y);
    crate::scalar::lemma_pow2_30_32();
    lemma2_to64();
    let one = sc(-0x8000_0000i32, -128i8);
    lemma_one();
    if x.normal_s() && x.k() < 31 {
        lemma_pack_canonical(floor_part(x.w(), frac_bits(x.k())), 0);
        lemma_pack_canonical(round_part(x.w(), frac_bits(x.k())), 0);
    }
    let f = floor_spec(x);
    assert(canonical(f));
    law_arith_keeps_canonical(f, one);
    law_arith_keeps_canonical(f, f);
    law_arith_keeps_canonical(x, negate_spec(f));
    law_arith_keeps_canonical(x, y);
    if x.normal_s() && y.normal_s() && x.k() >= y.k() {
        lemma_pack_canonical(fmod(x.w() * pow2((x.k() - y.k()) as nat), y.w()), y.k() - 31);
    }
    if x.normal_s() && y.normal_s() {
        let big = if x.k() > y.k() {
            x
        } else {
            y
        };
        let small = if x.k() > y.k() {
            y
        } else {
            x
        };
        let sft = (big.k() - small.k()) as nat;
        lemma_pack_canonical(
            combine(BitwiseOp::And, (big.w() * pow2(sft)) as i64, small.w() as i64) as int,
            small.k() - 31,
        );
        lemma_pack_canonical(
            combine(BitwiseOp::Or, (big.w() * pow2(sft)) as i64, small.w() as i64) as int,
            small.k() - 31,
        );
        lemma_pack_canonical(
            combine(BitwiseOp::Xor, (big.w() * pow2(sft)) as i64, small.w() as i64) as int,
            small.k() - 31,
        );
    }
    if x.normal_s() && !x.negative_s() {
        let h = fdiv(x.k(), 2);
        assert(-64 <= h <= 64);
        crate::scalar::lemma_stored_exp(h);
    }
}

/// Escaping a positive significand does not depend on a power-of-two factor.
proof fn lemma_escape_scale(g: int, d: nat, exploded: bool)
    requires
        g > 0,
    ensures
        crate::arith::escaped_spec(g * pow2(d), exploded) == crate::arith::escaped_spec(g, exploded),
{
    crate::bits::lemma_sbits_shift(g, d);
    crate::bits::lemma_scale_shift(g, d, sbits(g) - 31);
    crate::bits::lemma_scale_shift(g, d, sbits(g) - 30);
}

/// Negating a positive escaped value twice gives it back.
proof fn lemma_negate_twice_escaped(g: int, exploded: bool)
    requires
        g > 0,
    ensures
        negate_spec(negate_spec(crate::arith::escaped_spec(g, exploded))) == crate::arith::escaped_spec(
            g,
            exploded,
        ),
{
    crate::scalar::lemma_pow2_30_32();
    crate::bits::lemma_scale_band(g, 31);
    crate::bits::lemma_scale_band(g, 30);
}

/// The significand of a normal value's negation is the negated significand,
/// up to a factor of two where the negation moved by a binade.
proof fn lemma_sig_of_negation(b: Scalar)
    requires
        b.normal_s(),
        negate_spec(b).normal_s(),
    ensures
        -b.w() == negate_spec(b).w() || -b.w() == 2 * negate_spec(b).w() || 2 * (-b.w())
            == negate_spec(b).w(),
{
    let w = b.w();
    crate::scalar::lemma_mant(b.fraction);
    crate::scalar::lemma_pow2_30_32();
    lemma2_to64_rest();
    lemma_pack_class(-w, b.k() - 31);
    assert(pow2(0) == 1 && pow2(1) == 2) by {
        lemma2_to64();
    }
    if -w == 0x1_0000_0000 {
        crate::bits::lemma_band_sbits(-w, 33);
        assert(crate::bits::scale(-w, 1) == -w / 2);
        assert(0x1_0000_0000int / 2 == 0x8000_0000);
    } else if -w == -0x8000_0000 {
        crate::bits::lemma_band_sbits(-w, 31);
        assert(crate::bits::scale(-w, -1) == -0x1_0000_0000);
    } else {
        assert(in_band(-w, 32));
        crate::bits::lemma_band_sbits(-w, 32);
        assert(crate::bits::scale(-w, 0) == -w) by {
            assert(-w / 1 == -w);
        }
    }
}

/// Multiplying an escaped value by a negated normal value negates the
/// product: escaped products are formed from the magnitude and then given
/// their sign.
pub proof fn law_escaped_product_negation(a: Scalar, b: Scalar)
    requires
        a.exploded_s() || a.vanished_s(),
        b.normal_s(),
        negate_spec(b).normal_s(),
    ensures
        mul_spec(a, negate_spec(b)) == negate_spec(mul_spec(a, b)),
{
    crate::basic::lemma_classes(a);
    crate::basic::lemma_classes(b);
    let nb = negate_spec(b);
    crate::basic::lemma_classes(nb);
    lemma_sig_of_negation(b);
    crate::scalar::lemma_mant(b.fraction);
    crate::scalar::lemma_mant(nb.fraction);
    let sa = crate::arith::sig(a);
    let p = sa * b.w();
    let q = sa * nb.w();
    let e = a.exploded_s();
    assert(sa != 0) by {
        crate::scalar::lemma_pow2_30_32();
    }
    assert(mul_spec(a, b) == crate::arith::signed_escape_spec(p, e));
    assert(mul_spec(a, nb) == crate::arith::signed_escape_spec(q, e));
    let d1: nat = if 2 * (-b.w()) == nb.w() {
        1
    } else {
        0
    };
    let d2: nat = if -b.w() == 2 * nb.w() {
        1
    } else {
        0
    };
    assert(pow2(0) == 1 && pow2(1) == 2) by {
        lemma2_to64();
    }
    if 2 * (-b.w()) == nb.w() {
        assert((-b.w()) * pow2(d1) == nb.w() * pow2(d2));
    } else if -b.w() == 2 * nb.w() {
        assert((-b.w()) * pow2(d1) == nb.w() * pow2(d2));
    } else {
        assert(-b.w() == nb.w());
        assert((-b.w()) * pow2(d1) == nb.w() * pow2(d2));
    }
    assert((-p) * pow2(d1) == q * pow2(d2)) by (nonlinear_arith)
        requires
            p == sa * b.w(),
            q == sa * nb.w(),
            (-b.w()) * pow2(d1) == nb.w() * pow2(d2),
    ;
    assert(p != 0) by (nonlinear_arith)
        requires
            p == sa * b.w(),
            sa != 0,
            b.w() != 0,
    ;
    lemma_pow2_pos(d1);
    lemma_pow2_pos(d2);
    if p > 0 {
        assert(q < 0) by (nonlinear_arith)
            requires
                (-p) * pow2(d1) == q * pow2(d2),
                p > 0,
                pow2(d1) > 0,
                pow2(d2) > 0,
        ;
        assert(p * pow2(d1) == (-q) * pow2(d2)) by (nonlinear_arith)
            requires
                (-p) * pow2(d1) == q * pow2(d2),
        ;
        lemma_escape_scale(p, d1, e);
        lemma_escape_scale(-q, d2, e);
    } else {
        assert(q > 0) by (nonlinear_arith)
            requires
                (-p) * pow2(d1) == q * pow2(d2),
                p < 0,
                pow2(d1) > 0,
                pow2(d2) > 0,
        ;
        lemma_escape_scale(-p, d1, e);
        lemma_escape_scale(q, d2, e);
        lemma_negate_twice_escaped(-p, e);
    }
}

} // verus!
