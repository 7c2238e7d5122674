//! Laws of Circle conjugation, negation and bitwise operations.
use crate::arith::{escaped_spec, mul_spec, sig};
use crate::bits::{
    in_band, lemma_band_sbits, lemma_sbits_band, lemma_sbits_range, lemma_scale_shift,
    lemma_sbits_shift, sbits, scale,
};
use crate::circle::{cc, circle_negate_spec, conjugate_spec, cpack_spec, level_spec, part_spec, Circle};
use crate::bitwise::{combine, BitwiseOp};
use crate::cbitwise::{cand_spec, cor_spec, cxor_spec};
use crate::circle_arith::{
    cadd_spec, cdiv_spec, cmagnitude_spec, cmul_spec, csquare_spec, magnitude_squared_spec,
};
use crate::laws::cunits;
use crate::scalar::{
    lemma_exp_round_trip, lemma_pack_shift, lemma_pow2_30_32, lemma_stored_exp, lemma_stored_frac,
    pack_spec, sc, stored_exp, stored_frac,
};
use vstd::arithmetic::power2::*;
use vstd::prelude::*;

verus! {

/// A normal Circle in its canonical form: the wider fraction uses all 31
/// significant bits.
pub open spec fn ccanonical(c: Circle) -> bool {
    c.normal_c() && (sbits(c.real as int) == 31 || sbits(c.imaginary as int) == 31)
}

/// A fraction pair whose wider member has exactly 31 significant bits packs
/// to itself at a logical exponent in range.
proof fn lemma_cpack_level31(x: int, y: int, t: int)
    requires
        sbits(x) <= 31,
        sbits(y) <= 31,
        sbits(x) == 31 || sbits(y) == 31,
        -127 <= t + 30 <= 127,
    ensures
        cpack_spec(x, y, t) == cc(x as i32, y as i32, stored_exp(t + 30)),
{
    lemma_pow2_30_32();
    lemma_sbits_range(x, 31);
    lemma_sbits_range(y, 31);
    assert(pow2(0) == 1) by {
        lemma2_to64();
    }
    assert(x != 0 || y != 0) by {
        if x == 0 && y == 0 {
            assert(sbits(0) == 0) by {
                reveal_with_fuel(crate::bits::nb, 2);
            }
        }
    }
    let m = if sbits(x) >= sbits(y) {
        sbits(x)
    } else {
        sbits(y)
    };
    assert(m == 31);
    assert(((m - 31) as nat) == 0);
    assert(x / 1 == x);
    assert(y / 1 == y);
    assert(scale(x, m - 31) == x);
    assert(scale(y, m - 31) == y);
}

/// `2^30` has 31 significant bits, `-2^30` has 30, `2^31` has 32, and
/// `-2^31` has 31.
proof fn lemma_boundary_sbits()
    ensures
        sbits(0x4000_0000) == 31,
        sbits(-0x4000_0000) == 30,
        sbits(0x8000_0000) == 32,
        sbits(-0x8000_0000) == 31,
{
    lemma_pow2_30_32();
    lemma_band_sbits(0x4000_0000, 31);
    lemma_band_sbits(-0x4000_0000, 30);
    lemma_band_sbits(0x8000_0000, 32);
    lemma_band_sbits(-0x8000_0000, 31);
}

/// A Circle in one of its canonical states: a canonical normal Circle,
/// zero, infinity, an exploded or vanished Circle, or an undefined state.
pub open spec fn cvalid(c: Circle) -> bool {
    ||| ccanonical(c)
    ||| c == cc(0i32, 0i32, 0i8)
    ||| c == cc(-1i32, -1i32, 0i8)
    ||| c.exploded_c()
    ||| c.exponent == 0 && c.n2_c()
    ||| c.undefined_c()
}

/// Conjugating a Circle twice gives it back, except where the first
/// conjugation cannot hold the negated imaginary fraction exactly: for a
/// normal Circle an imaginary fraction of `-2^31` beside an odd real
/// fraction or at the top exponent, or of `2^30` beside a narrower real
/// fraction at the bottom exponent; for an exploded Circle an imaginary
/// fraction of `-2^31`, and for a vanished one of `-2^30`, beside an odd
/// real fraction.
pub proof fn law_conjugate_involution(z: Circle)
    requires
        cvalid(z),
        z.normal_c() ==> !(z.imaginary == -0x8000_0000 && (z.real % 2 != 0 || z.k() == 127)),
        z.normal_c() ==> !(z.imaginary == 0x4000_0000 && sbits(z.real as int) < 31 && z.k()
            == -127),
        z.exploded_c() ==> !(z.imaginary == -0x8000_0000 && z.real % 2 != 0),
        (z.exponent == 0 && z.n2_c()) ==> !(z.imaginary == -0x4000_0000 && z.real % 2 != 0),
    ensures
        conjugate_spec(conjugate_spec(z)) == z,
{
    if z.normal_c() {
        lemma_conjugate_involution_normal(z);
    } else if z.exploded_c() || (z.exponent == 0 && z.n2_c()) {
        lemma_conjugate_involution_escaped(z);
    }
}

proof fn lemma_conjugate_involution_normal(z: Circle)
    requires
        ccanonical(z),
        !(z.imaginary == -0x8000_0000 && (z.real % 2 != 0 || z.k() == 127)),
        !(z.imaginary == 0x4000_0000 && sbits(z.real as int) < 31 && z.k() == -127),
    ensures
        conjugate_spec(conjugate_spec(z)) == z,
{
    let re = z.real as int;
    let im = z.imaginary as int;
    let k = z.k();
    lemma_pow2_30_32();
    lemma_boundary_sbits();
    lemma_exp_round_trip(z.exponent);
    crate::bits::lemma_sbits_le(re, 31);
    crate::bits::lemma_sbits_le(im, 31);
    if im == -0x8000_0000 {
        // First conjugation halves the (even) real fraction and moves up a binade.
        let h = re / 2;
        assert(re == 2 * h);
        assert(-0x4000_0000 <= h < 0x4000_0000);
        crate::bits::lemma_sbits_le(h, 30);
        assert(sbits(0x8000_0000) == 32);
        assert(scale(re, 1) == h) by {
            lemma2_to64();
        }
        assert(scale(0x8000_0000, 1) == 0x4000_0000) by {
            lemma2_to64();
        }
        lemma_stored_exp(k + 1);
        let c1 = cc(h as i32, 0x4000_0000i32, stored_exp(k + 1));
        assert(conjugate_spec(z) == c1);
        // Second conjugation: the pair is 30 bits wide and moves back down.
        assert(pow2(1) == 2) by {
            lemma2_to64();
        }
        assert(scale(h, -1) == h * 2);
        assert(scale(-0x4000_0000, -1) == -0x8000_0000) by {
            lemma2_to64();
        }
        assert(c1.k() == k + 1);
        assert(conjugate_spec(c1) == cpack_spec(h, -0x4000_0000, k + 1 - 30));
        assert(cpack_spec(h, -0x4000_0000, k + 1 - 30) == z);
    } else if im == 0x4000_0000 && sbits(re) < 31 {
        // First conjugation doubles both fractions and moves down a binade.
        assert(-0x4000_0000 <= re < 0x4000_0000) by {
            lemma_sbits_range(re, 30);
        }
        assert(pow2(1) == 2) by {
            lemma2_to64();
        }
        assert(scale(re, -1) == re * 2);
        assert(scale(-0x4000_0000, -1) == -0x8000_0000) by {
            lemma2_to64();
        }
        lemma_stored_exp(k - 1);
        let c1 = cc((2 * re) as i32, -0x8000_0000i32, stored_exp(k - 1));
        assert(conjugate_spec(z) == c1);
        crate::bits::lemma_sbits_le(2 * re, 31);
        assert(scale(2 * re, 1) == re) by {
            lemma2_to64();
        }
        assert(scale(0x8000_0000, 1) == 0x4000_0000) by {
            lemma2_to64();
        }
        assert(c1.k() == k - 1);
        assert(conjugate_spec(c1) == cpack_spec(2 * re, 0x8000_0000, k - 1 - 30));
        assert(cpack_spec(2 * re, 0x8000_0000, k - 1 - 30) == z);
    } else {
        // The negated imaginary fraction fits at the same width.
        if sbits(im) == 31 && im != 0x4000_0000 {
            crate::bits::lemma_sbits_band(im);
            assert(in_band(-im, 31));
            lemma_band_sbits(-im, 31);
        } else {
            crate::bits::lemma_sbits_le(-im, 31);
        }
        crate::bits::lemma_sbits_le(-im, 31);
        lemma_cpack_level31(re, -im, k - 30);
        let c1 = cc(z.real, (-im) as i32, z.exponent);
        assert(conjugate_spec(z) == c1);
        lemma_cpack_level31(re, im, k - 30);
    }
}

/// Conjugation leaves a Circle on the real axis unchanged.
pub proof fn law_conjugate_fixes_reals(z: Circle)
    requires
        cvalid(z),
        z.imaginary == 0,
    ensures
        conjugate_spec(z) == z,
{
    lemma_pow2_30_32();
    assert(sbits(0) == 0) by {
        reveal_with_fuel(crate::bits::nb, 2);
    }
    if z.normal_c() {
        lemma_exp_round_trip(z.exponent);
        crate::bits::lemma_sbits_le(z.real as int, 31);
        lemma_cpack_level31(z.real as int, 0, z.k() - 30);
    } else if z.exploded_c() {
        assert(in_band(z.real as int, 31));
        lemma_band_sbits(z.real as int, 31);
        lemma_level_exact(z.real as int, 0, 31);
    } else if z.exponent == 0 && z.n2_c() {
        assert(in_band(z.real as int, 30));
        lemma_band_sbits(z.real as int, 30);
        lemma_level_exact(z.real as int, 0, 30);
    }
}

/// Conjugating a canonical normal Circle keeps the value of its real part
/// and negates the value of its imaginary part, except where the negated
/// imaginary fraction cannot be held exactly (the normal inputs excluded by
/// `law_conjugate_involution`).
pub proof fn law_conjugate_negates_imaginary(z: Circle)
    requires
        ccanonical(z),
        !(z.imaginary == -0x8000_0000 && (z.real % 2 != 0 || z.k() == 127)),
        !(z.imaginary == 0x4000_0000 && sbits(z.real as int) < 31 && z.k() == -127),
    ensures
        ({
            let c = conjugate_spec(z);
            &&& ccanonical(c)
            &&& cunits(c, c.real as int) == cunits(z, z.real as int)
            &&& cunits(c, c.imaginary as int) == -cunits(z, z.imaginary as int)
        }),
{
    let re = z.real as int;
    let im = z.imaginary as int;
    let k = z.k();
    let e = (k + 128) as nat;
    lemma_pow2_30_32();
    lemma_boundary_sbits();
    lemma_exp_round_trip(z.exponent);
    crate::bits::lemma_sbits_le(re, 31);
    crate::bits::lemma_sbits_le(im, 31);
    if im == -0x8000_0000 {
        let h = re / 2;
        assert(re == 2 * h);
        assert(-0x4000_0000 <= h < 0x4000_0000);
        crate::bits::lemma_sbits_le(h, 30);
        assert(scale(re, 1) == h) by {
            lemma2_to64();
        }
        assert(scale(0x8000_0000, 1) == 0x4000_0000) by {
            lemma2_to64();
        }
        lemma_stored_exp(k + 1);
        let c1 = cc(h as i32, 0x4000_0000i32, stored_exp(k + 1));
        assert(conjugate_spec(z) == c1);
        lemma_exp_round_trip(c1.exponent);
        assert(c1.k() == k + 1);
        lemma_pow2_unfold((k + 129) as nat);
        assert(cunits(c1, h) == h * (2 * pow2(e)));
        assert(cunits(c1, h) == cunits(z, re)) by (nonlinear_arith)
            requires
                cunits(c1, h) == h * (2 * pow2(e)),
                cunits(z, re) == re * pow2(e),
                re == 2 * h,
        ;
        assert(cunits(c1, 0x4000_0000) == -cunits(z, im)) by (nonlinear_arith)
            requires
                cunits(c1, 0x4000_0000) == 0x4000_0000 * (2 * pow2(e)),
                cunits(z, im) == im * pow2(e),
                im == -0x8000_0000,
        ;
    } else if im == 0x4000_0000 && sbits(re) < 31 {
        assert(-0x4000_0000 <= re < 0x4000_0000) by {
            lemma_sbits_range(re, 30);
        }
        assert(pow2(1) == 2) by {
            lemma2_to64();
        }
        assert(scale(re, -1) == re * 2);
        assert(scale(-0x4000_0000, -1) == -0x8000_0000) by {
            lemma2_to64();
        }
        lemma_stored_exp(k - 1);
        let c1 = cc((2 * re) as i32, -0x8000_0000i32, stored_exp(k - 1));
        assert(conjugate_spec(z) == c1);
        lemma_exp_round_trip(c1.exponent);
        assert(c1.k() == k - 1);
        lemma_pow2_unfold(e);
        let e1 = (k + 127) as nat;
        assert(cunits(z, re) == re * (2 * pow2(e1)));
        assert(cunits(c1, 2 * re) == cunits(z, re)) by (nonlinear_arith)
            requires
                cunits(c1, 2 * re) == (2 * re) * pow2(e1),
                cunits(z, re) == re * (2 * pow2(e1)),
        ;
        assert(cunits(c1, -0x8000_0000) == -cunits(z, im)) by (nonlinear_arith)
            requires
                cunits(c1, -0x8000_0000) == -0x8000_0000 * pow2(e1),
                cunits(z, im) == im * (2 * pow2(e1)),
                im == 0x4000_0000,
        ;
        crate::bits::lemma_sbits_le(2 * re, 31);
        assert(sbits(-0x8000_0000) == 31);
    } else {
        if sbits(im) == 31 && im != 0x4000_0000 {
            crate::bits::lemma_sbits_band(im);
            assert(in_band(-im, 31));
            lemma_band_sbits(-im, 31);
        } else {
            crate::bits::lemma_sbits_le(-im, 31);
        }
        crate::bits::lemma_sbits_le(-im, 31);
        lemma_cpack_level31(re, -im, k - 30);
        let c1 = cc(z.real, (-im) as i32, z.exponent);
        assert(conjugate_spec(z) == c1);
        assert(cunits(c1, -im) == -cunits(z, im)) by (nonlinear_arith)
            requires
                cunits(c1, -im) == (-im) * pow2(e),
                cunits(z, im) == im * pow2(e),
        ;
    }
}


/// Wider of the significant-bit counts of a fraction pair.
pub open spec fn pair_bits(x: int, y: int) -> int {
    if sbits(x) >= sbits(y) {
        sbits(x) as int
    } else {
        sbits(y) as int
    }
}

/// A pair at most 32 bits wide (and even when 32 bits wide) whose binade is
/// in range packs exactly, to a canonical Circle.
proof fn lemma_cpack_exact(x: int, y: int, t: int)
    requires
        x != 0 || y != 0,
        pair_bits(x, y) <= 32,
        pair_bits(x, y) == 32 ==> x % 2 == 0 && y % 2 == 0,
        -127 <= t + pair_bits(x, y) - 1 <= 127,
    ensures
        ({
            let r = cpack_spec(x, y, t);
            &&& ccanonical(r)
            &&& r.k() == t + pair_bits(x, y) - 1
            &&& cunits(r, r.real as int) == x * pow2((t + 158) as nat)
            &&& cunits(r, r.imaginary as int) == y * pow2((t + 158) as nat)
        }),
{
    let m = pair_bits(x, y);
    let k = t + m - 1;
    let r = cpack_spec(x, y, t);
    lemma_pow2_30_32();
    lemma_stored_exp(k);
    assert(sbits(0) == 0 && sbits(-1) == 0) by {
        reveal_with_fuel(crate::bits::nb, 2);
    }
    crate::bits::lemma_scale_fits(x, m as nat, 31);
    crate::bits::lemma_scale_fits(y, m as nat, 31);
    assert(r == cc(scale(x, m - 31) as i32, scale(y, m - 31) as i32, stored_exp(k)));
    assert(r.k() == k);
    let e = (t + 158) as nat;
    let g = (k + 128) as nat;
    if m == 32 {
        assert(pow2(1) == 2) by {
            lemma2_to64();
        }
        let hx = x / 2;
        let hy = y / 2;
        assert(scale(x, 1) == hx && scale(y, 1) == hy);
        assert(x == 2 * hx && y == 2 * hy);
        lemma_pow2_unfold(g);
        assert(g - 1 == e);
        assert(hx * pow2(g) == x * pow2(e)) by (nonlinear_arith)
            requires
                x == 2 * hx,
                pow2(g) == 2 * pow2(e),
        ;
        assert(hy * pow2(g) == y * pow2(e)) by (nonlinear_arith)
            requires
                y == 2 * hy,
                pow2(g) == 2 * pow2(e),
        ;
        // The wider half keeps 31 bits.
        let w = if sbits(x) >= sbits(y) {
            x
        } else {
            y
        };
        let hw = w / 2;
        assert(w == 2 * hw);
        assert(hw != 0);
        lemma_sbits_shift(hw, 1);
        assert(hw * pow2(1) == w);
        assert(sbits(hw) == 31);
        crate::bits::lemma_scale_fits(x, 32, 31);
        assert(pair_bits(hx, hy) == 31) by {
            if sbits(x) >= sbits(y) {
                if hy != 0 {
                    lemma_sbits_shift(hy, 1);
                    assert(hy * pow2(1) == y);
                }
            } else {
                if hx != 0 {
                    lemma_sbits_shift(hx, 1);
                    assert(hx * pow2(1) == x);
                }
            }
        }
    } else {
        let j = (31 - m) as nat;
        let l = pow2(j) as int;
        lemma_pow2_pos(j);
        if m == 31 {
            assert(pow2(0) == 1) by {
                lemma2_to64();
            }
            assert(x / 1 == x && y / 1 == y);
            assert(scale(x, m - 31) == x * l);
            assert(scale(y, m - 31) == y * l);
        } else {
            assert((-(m - 31)) as nat == j);
            assert(m - 31 < 0);
            assert(scale(x, m - 31) == x * pow2((-(m - 31)) as nat) as int);
            assert(scale(y, m - 31) == y * pow2((-(m - 31)) as nat) as int);
        }
        assert(scale(x, m - 31) == x * l);
        assert(scale(y, m - 31) == y * l);
        lemma_pow2_adds(j, g);
        assert(j + g == e);
        assert((x * l) * pow2(g) == x * pow2(e)) by (nonlinear_arith)
            requires
                pow2(e) == l * pow2(g),
        ;
        assert((y * l) * pow2(g) == y * pow2(e)) by (nonlinear_arith)
            requires
                pow2(e) == l * pow2(g),
        ;
        crate::bits::lemma_sbits_le(x * l, 31);
        crate::bits::lemma_sbits_le(y * l, 31);
        if m == 0 {
            assert(l == 0x8000_0000);
            lemma_boundary_sbits();
            if x == -1 {
                assert(x * l == -0x8000_0000);
            } else {
                assert(y == -1);
                assert(y * l == -0x8000_0000);
            }
        } else if sbits(x) == m {
            assert(x != 0 && x != -1);
            lemma_sbits_shift(x, j);
        } else {
            assert(y != 0 && y != -1);
            lemma_sbits_shift(y, j);
        }
        assert(pair_bits(x * l, y * l) == 31);
    }
}

/// Negating a canonical normal Circle negates the values of both parts,
/// except where the negated pair cannot be held exactly: a part of
/// `-2^31` (whose negation needs 32 bits) beside an odd part or at the top
/// exponent, or a negated pair narrower than 31 bits at the bottom
/// exponent.
pub proof fn law_circle_negate_negates_parts(z: Circle)
    requires
        ccanonical(z),
        !(pair_bits(-z.real, -z.imaginary) == 32 && (z.k() == 127 || z.real % 2 != 0
            || z.imaginary % 2 != 0)),
        !(pair_bits(-z.real, -z.imaginary) < 31 && z.k() == -127),
    ensures
        ({
            let c = circle_negate_spec(z);
            &&& ccanonical(c)
            &&& cunits(c, c.real as int) == -cunits(z, z.real as int)
            &&& cunits(c, c.imaginary as int) == -cunits(z, z.imaginary as int)
        }),
{
    let re = z.real as int;
    let im = z.imaginary as int;
    let k = z.k();
    lemma_pow2_30_32();
    lemma_exp_round_trip(z.exponent);
    crate::bits::lemma_sbits_le(-re, 32);
    crate::bits::lemma_sbits_le(-im, 32);
    let m = pair_bits(-re, -im);
    // The negated pair is 30 to 32 bits wide.
    assert(m >= 30) by {
        if sbits(re) == 31 {
            lemma_sbits_neg_width(re);
        } else {
            lemma_sbits_neg_width(im);
        }
    }
    assert(-re != 0 || -im != 0) by {
        if re == 0 && im == 0 {
            assert(sbits(0) == 0) by {
                reveal_with_fuel(crate::bits::nb, 2);
            }
        }
    }
    assert(m == 32 ==> (-re) % 2 == 0 && (-im) % 2 == 0);
    lemma_cpack_exact(-re, -im, k - 30);
    assert(circle_negate_spec(z) == cpack_spec(-re, -im, k - 30));
    assert((k - 30 + 158) as nat == (k + 128) as nat);
    assert((-re) * pow2((k + 128) as nat) == -(re * pow2((k + 128) as nat))) by (nonlinear_arith);
    assert((-im) * pow2((k + 128) as nat) == -(im * pow2((k + 128) as nat))) by (nonlinear_arith);
}

/// A fraction of 31 significant bits negates to one of 30 to 32 bits.
proof fn lemma_sbits_neg_width(v: int)
    requires
        sbits(v) == 31,
    ensures
        30 <= sbits(-v) <= 32,
{
    lemma_pow2_30_32();
    crate::bits::lemma_sbits_band(v);
    if v >= 0 {
        if v == 0x4000_0000 {
            lemma_boundary_sbits();
        } else {
            assert(in_band(-v, 31));
            lemma_band_sbits(-v, 31);
        }
    } else {
        if v == -0x8000_0000 {
            lemma_boundary_sbits();
        } else {
            assert(in_band(-v, 31));
            lemma_band_sbits(-v, 31);
        }
    }
}


/// A canonical normal Circle matches neither the zero nor the infinity
/// pattern, and is exploded-shaped but not vanished-shaped.
proof fn lemma_canonical_shape(c: Circle)
    requires
        ccanonical(c),
    ensures
        !c.zero_c(),
        !c.infinite_c(),
        c.n1_c(),
        !c.n2_c(),
{
    lemma_pow2_30_32();
    if sbits(c.real as int) == 31 {
        lemma_sbits_band(c.real as int);
    } else {
        lemma_sbits_band(c.imaginary as int);
    }
}

/// AND and OR of a Circle with itself give it back, and XOR gives zero, for
/// zero and canonical normal Circles (two escaped operands are undefined).
pub proof fn law_circle_bitwise_self(x: Circle)
    requires
        ccanonical(x) || x == cc(0i32, 0i32, 0i8),
    ensures
        cand_spec(x, x) == x,
        cor_spec(x, x) == x,
        cxor_spec(x, x) == cc(0i32, 0i32, 0i8),
{
    if ccanonical(x) {
        lemma_canonical_shape(x);
        lemma2_to64();
        let re = x.real as int;
        let im = x.imaginary as int;
        lemma_exp_round_trip(x.exponent);
        crate::bits::lemma_sbits_le(re, 31);
        crate::bits::lemma_sbits_le(im, 31);
        assert(re * 1 == re && im * 1 == im);
        let a = x.real as i64;
        let b = x.imaginary as i64;
        assert(a & a == a && a | a == a && a ^ a == 0) by (bit_vector);
        assert(b & b == b && b | b == b && b ^ b == 0) by (bit_vector);
        assert(combine(BitwiseOp::And, (re * 1) as i64, re as i64) == a);
        assert(combine(BitwiseOp::Or, (re * 1) as i64, re as i64) == a);
        assert(combine(BitwiseOp::Xor, (re * 1) as i64, re as i64) == 0);
        assert(combine(BitwiseOp::And, (im * 1) as i64, im as i64) == b);
        assert(combine(BitwiseOp::Or, (im * 1) as i64, im as i64) == b);
        assert(combine(BitwiseOp::Xor, (im * 1) as i64, im as i64) == 0);
        lemma_cpack_level31(re, im, x.k() - 30);
    }
}

/// Zero is the identity of Circle OR and XOR, and AND with zero gives zero,
/// for every Circle in a canonical state but infinity (with which they are
/// undefined); undefined states propagate through AND.
pub proof fn law_circle_bitwise_zero(x: Circle)
    requires
        cvalid(x),
        !x.infinite_c(),
    ensures
        cor_spec(cc(0i32, 0i32, 0i8), x) == x,
        cor_spec(x, cc(0i32, 0i32, 0i8)) == x,
        cxor_spec(cc(0i32, 0i32, 0i8), x) == x,
        cxor_spec(x, cc(0i32, 0i32, 0i8)) == x,
        !x.undefined_c() ==> cand_spec(cc(0i32, 0i32, 0i8), x) == cc(0i32, 0i32, 0i8),
        !x.undefined_c() ==> cand_spec(x, cc(0i32, 0i32, 0i8)) == cc(0i32, 0i32, 0i8),
{
    if ccanonical(x) {
        lemma_canonical_shape(x);
    }
}

/// The Circle bitwise operations commute, except where both operands are
/// different undefined states (the first one propagates).
pub proof fn law_circle_bitwise_commutes(a: Circle, b: Circle)
    requires
        cvalid(a),
        cvalid(b),
        !(a.undefined_c() && b.undefined_c() && a != b),
    ensures
        cand_spec(a, b) == cand_spec(b, a),
        cor_spec(a, b) == cor_spec(b, a),
        cxor_spec(a, b) == cxor_spec(b, a),
{
    if ccanonical(a) {
        lemma_canonical_shape(a);
    }
    if ccanonical(b) {
        lemma_canonical_shape(b);
    }
    if a.normal_c() && b.normal_c() && a.k() == b.k() {
        assert(pow2(0) == 1) by {
            lemma2_to64();
        }
        let x = a.real as i64;
        let y = b.real as i64;
        let v = a.imaginary as i64;
        let z = b.imaginary as i64;
        assert(a.real * 1 == a.real && b.real * 1 == b.real);
        assert(a.imaginary * 1 == a.imaginary && b.imaginary * 1 == b.imaginary);
        assert(x & y == y & x && x | y == y | x && x ^ y == y ^ x) by (bit_vector);
        assert(v & z == z & v && v | z == z | v && v ^ z == z ^ v) by (bit_vector);
    }
}

/// A pair placed at the exploded (`n = 31`) or vanished (`n = 30`) level is
/// zero or an escaped Circle in its canonical state.
proof fn lemma_level_valid(x: int, y: int, n: int)
    requires
        n == 30 || n == 31,
    ensures
        cvalid(level_spec(x, y, n)),
{
    lemma_pow2_30_32();
    let m = pair_bits(x, y);
    assert(sbits(0) == 0) by {
        reveal_with_fuel(crate::bits::nb, 2);
    }
    assert(pow2(30) == 0x4000_0000 && pow2(31) == 0x8000_0000);
    if x == 0 && y == 0 {
        assert(scale(0, -n) == 0);
    } else {
        let w = if sbits(x) >= sbits(y) {
            x
        } else {
            y
        };
        let v = if sbits(x) >= sbits(y) {
            y
        } else {
            x
        };
        if w == 0 {
            assert(v != 0);
            assert(sbits(v) <= 0);
        }
        if w != 0 {
            crate::bits::lemma_scale_band(w, n as nat);
        } else {
            crate::bits::lemma_scale_band(v, n as nat);
        }
        crate::bits::lemma_scale_fits(x, m as nat, n as nat);
        crate::bits::lemma_scale_fits(y, m as nat, n as nat);
    }
}

/// Packing a pair gives a Circle in a canonical state.
proof fn lemma_cpack_valid(x: int, y: int, t: int)
    ensures
        cvalid(cpack_spec(x, y, t)),
{
    if !(x == 0 && y == 0) {
        let m = pair_bits(x, y);
        let k = t + m - 1;
        if k > 127 {
            lemma_level_valid(x, y, 31);
        } else if k < -127 {
            lemma_level_valid(x, y, 30);
        } else {
            lemma_pow2_30_32();
            lemma_stored_exp(k);
            let w = if sbits(x) >= sbits(y) {
                x
            } else {
                y
            };
            assert(sbits(0) == 0) by {
                reveal_with_fuel(crate::bits::nb, 2);
            }
            if w != 0 {
                crate::bits::lemma_scale_band(w, 31);
            } else {
                let v = if sbits(x) >= sbits(y) {
                    y
                } else {
                    x
                };
                crate::bits::lemma_scale_band(v, 31);
            }
            crate::bits::lemma_scale_fits(x, m as nat, 31);
            crate::bits::lemma_scale_fits(y, m as nat, 31);
        }
    }
}

/// Circle arithmetic keeps Circles in their canonical states: sums,
/// products, quotients, squares, negations and conjugates of Circles in
/// canonical states are in canonical states.
pub proof fn law_circle_arith_keeps_valid(a: Circle, b: Circle)
    requires
        cvalid(a),
        cvalid(b),
    ensures
        cvalid(cadd_spec(a, b)),
        cvalid(cmul_spec(a, b)),
        cvalid(cdiv_spec(a, b)),
        cvalid(csquare_spec(a)),
        cvalid(circle_negate_spec(a)),
        cvalid(conjugate_spec(a)),
{
    lemma_pow2_30_32();
    if ccanonical(a) {
        lemma_canonical_shape(a);
    }
    if ccanonical(b) {
        lemma_canonical_shape(b);
    }
    let re = a.real * b.real - a.imaginary * b.imaginary;
    let im = a.real * b.imaginary + a.imaginary * b.real;
    lemma_cpack_valid(re, im, a.k() + b.k() - 60);
    lemma_level_valid(re, im, 31);
    lemma_level_valid(re, im, 30);
    let sr = a.real * a.real - a.imaginary * a.imaginary;
    let si = a.real * a.imaginary + a.imaginary * a.real;
    lemma_cpack_valid(sr, si, 2 * a.k() - 60);
    lemma_level_valid(sr, si, 31);
    lemma_level_valid(sr, si, 30);
    lemma_cpack_valid(-a.real, -a.imaginary, a.k() - 30);
    lemma_level_valid(-a.real, -a.imaginary, 31);
    lemma_level_valid(-a.real, -a.imaginary, 30);
    lemma_cpack_valid(a.real as int, -a.imaginary, a.k() - 30);
    lemma_level_valid(a.real as int, -a.imaginary, 31);
    lemma_level_valid(a.real as int, -a.imaginary, 30);
    if a.normal_c() && b.normal_c() {
        let big = if a.k() > b.k() {
            a
        } else {
            b
        };
        let small = if a.k() > b.k() {
            b
        } else {
            a
        };
        let p = pow2((big.k() - small.k()) as nat) as int;
        lemma_cpack_valid(
            big.real * p + small.real,
            big.imaginary * p + small.imaginary,
            small.k() - 30,
        );
    }
    let xr = crate::circle_arith::lifted(a.real as int, a.imaginary as int, a.real as int);
    let xi = crate::circle_arith::lifted(a.real as int, a.imaginary as int, a.imaginary as int);
    let yr = crate::circle_arith::lifted(b.real as int, b.imaginary as int, b.real as int);
    let yi = crate::circle_arith::lifted(b.real as int, b.imaginary as int, b.imaginary as int);
    let qr = crate::circle_arith::dq_re(xr, xi, yr, yi);
    let qi = crate::circle_arith::dq_im(xr, xi, yr, yi);
    lemma_cpack_valid(
        qr,
        qi,
        a.k() - b.k() - 33 + crate::circle_arith::msb(a.real as int, a.imaginary as int)
            - crate::circle_arith::msb(b.real as int, b.imaginary as int),
    );
    lemma_level_valid(qr, qi, 30);
    lemma_level_valid(qr, qi, 31);
}

/// The magnitude and the squared magnitude keep a Circle's special state:
/// zero gives zero, infinity gives infinity, an exploded Circle an exploded
/// Scalar, a vanished Circle a vanished Scalar, and an undefined Circle an
/// undefined Scalar.
pub proof fn law_magnitude_keeps_state(c: Circle)
    requires
        cvalid(c),
        !c.normal_c(),
    ensures
        c == cc(0i32, 0i32, 0i8) ==> magnitude_squared_spec(c).zero_s() && cmagnitude_spec(c).zero_s(),
        c.infinite_c() ==> magnitude_squared_spec(c).infinite_s() && cmagnitude_spec(c).infinite_s(),
        c.exploded_c() ==> magnitude_squared_spec(c).exploded_s() && cmagnitude_spec(c).exploded_s(),
        c.n2_c() ==> magnitude_squared_spec(c).vanished_s() && cmagnitude_spec(c).vanished_s(),
        c.undefined_c() ==> magnitude_squared_spec(c).undefined_s()
            && cmagnitude_spec(c).undefined_s(),
{
    lemma_pow2_30_32();
    let n = c.real * c.real + c.imaginary * c.imaginary;
    if c.exploded_c() || c.n2_c() {
        assert(c.real != 0 || c.imaginary != 0);
        assert(n > 0) by (nonlinear_arith)
            requires
                n == c.real * c.real + c.imaginary * c.imaginary,
                c.real != 0 || c.imaginary != 0,
        ;
        crate::bits::lemma_scale_band(n, 31);
        crate::bits::lemma_scale_band(n, 30);
        crate::bits::lemma_scale_fits(n, sbits(n), 31);
        assert(n < 0x1_0000_0000_0000_0000) by (nonlinear_arith)
            requires
                n == c.real * c.real + c.imaginary * c.imaginary,
                -0x8000_0000 <= c.real < 0x8000_0000,
                -0x8000_0000 <= c.imaginary < 0x8000_0000,
        ;
        let root = crate::roots::isqrt_bisect_ghost(n);
        crate::roots::lemma_isqrt_unique(n, root);
        assert(root > 0) by (nonlinear_arith)
            requires
                root >= 0,
                root * root <= n < (root + 1) * (root + 1),
                n > 0,
        ;
        crate::bits::lemma_scale_band(root, 31);
        crate::bits::lemma_scale_band(root, 30);
        crate::bits::lemma_scale_fits(root, sbits(root), 31);
    }
    if c == cc(0i32, 0i32, 0i8) {
        assert(sbits(0) == 0) by {
            reveal_with_fuel(crate::bits::nb, 2);
        }
        assert(scale(0, -31) == 0);
    }
}

/// A positive value whose significant-bit count differs from its negation's
/// is a power of two, `2^e` with `e` the smaller count.
proof fn lemma_sbits_mismatch_pos(x: int) -> (e: nat)
    requires
        x > 0,
        sbits(x) != sbits(-x),
    ensures
        x == pow2(e),
        sbits(-x) == e,
        sbits(x) == e + 1,
{
    if x == 1 {
        assert(pow2(0) == 1 && pow2(1) == 2) by {
            lemma2_to64();
        }
        lemma_band_sbits(1, 1);
        assert(sbits(-1) == 0);
        0
    } else {
        lemma_sbits_band(x);
        lemma_sbits_band(-x);
        let e = sbits(-x);
        lemma_pow2_pos(e);
        if x < pow2(e) {
            assert(in_band(x, e));
            lemma_band_sbits(x, e);
        }
        assert(x == pow2(e));
        lemma_pow2_unfold((e + 1) as nat);
        assert(in_band(x, (e + 1) as nat));
        lemma_band_sbits(x, (e + 1) as nat);
        e
    }
}

/// `2^(2e)` lifted to the vanished level is the canonical vanished one.
proof fn lemma_vanished_pow2_square(e: nat, t: int)
    requires
        2 * t + 2 * e < -127,
    ensures
        pack_spec((pow2(e) * pow2(e)) as int, 2 * t) == sc(crate::scalar::POS_ONE_VANISHED, 0),
{
    let q = (2 * e) as nat;
    lemma_pow2_adds(e, e);
    lemma_pow2_pos(q);
    lemma_pow2_unfold((q + 1) as nat);
    assert(in_band(pow2(q) as int, (q + 1) as nat));
    lemma_band_sbits(pow2(q) as int, (q + 1) as nat);
    lemma_pow2_30_32();
    if q >= 29 {
        let d = (q - 29) as nat;
        lemma_pow2_adds(d, 29);
        lemma_pow2_pos(d);
        assert(scale(pow2(q) as int, q + 1 - 30) == pow2(29)) by {
            assert(pow2(q) as int / pow2(d) as int == pow2(29)) by (nonlinear_arith)
                requires
                    pow2(q) == pow2(d) * pow2(29),
                    pow2(d) > 0,
            ;
        }
    } else {
        let d = (29 - q) as nat;
        lemma_pow2_adds(q, d);
        assert(scale(pow2(q) as int, q + 1 - 30) == pow2(29));
    }
}

/// A value and its negation, packed at one scale, have equal squares.
proof fn lemma_square_negated_pack(x: int, t: int)
    requires
        x != 0,
        t >= -157,
        sbits(x) <= 32,
        sbits(-x) <= 32,
        t + sbits(x) - 1 <= 127,
        t + sbits(-x) - 1 <= 127,
    ensures
        crate::arith::square_spec(pack_spec(-x, t)) == crate::arith::square_spec(pack_spec(x, t)),
{
    lemma_square_of_pack(x, t);
    lemma_square_of_pack(-x, t);
    assert((-x) * (-x) == x * x) by (nonlinear_arith);
    crate::scalar::lemma_pack_class(x, t);
    crate::scalar::lemma_pack_class(-x, t);
    let a = pack_spec(x, t);
    let b = pack_spec(-x, t);
    if a.normal_s() != b.normal_s() {
        let y = if x > 0 { x } else { -x };
        assert(sbits(y) != sbits(-y));
        let e = lemma_sbits_mismatch_pos(y);
        assert(x * x == pow2(e) * pow2(e)) by (nonlinear_arith)
            requires
                x == pow2(e) || x == -pow2(e),
        ;
        assert(t + e == -127);
        lemma_vanished_pow2_square(e, t);
    }
}

/// The square of a packed value (not beyond the exploded level, at most
/// 32 significant bits, not below `2^-157`) is the packed square.
proof fn lemma_square_of_pack(x: int, t: int)
    requires
        x != 0,
        t >= -157,
        sbits(x) <= 32,
        t + sbits(x) - 1 <= 127,
    ensures
        mul_spec(pack_spec(x, t), pack_spec(x, t)) == pack_spec(x * x, 2 * t),
{
    let p = pack_spec(x, t);
    let m = sbits(x) as int;
    let kk = t + m - 1;
    let j = (32 - m) as nat;
    lemma_pow2_30_32();
    lemma_pow2_pos(j);
    lemma_sbits_shift(x, j);
    assert(x * x != 0) by (nonlinear_arith)
        requires
            x != 0,
    ;
    if kk >= -127 {
        let w = x * pow2(j) as int;
        lemma_scale_shift(x, j, m - 32);
        assert(scale(x, 0) == x) by {
            assert(pow2(0) == 1) by {
                lemma2_to64();
            }
        }
        assert(scale(w, 0) == w) by {
            assert(pow2(0) == 1) by {
                lemma2_to64();
            }
            assert(w / 1 == w);
        }
        assert(scale(x, m - 32) == w);
        lemma_sbits_band(w);
        lemma_stored_frac(w);
        lemma_stored_exp(kk);
        assert(p == sc(stored_frac(w), stored_exp(kk)));
        assert(p.w() == w);
        assert(p.k() == kk);
        let jj = (64 - 2 * m) as nat;
        lemma_pow2_adds(j, j);
        assert(j + j == jj);
        assert(w * w == (x * x) * pow2(jj) as int) by (nonlinear_arith)
            requires
                w == x * pow2(j) as int,
                pow2(jj) == pow2(j) * pow2(j),
        ;
        lemma_pack_shift(x * x, 2 * t, jj);
        assert(p.k() + p.k() - 62 == 2 * t - jj);
        assert(w * w >= 0) by (nonlinear_arith);
        crate::arith::lemma_mul_normal_is_pack(p, p);
    } else {
        assert(m <= 30);
        let f = x * pow2((30 - m) as nat) as int;
        lemma_scale_shift(x, (30 - m) as nat, m - 30);
        assert(scale(x, 0) == x) by {
            assert(pow2(0) == 1) by {
                lemma2_to64();
            }
        }
        assert(scale(f, 0) == f) by {
            assert(pow2(0) == 1) by {
                lemma2_to64();
            }
            assert(f / 1 == f);
        }
        assert(scale(x, m - 30) == f);
        lemma_sbits_shift(x, (30 - m) as nat);
        lemma_sbits_band(f);
        assert(p == sc(f as i32, 0));
        assert(sig(p) == 4 * f);
        lemma_pow2_adds((30 - m) as nat, 2);
        assert(pow2(2) == 4) by {
            lemma2_to64();
        }
        assert(4 * f == x * pow2(j) as int) by (nonlinear_arith)
            requires
                f == x * pow2((30 - m) as nat) as int,
                pow2(j) == pow2((30 - m) as nat) * 4,
        ;
        let jj = (64 - 2 * m) as nat;
        lemma_pow2_adds(j, j);
        assert(j + j == jj);
        let sq = (4 * f) * (4 * f);
        let pj = pow2(j) as int;
        assert((x * pj) * (x * pj) == (x * x) * (pj * pj)) by (nonlinear_arith);
        assert(sq == (x * x) * pow2(jj) as int);
        lemma_sbits_shift(x * x, jj);
        lemma_scale_shift(x * x, jj, sbits(x * x) - 30);
        assert(sq >= 0) by (nonlinear_arith)
            requires
                sq == (4 * f) * (4 * f),
        ;
        assert(mul_spec(p, p) == escaped_spec(sq, false));
        // The exact square is far below the normal range.
        lemma_sbits_range(x, m as nat);
        assert(x * x <= pow2((2 * m) as nat)) by {
            lemma_pow2_adds(m as nat, m as nat);
            assert(-pow2(m as nat) <= x < pow2(m as nat));
            assert(x * x <= pow2(m as nat) * pow2(m as nat)) by (nonlinear_arith)
                requires
                    -pow2(m as nat) <= x < pow2(m as nat),
            ;
        }
        assert(x * x < pow2((2 * m + 1) as nat)) by {
            lemma_pow2_unfold((2 * m + 1) as nat);
            lemma_pow2_pos((2 * m) as nat);
        }
        assert(x * x >= 0) by (nonlinear_arith);
        lemma_pow2_pos((2 * m + 1) as nat);
        crate::bits::lemma_sbits_le(x * x, (2 * m + 1) as nat);
    }
}

/// Conjugation keeps the magnitude of a canonical normal Circle, wherever
/// the conjugate itself does not round (the normal inputs excluded by
/// `law_conjugate_involution`).
pub proof fn law_conjugate_keeps_magnitude(z: Circle)
    requires
        ccanonical(z),
        !(z.imaginary == -0x8000_0000 && (z.real % 2 != 0 || z.k() == 127)),
        !(z.imaginary == 0x4000_0000 && sbits(z.real as int) < 31 && z.k() == -127),
    ensures
        magnitude_squared_spec(conjugate_spec(z)) == magnitude_squared_spec(z),
        cmagnitude_spec(conjugate_spec(z)) == cmagnitude_spec(z),
{
    let re = z.real as int;
    let im = z.imaginary as int;
    let k = z.k();
    let t = k - 30;
    let c1 = conjugate_spec(z);
    lemma_pow2_30_32();
    lemma_boundary_sbits();
    lemma_exp_round_trip(z.exponent);
    crate::bits::lemma_sbits_le(re, 31);
    crate::bits::lemma_sbits_le(im, 31);
    lemma_conjugate_involution_normal(z);
    assert(pow2(1) == 2) by {
        lemma2_to64();
    }
    if im == -0x8000_0000 {
        let h = re / 2;
        assert(re == 2 * h);
        assert(scale(re, 1) == h) by {
            lemma2_to64();
        }
        assert(scale(0x8000_0000, 1) == 0x4000_0000) by {
            lemma2_to64();
        }
        lemma_stored_exp(k + 1);
        assert(c1 == cc(h as i32, 0x4000_0000i32, stored_exp(k + 1)));
        assert(c1.k() == k + 1);
        if h != 0 {
            lemma_pack_shift(h, t + 1, 1);
        }
        assert(part_spec(c1, c1.real) == part_spec(z, z.real));
        lemma_square_of_pack(0x4000_0000, t + 1);
        lemma_square_of_pack(-0x8000_0000, t);
        crate::scalar::lemma_pack_class(0x4000_0000, t + 1);
        crate::scalar::lemma_pack_class(-0x8000_0000, t);
        lemma_pack_shift(0x4000_0000int * 0x4000_0000int, 2 * t + 2, 2);
        assert(pow2(2) == 4) by {
            lemma2_to64();
        }
    } else if im == 0x4000_0000 && sbits(re) < 31 {
        assert(scale(re, -1) == re * 2);
        assert(scale(-0x4000_0000, -1) == -0x8000_0000);
        lemma_stored_exp(k - 1);
        assert(c1 == cc((2 * re) as i32, -0x8000_0000i32, stored_exp(k - 1)));
        assert(c1.k() == k - 1);
        if re != 0 {
            lemma_pack_shift(re, t, 1);
        }
        assert(part_spec(c1, c1.real) == part_spec(z, z.real));
        lemma_square_of_pack(-0x8000_0000, t - 1);
        lemma_square_of_pack(0x4000_0000, t);
        crate::scalar::lemma_pack_class(-0x8000_0000, t - 1);
        crate::scalar::lemma_pack_class(0x4000_0000, t);
        lemma_pack_shift(0x4000_0000int * 0x4000_0000int, 2 * t, 2);
        assert(pow2(2) == 4) by {
            lemma2_to64();
        }
    } else {
        if sbits(im) == 31 && im != 0x4000_0000 {
            lemma_sbits_band(im);
            assert(in_band(-im, 31));
            lemma_band_sbits(-im, 31);
        }
        crate::bits::lemma_sbits_le(-im, 31);
        lemma_cpack_level31(re, -im, t);
        assert(c1 == cc(z.real, (-im) as i32, z.exponent));
        if im != 0 {
            lemma_square_negated_pack(im, t);
        }
    }
    assert(c1.normal_c() && z.normal_c());
    assert(!crate::circle_arith::circle_escaped(c1) && !crate::circle_arith::circle_escaped(z));
}

/// A fraction pair whose wider member has exactly `n` significant bits is
/// already at level `n`.
proof fn lemma_level_exact(x: int, y: int, n: nat)
    requires
        n == 30 || n == 31,
        sbits(x) <= n,
        sbits(y) <= n,
        sbits(x) == n || sbits(y) == n,
    ensures
        level_spec(x, y, n as int) == cc(x as i32, y as i32, 0),
{
    lemma_pow2_30_32();
    lemma_sbits_range(x, n);
    lemma_sbits_range(y, n);
    crate::bits::lemma_pow2_le(n, 31);
    assert(pow2(0) == 1) by {
        lemma2_to64();
    }
    assert(x / 1 == x);
    assert(y / 1 == y);
}

/// Conjugating an escaped Circle twice gives it back, except where the
/// first conjugation halves an odd real fraction: an exploded Circle with
/// imaginary fraction `-2^31`, or a vanished one with `-2^30`.
proof fn lemma_conjugate_involution_escaped(z: Circle)
    requires
        z.exploded_c() || (z.exponent == 0 && z.n2_c()),
        !(z.exploded_c() && z.imaginary == -0x8000_0000 && z.real % 2 != 0),
        !(!z.exploded_c() && z.imaginary == -0x4000_0000 && z.real % 2 != 0),
    ensures
        conjugate_spec(conjugate_spec(z)) == z,
{
    let re = z.real as int;
    let im = z.imaginary as int;
    let n: nat = if z.exploded_c() { 31 } else { 30 };
    let top: int = if z.exploded_c() { -0x8000_0000 } else { -0x4000_0000 };
    let low: int = if z.exploded_c() { 0x4000_0000 } else { 0x2000_0000 };
    lemma_pow2_30_32();
    lemma2_to64();
    assert(pow2(1) == 2);
    crate::bits::lemma_sbits_le(re, 31);
    crate::bits::lemma_sbits_le(im, 31);
    if z.exploded_c() {
        lemma_boundary_sbits();
        assert(sbits(re) == 31 || sbits(im) == 31) by {
            if z.real >= 0x4000_0000 || z.real < -0x4000_0000 {
                assert(in_band(re, 31));
                lemma_band_sbits(re, 31);
            } else {
                assert(in_band(im, 31));
                lemma_band_sbits(im, 31);
            }
        }
    } else {
        lemma_band_sbits(-0x4000_0000, 30);
        lemma_band_sbits(0x4000_0000, 31);
        lemma_band_sbits(0x2000_0000, 30);
        lemma_band_sbits(-0x2000_0000, 29);
        crate::bits::lemma_sbits_le(re, 30);
        crate::bits::lemma_sbits_le(im, 30);
        assert(sbits(re) == 30 || sbits(im) == 30) by {
            if (0x2000_0000 <= z.real < 0x4000_0000) || (-0x4000_0000 <= z.real < -0x2000_0000) {
                assert(in_band(re, 30));
                lemma_band_sbits(re, 30);
            } else {
                assert(in_band(im, 30));
                lemma_band_sbits(im, 30);
            }
        }
    }
    assert(sbits(top) == n && sbits(-top) == n + 1 && sbits(low) == n && sbits(-low) == n - 1)
        by {
        lemma_boundary_sbits();
        lemma_band_sbits(-0x4000_0000, 30);
        lemma_band_sbits(0x4000_0000, 31);
        lemma_band_sbits(0x2000_0000, 30);
        lemma_band_sbits(-0x2000_0000, 29);
    }
    if im == top {
        // The first conjugation halves the (even) real fraction.
        let h = re / 2;
        assert(re == 2 * h);
        crate::bits::lemma_sbits_le(h, (n - 1) as nat);
        assert(scale(re, 1) == h);
        assert(scale(-top, 1) == low);
        let c1 = cc(h as i32, low as i32, 0);
        assert(conjugate_spec(z) == c1);
        assert(scale(h, -1) == h * 2);
        assert(scale(-low, -1) == top);
        assert(conjugate_spec(c1) == level_spec(h, -low, n as int));
        assert(sbits(h) <= n - 1);
        assert(level_spec(h, -low, n as int) == cc((h * 2) as i32, top as i32, 0));
        assert(level_spec(h, -low, n as int) == z);
    } else if im == low && sbits(re) < n {
        // The first conjugation doubles both fractions.
        lemma_sbits_range(re, (n - 1) as nat);
        assert(scale(re, -1) == re * 2);
        assert(scale(-low, -1) == top);
        let c1 = cc((2 * re) as i32, top as i32, 0);
        assert(conjugate_spec(z) == c1);
        assert(scale(2 * re, 1) == re);
        assert(scale(-top, 1) == low);
        assert(conjugate_spec(c1) == level_spec(2 * re, -top, n as int));
        assert(level_spec(2 * re, -top, n as int) == z);
    } else {
        if sbits(im) == n && im != low {
            lemma_sbits_band(im);
            if z.exploded_c() {
                assert(in_band(-im, 31));
            } else {
                assert(in_band(-im, 30));
            }
            lemma_band_sbits(-im, n);
        }
        crate::bits::lemma_sbits_le(-im, n);
        lemma_level_exact(re, -im, n);
        let c1 = cc(z.real, (-im) as i32, 0);
        assert(conjugate_spec(z) == c1);
        lemma_sbits_range(re, n);
        lemma_sbits_range(-im, n);
        if sbits(re) == n {
            lemma_sbits_band(re);
        } else {
            lemma_sbits_band(-im);
        }
        if z.exploded_c() {
            assert(c1.exploded_c() && !c1.n2_c());
        } else {
            assert(c1.n2_c());
        }
        lemma_level_exact(re, im, n);
        assert(conjugate_spec(c1) == level_spec(re, im, n as int));
        assert(level_spec(re, im, n as int) == z);
    }
}

} // verus!
