//! Random Scalars and Circles: uniform in `[-1, 1)` or the unit disk with a
//! geometric spread over binades, and normally distributed by the polar
//! method. The random words come from the `rand` crate's thread-local
//! generator; everything done with them is verified.
use crate::arith::{add_spec, div_spec, mul_spec, square_spec};
use crate::bits::{sbits, scale, sig_bits};
use crate::circle::{cc, cpack, cpack_spec, level_spec, Circle};
use crate::circle_arith::magnitude_squared_spec;
use crate::cmodular::from_ri_spec;
use crate::exponents::ln_spec;
use crate::roots::sqrt_spec;
use crate::scalar::{pack_spec, sc, Scalar, NEG_ONE_VANISHED, POS_ONE_VANISHED};
use vstd::prelude::*;

verus! {

/// A uniformly random 32-bit word from `rand::random`. Nothing is claimed of
/// the value: any `i32` may come back, and two calls may differ.
#[verifier::external_body]
fn random_word() -> (r: i32) {
    rand::random::<i32>()
}

/// Leading zero bits of a 32-bit word.
pub open spec fn lz_spec(w: i32) -> int {
    if w < 0 {
        0
    } else {
        32 - sbits(w as int)
    }
}

fn leading_zeros(w: i32) -> (r: u32)
    ensures
        r == lz_spec(w),
        r <= 32,
{
    if w < 0 {
        0
    } else {
        proof {
            crate::scalar::lemma_pow2_30_32();
            crate::bits::lemma_sbits_le(w as int, 31);
        }
        32 - sig_bits(w as i128)
    }
}

/// The Scalar drawn from a random fraction and a count of leading zero bits
/// of further random words: the fraction at binade `-1 - leading`, or, from
/// 127 leading zeros on, a vanished value with the fraction's sign and its
/// low 29 bits.
pub open spec fn scalar_draw_spec(fraction: i32, leading: int) -> Scalar {
    if leading >= 127 {
        sc(
            (if fraction < 0 {
                POS_ONE_VANISHED
            } else {
                NEG_ONE_VANISHED
            }) ^ (fraction & 0x1FFF_FFFFi32),
            0,
        )
    } else {
        sc(fraction, (127 - leading) as i8)
    }
}

/// The Circle drawn from two random fractions and a count of leading zero
/// bits: the pair at binade `-1 - leading`, renormalized; from 127 leading
/// zeros on, a vanished pair with the fractions' signs and low 29 bits.
pub open spec fn circle_draw_spec(re: i32, im: i32, leading: int) -> Circle {
    if leading >= 127 {
        Circle {
            real: (if re < 0 {
                NEG_ONE_VANISHED
            } else {
                POS_ONE_VANISHED
            }) ^ (re & 0x1FFF_FFFFi32),
            imaginary: (if im < 0 {
                NEG_ONE_VANISHED
            } else {
                POS_ONE_VANISHED
            }) ^ (im & 0x1FFF_FFFFi32),
            exponent: 0,
        }
    } else {
        cpack_spec(re as int, im as int, (127 - leading) - 128 - 30)
    }
}

/// Inside the unit disk: `|c|^2` is below one, zero or vanished.
pub open spec fn in_unit_disk(c: Circle) -> bool {
    let m2 = magnitude_squared_spec(c);
    m2.exponent > 0 || m2.zero_s() || m2.vanished_s()
}

/// Outcome of one round of the polar method on a pair `(u, v)`.
#[derive(Clone, Copy, Debug, PartialEq, Eq, Structural)]
pub enum Polar {
    /// `u^2 + v^2` is not in `(0, 1)`: draw again.
    Retry,
    /// The scale factor `sqrt(-2 ln s / s)` for the accepted pair.
    Factor(Scalar),
    /// `s` vanished: the sample is a random vanished value.
    Vanished,
    /// The factor left the normal range: the sample is a random exploded value.
    Exploded,
}

/// One round of the polar method: accept `(u, v)` when
/// `s = u^2 + v^2` lies in `(0, 1)`, and give the scale factor
/// `sqrt(-2 ln s / s)` when both `s` and `-2 ln s / s` are normal.
pub open spec fn polar_spec(u: Scalar, v: Scalar) -> Polar {
    let s = add_spec(square_spec(u), square_spec(v));
    let m = div_spec(mul_spec(pack_spec(-2, 0), ln_spec(s)), s);
    if !(s.exponent > 0 && !s.zero_s()) {
        Polar::Retry
    } else if !s.normal_s() {
        Polar::Vanished
    } else if !m.normal_s() {
        Polar::Exploded
    } else {
        Polar::Factor(sqrt_spec(m))
    }
}

/// A value that `Scalar::random` can give: normal below one in magnitude,
/// or vanished.
pub open spec fn draw_outcome(n: Scalar) -> bool {
    (n.normal_s() && n.k() <= -1) || n.vanished_s()
}

/// What `Scalar::random_gauss` can give: zero (after too many rejected
/// pairs), the scale factor of an accepted pair times its first value, or
/// a value `random` can give with its fraction moved to the vanished or the
/// exploded level (when the pair's `s` vanished or its factor left the
/// normal range).
pub open spec fn gauss_outcome(r: Scalar) -> bool {
    ||| r == sc(0i32, 0i8)
    ||| exists|u: Scalar, v: Scalar, f: Scalar|
        #![trigger polar_spec(u, v), mul_spec(f, u)]
        polar_spec(u, v) == Polar::Factor(f) && r == mul_spec(f, u)
    ||| exists|n: Scalar|
        #![trigger draw_outcome(n)]
        draw_outcome(n) && r == sc(
            scale(n.fraction as int, sbits(n.fraction as int) - 30) as i32,
            n.exponent,
        )
    ||| exists|n: Scalar|
        #![trigger draw_outcome(n)]
        draw_outcome(n) && r == sc(
            scale(n.fraction as int, sbits(n.fraction as int) - 31) as i32,
            n.exponent,
        )
}

/// What `Circle::random_gauss` can give: zero (after too many rejected
/// pairs), the scale factor of an accepted pair times each of its values as
/// the two parts, or a value `Circle::random` can give with its fractions
/// moved to the vanished or the exploded level.
pub open spec fn cgauss_outcome(r: Circle) -> bool {
    ||| r == cc(0i32, 0i32, 0i8)
    ||| exists|u: Scalar, v: Scalar, f: Scalar|
        #![trigger polar_spec(u, v), mul_spec(f, u), mul_spec(f, v)]
        polar_spec(u, v) == Polar::Factor(f) && r == from_ri_spec(mul_spec(f, u), mul_spec(f, v))
    ||| exists|n: Circle|
        #![trigger in_unit_disk(n)]
        (in_unit_disk(n) || n.n2_c()) && r == ({
            let l = level_spec(n.real as int, n.imaginary as int, 30);
            cc(l.real, l.imaginary, n.exponent)
        })
    ||| exists|n: Circle|
        #![trigger in_unit_disk(n)]
        (in_unit_disk(n) || n.n2_c()) && r == ({
            let l = level_spec(n.real as int, n.imaginary as int, 31);
            cc(l.real, l.imaginary, n.exponent)
        })
}

/// A fraction's low 29 bits on either vanished-level base stay at the
/// vanished level.
proof fn lemma_vanished_draw(f: i32)
    ensures
        0x2000_0000 <= POS_ONE_VANISHED ^ (f & 0x1FFF_FFFFi32) < 0x4000_0000,
        -0x4000_0000 <= NEG_ONE_VANISHED ^ (f & 0x1FFF_FFFFi32) < -0x2000_0000,
{
    let e = f & 0x1FFF_FFFFi32;
    assert(0 <= e < 0x2000_0000) by (bit_vector)
        requires
            e == f & 0x1FFF_FFFFi32,
    ;
    assert(0x2000_0000i32 ^ e == 0x2000_0000 + e) by (bit_vector)
        requires
            0 <= e < 0x2000_0000,
    ;
    assert(-0x4000_0000i32 ^ e == -0x4000_0000 + e) by (bit_vector)
        requires
            0 <= e < 0x2000_0000,
    ;
}

/// The leading zero bits of `words` from index `i` on, added to `acc`: a
/// word with fewer than 32 leading zeros ends the count, and so does
/// reaching 127 (the outcome no longer depends on more).
pub open spec fn leading_from(words: Seq<i32>, i: int, acc: int) -> int
    decreases words.len() - i,
{
    if i < 0 || i >= words.len() || acc >= 127 {
        acc
    } else if lz_spec(words[i]) < 32 {
        acc + lz_spec(words[i])
    } else {
        leading_from(words, i + 1, acc + 32)
    }
}

/// The count of leading zero bits over a sequence of random words.
pub open spec fn leading_count_spec(words: Seq<i32>) -> int {
    leading_from(words, 0, 0)
}

/// Counts the leading zero bits over `words` (see `leading_count_spec`).
pub fn leading_count(words: &Vec<i32>) -> (r: u32)
    ensures
        r == leading_count_spec(words@),
        r <= 158,
{
    let mut acc: u32 = 0;
    let mut i: usize = 0;
    while i < words.len() && acc < 127
        invariant
            i <= words.len(),
            acc <= 158,
            acc % 32 == 0,
            leading_from(words@, 0, 0) == leading_from(words@, i as int, acc as int),
        decreases words.len() - i,
    {
        let lz = leading_zeros(words[i]);
        if lz < 32 {
            return acc + lz;
        }
        acc = acc + 32;
        i = i + 1;
    }
    acc
}

/// Draws random words until one is not all zeros or 127 leading zero bits
/// are reached, and counts their leading zero bits.
fn draw_leading() -> (r: (u32, Vec<i32>))
    ensures
        r.0 == leading_count_spec(r.1@),
        r.0 <= 158,
{
    let mut words: Vec<i32> = Vec::new();
    let mut zeros: u32 = 0;
    let mut done = false;
    while !done && zeros < 127
        invariant
            zeros <= 160,
        decreases 200 - zeros - (if done {
            1int
        } else {
            0int
        }),
    {
        let w = random_word();
        words.push(w);
        let lz = leading_zeros(w);
        zeros = zeros + lz;
        if lz < 32 {
            done = true;
        }
    }
    let leading = leading_count(&words);
    (leading, words)
}

impl Scalar {
    /// The Scalar for given random draws (see `scalar_draw_spec`).
    pub fn from_draws(fraction: i32, leading: u32) -> (r: Scalar)
        ensures
            r == scalar_draw_spec(fraction, leading as int),
    {
        if leading >= 127 {
            let base = if fraction < 0 {
                POS_ONE_VANISHED
            } else {
                NEG_ONE_VANISHED
            };
            return Scalar { fraction: base ^ (fraction & 0x1FFF_FFFF), exponent: 0 };
        }
        Scalar { fraction, exponent: (127 - leading) as i8 }
    }

    /// A uniformly random Scalar in `[-1, 1)`, each binade half as likely as
    /// the one above; below the normal range a random vanished value.
    pub fn random() -> (r: Scalar)
        ensures
            (r.normal_s() && r.k() <= -1) || r.vanished_s(),
            exists|fraction: i32, words: Seq<i32>|
                #![trigger scalar_draw_spec(fraction, leading_count_spec(words))]
                r == scalar_draw_spec(fraction, leading_count_spec(words)),
    {
        let fraction = random_word();
        let (leading, words) = draw_leading();
        let r = Scalar::from_draws(fraction, leading);
        proof {
            lemma_vanished_draw(fraction);
            if leading < 127 {
                crate::scalar::lemma_stored_exp(-1 - leading as int);
            }
            assert(r == scalar_draw_spec(fraction, leading_count_spec(words@)));
        }
        r
    }

    /// One round of the polar method on a pair of uniform draws.
    pub fn polar(u: &Scalar, v: &Scalar) -> (r: Polar)
        ensures
            r == polar_spec(*u, *v),
    {
        let s = u.square().scalar_add_scalar(&v.square());
        if !(s.exponent > 0 && !s.is_zero()) {
            return Polar::Retry;
        }
        if !s.is_normal() {
            return Polar::Vanished;
        }
        let m = Scalar::from_int(-2).scalar_multiply_scalar(&s.ln()).scalar_divide_scalar(&s);
        if !m.is_normal() {
            return Polar::Exploded;
        }
        Polar::Factor(m.sqrt())
    }

    /// A normally distributed random Scalar (mean 0, variance 1) by the
    /// polar method. After 1000 rejected pairs it gives zero.
    pub fn random_gauss() -> (r: Scalar)
        ensures
            gauss_outcome(r),
    {
        let mut tries: u32 = 0;
        while tries < 1000
            decreases 1000 - tries,
        {
            let u = Scalar::random();
            let v = Scalar::random();
            match Scalar::polar(&u, &v) {
                Polar::Retry => {},
                Polar::Vanished => {
                    let mut n = Scalar::random();
                    let ghost n0 = n;
                    n.normalize_vanished();
                    assert(draw_outcome(n0));
                    return n;
                },
                Polar::Exploded => {
                    let mut n = Scalar::random();
                    let ghost n0 = n;
                    n.normalize_exploded();
                    assert(draw_outcome(n0));
                    return n;
                },
                Polar::Factor(f) => {
                    let r = f.scalar_multiply_scalar(&u);
                    assert(polar_spec(u, v) == Polar::Factor(f) && r == mul_spec(f, u));
                    return r;
                },
            }
            tries = tries + 1;
        }
        Scalar::zero()
    }
}

impl Circle {
    /// The Circle for given random draws (see `circle_draw_spec`).
    pub fn from_draws(re: i32, im: i32, leading: u32) -> (r: Circle)
        ensures
            r == circle_draw_spec(re, im, leading as int),
    {
        if leading >= 127 {
            let br = if re < 0 {
                NEG_ONE_VANISHED
            } else {
                POS_ONE_VANISHED
            };
            let bi = if im < 0 {
                NEG_ONE_VANISHED
            } else {
                POS_ONE_VANISHED
            };
            return Circle {
                real: br ^ (re & 0x1FFF_FFFF),
                imaginary: bi ^ (im & 0x1FFF_FFFF),
                exponent: 0,
            };
        }
        proof {
            crate::bits::lemma_sbits_64(re as int);
            crate::bits::lemma_sbits_64(im as int);
        }
        cpack(re as i128, im as i128, (127 - leading as i32) - 128 - 30)
    }

    /// A random Circle in the unit disk, each binade half as likely as the
    /// one above, by rejection; below the normal range a random vanished
    /// Circle. After 1000 rejected draws it gives zero.
    pub fn random() -> (r: Circle)
        ensures
            in_unit_disk(r) || r.n2_c(),
            r == cc(0i32, 0i32, 0i8) || exists|re: i32, im: i32, words: Seq<i32>|
                #![trigger circle_draw_spec(re, im, leading_count_spec(words))]
                r == circle_draw_spec(re, im, leading_count_spec(words)),
    {
        let mut tries: u32 = 0;
        while tries < 1000
            decreases 1000 - tries,
        {
            let (leading, words) = draw_leading();
            let re = random_word();
            let im = random_word();
            let c = Circle::from_draws(re, im, leading);
            assert(c == circle_draw_spec(re, im, leading_count_spec(words@)));
            if leading >= 127 {
                proof {
                    lemma_vanished_draw(re);
                    lemma_vanished_draw(im);
                }
                return c;
            }
            let m2 = c.magnitude_squared();
            if m2.exponent > 0 || m2.is_zero() || m2.vanished() {
                return c;
            }
            tries = tries + 1;
        }
        Circle::zero()
    }

    /// A random Circle whose parts are independent standard normal values,
    /// by the polar method. After 1000 rejected pairs it gives zero.
    pub fn random_gauss() -> (r: Circle)
        ensures
            cgauss_outcome(r),
    {
        let mut tries: u32 = 0;
        while tries < 1000
            decreases 1000 - tries,
        {
            let u = Scalar::random();
            let v = Scalar::random();
            match Scalar::polar(&u, &v) {
                Polar::Retry => {},
                Polar::Vanished => {
                    let mut n = Circle::random();
                    let ghost n0 = n;
                    n.normalize_vanished();
                    assert(in_unit_disk(n0) || n0.n2_c());
                    return n;
                },
                Polar::Exploded => {
                    let mut n = Circle::random();
                    let ghost n0 = n;
                    n.normalize_exploded();
                    assert(in_unit_disk(n0) || n0.n2_c());
                    return n;
                },
                Polar::Factor(f) => {
                    let r = Circle::from_ri(&f.scalar_multiply_scalar(&u), &f.scalar_multiply_scalar(&v));
                    assert(polar_spec(u, v) == Polar::Factor(f) && r == from_ri_spec(
                        mul_spec(f, u),
                        mul_spec(f, v),
                    ));
                    return r;
                },
            }
            tries = tries + 1;
        }
        Circle::zero()
    }
}

} // verus!
