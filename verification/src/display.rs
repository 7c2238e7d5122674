//! Display text of Scalars and Circles in any base from 2 to 36.
//!
//! Digits come from the library's own arithmetic: the integer part by
//! repeated division by the base, the fractional part by repeated
//! multiplication, each digit read off as the integer part of a value
//! below the base. Large and small values are written in scientific
//! notation. Loops that only stop once the arithmetic reaches a value give
//! up after `ROUNDS` rounds that make no progress toward their digit count.
use crate::arith::{add_spec, div_spec, mul_spec};
use crate::debug_text::push_seq;
use crate::exponents::{log_spec, one_spec, power_spec};
use crate::neg::{magnitude_spec, negate_spec};
use crate::circle::Circle;
use crate::circle_arith::csign_spec;
use crate::ctranscend::{im_part, re_part};
use crate::order::{ge_spec, gt_spec, le_spec, lt_spec, max_spec};
use crate::rounding::{floor_spec, frac_spec};
use crate::scalar::{logical_exp, pack_spec, sc, stored_exp, stored_exp_of, Scalar};
use crate::cmodular::{sub_spec, subtract};
use vstd::arithmetic::power2::*;
use vstd::prelude::*;

verus! {

/// Rounds without progress after which a digit or scaling loop stops.
pub const ROUNDS: u32 = 1024;

/// The integer part of a Scalar as a byte: zero for values that are not
/// normal and positive or that lie below one; 255 from 256 up.
pub open spec fn to_u8_spec(x: Scalar) -> u8 {
    if !x.normal_s() || !x.positive_s() || x.k() < 0 {
        0
    } else if x.k() >= 8 {
        255
    } else {
        (x.w() / pow2((31 - x.k()) as nat) as int) as u8
    }
}

/// The character of a digit: `0`-`9`, then `A` onward (modulo 256).
pub open spec fn digit_char(d: u8) -> char {
    if d < 10 {
        (d + 48) as char
    } else {
        ((d + 55) % 256) as char
    }
}

/// The text of an undefined state, chosen by the high byte of its fraction.
pub open spec fn undefined_symbol(p: i8) -> Seq<char> {
    if p == 0x01 {
        seq!['℘', '±', '∅']
    } else if p == 0x02 {
        seq!['℘', 'm', 'a', 'x']
    } else if p == 0x03 {
        seq!['℘', 'm', 'i', 'n']
    } else if p == 0x04 {
        seq!['℘', 'c', 'l', 'a', 'm', 'p']
    } else if p == 0x05 {
        seq!['℘', '∞', '.']
    } else if p == 0x06 {
        seq!['℘', '⬆', '+', '⬆']
    } else if p == 0x07 {
        seq!['℘', '⬇', '+', '⬇']
    } else if p == 0x08 {
        seq!['℘', '⬆', '+']
    } else if p == 0x09 {
        seq!['℘', '+', '⬆']
    } else if p == 0x0A {
        seq!['℘', '⬆', '×', '⬇']
    } else if p == 0x0B {
        seq!['℘', '⬇', '×', '⬆']
    } else if p == 0x0C {
        seq!['℘', '⬇', '/', '⬇']
    } else if p == 0x0D {
        seq!['℘', '⬆', '/', '⬆']
    } else if p == 0x0E {
        seq!['℘', '&']
    } else if p == 0x0F {
        seq!['℘', '|']
    } else if p == 0x10 {
        seq!['℘', '⊻']
    } else if p == 0x11 {
        seq!['℘', '√', '-']
    } else if p == 0x12 {
        seq!['℘', '√', '↑']
    } else if p == 0x13 {
        seq!['℘', '√', '↓']
    } else if p == 0x14 {
        seq!['℘', '-', '@']
    } else if p == 0x15 {
        seq!['℘', '⬆', '@']
    } else if p == 0x16 {
        seq!['℘', '⬇', '@']
    } else if p == 0x17 {
        seq!['℘', '^', '⬆']
    } else if p == 0x18 {
        seq!['℘', '%', '⬆']
    } else if p == 0x19 {
        seq!['℘', '%', '↓']
    } else if p == 0x1A {
        seq!['℘', '⬆', '%']
    } else if p == 0x1B {
        seq!['℘', '⬆', '%', '⬆']
    } else if p == 0x1C {
        seq!['℘', '↓', '%', '↓']
    } else if p == 0x1D {
        seq!['℘', '⬆', 'm', 'o', 'd']
    } else if p == 0x1E {
        seq!['℘', 'm', 'o', 'd', '↓']
    } else if p == 0x1F {
        seq!['℘']
    } else if p == -2 {
        seq!['℘', '-', '^']
    } else if p == -3 {
        seq!['℘', '⬆', '^']
    } else if p == -4 {
        seq!['℘', '⬇', '^']
    } else if p == -5 {
        seq!['℘', '^', '⬇']
    } else if p == -6 {
        seq!['℘', '@', '1']
    } else if p == -7 {
        seq!['℘', '@', '-']
    } else if p == -8 {
        seq!['℘', '@', '⬆']
    } else if p == -9 {
        seq!['℘', '@', '⬇']
    } else if p == -10 {
        seq!['℘', '0', '^']
    } else if p == -11 {
        seq!['℘', '^', '0']
    } else {
        seq!['℘', '?']
    }
}

impl Scalar {
    /// The integer part as a byte: zero for values that are not normal and
    /// positive or that lie below one; 255 from 256 up.
    pub fn to_u8(&self) -> (r: u8)
        ensures
            r == to_u8_spec(*self),
    {
        if !self.is_normal() || !self.is_positive() {
            return 0;
        }
        let k = logical_exp(self.exponent);
        if k < 0 {
            return 0;
        }
        if k >= 8 {
            return 255;
        }
        proof {
            crate::scalar::lemma_pow2_30_32();
            crate::scalar::lemma_mant(self.fraction);
        }
        let w: u64 = (self.fraction as i64 + 0x1_0000_0000) as u64;
        let s: u64 = (31 - k) as u64;
        let q = w >> s;
        proof {
            vstd::bits::lemma_u64_shr_is_div(w, s);
            assert(w < 0x1_0000_0000 && 24 <= s <= 31 ==> (w >> s) < 256) by (bit_vector);
        }
        q as u8
    }
}

/// The character of a digit.
pub fn digit_to_char(d: u8) -> (c: char)
    ensures
        c == digit_char(d),
{
    if d < 10 {
        (d + 48) as char
    } else {
        d.wrapping_add(55) as char
    }
}

fn symbol_chars(p: i8) -> (r: &'static [char])
    ensures
        r@ == undefined_symbol(p),
{
    if p == 0x01 {
        &['℘', '±', '∅']
    } else if p == 0x02 {
        &['℘', 'm', 'a', 'x']
    } else if p == 0x03 {
        &['℘', 'm', 'i', 'n']
    } else if p == 0x04 {
        &['℘', 'c', 'l', 'a', 'm', 'p']
    } else if p == 0x05 {
        &['℘', '∞', '.']
    } else if p == 0x06 {
        &['℘', '⬆', '+', '⬆']
    } else if p == 0x07 {
        &['℘', '⬇', '+', '⬇']
    } else if p == 0x08 {
        &['℘', '⬆', '+']
    } else if p == 0x09 {
        &['℘', '+', '⬆']
    } else if p == 0x0A {
        &['℘', '⬆', '×', '⬇']
    } else if p == 0x0B {
        &['℘', '⬇', '×', '⬆']
    } else if p == 0x0C {
        &['℘', '⬇', '/', '⬇']
    } else if p == 0x0D {
        &['℘', '⬆', '/', '⬆']
    } else if p == 0x0E {
        &['℘', '&']
    } else if p == 0x0F {
        &['℘', '|']
    } else if p == 0x10 {
        &['℘', '⊻']
    } else if p == 0x11 {
        &['℘', '√', '-']
    } else if p == 0x12 {
        &['℘', '√', '↑']
    } else if p == 0x13 {
        &['℘', '√', '↓']
    } else if p == 0x14 {
        &['℘', '-', '@']
    } else if p == 0x15 {
        &['℘', '⬆', '@']
    } else if p == 0x16 {
        &['℘', '⬇', '@']
    } else if p == 0x17 {
        &['℘', '^', '⬆']
    } else if p == 0x18 {
        &['℘', '%', '⬆']
    } else if p == 0x19 {
        &['℘', '%', '↓']
    } else if p == 0x1A {
        &['℘', '⬆', '%']
    } else if p == 0x1B {
        &['℘', '⬆', '%', '⬆']
    } else if p == 0x1C {
        &['℘', '↓', '%', '↓']
    } else if p == 0x1D {
        &['℘', '⬆', 'm', 'o', 'd']
    } else if p == 0x1E {
        &['℘', 'm', 'o', 'd', '↓']
    } else if p == 0x1F {
        &['℘']
    } else if p == -2 {
        &['℘', '-', '^']
    } else if p == -3 {
        &['℘', '⬆', '^']
    } else if p == -4 {
        &['℘', '⬇', '^']
    } else if p == -5 {
        &['℘', '^', '⬇']
    } else if p == -6 {
        &['℘', '@', '1']
    } else if p == -7 {
        &['℘', '@', '-']
    } else if p == -8 {
        &['℘', '@', '⬆']
    } else if p == -9 {
        &['℘', '@', '⬇']
    } else if p == -10 {
        &['℘', '0', '^']
    } else if p == -11 {
        &['℘', '^', '0']
    } else {
        &['℘', '?']
    }
}

/// One half.
pub open spec fn half_spec() -> Scalar {
    sc(-0x8000_0000i32, stored_exp(-1))
}

/// The digit below a quotient `s` by the base `b`: the rounded remainder
/// `(s - floor(s)) * b + 1/2`, read as an integer.
pub open spec fn rem_digit(s: Scalar, b: Scalar) -> u8 {
    to_u8_spec(add_spec(mul_spec(sub_spec(s, floor_spec(s)), b), half_spec()))
}

/// Digits of an integer part `ip`, least significant first, by repeated
/// division by `b`, with the final digit count. Digits are counted toward
/// `digits` from the first non-zero one; the zero digits before it draw on
/// `fuel` instead.
pub open spec fn int_digits(ip: Scalar, b: Scalar, digits: int, count: int, leading: bool, fuel: nat) -> (Seq<u8>, int)
    decreases digits - count, fuel,
{
    if ip.zero_s() || count >= digits || fuel == 0 {
        (Seq::empty(), count)
    } else {
        let s = div_spec(ip, b);
        let d = rem_digit(s, b);
        if leading && d == 0 {
            let r = int_digits(floor_spec(s), b, digits, count, true, (fuel - 1) as nat);
            (seq![d] + r.0, r.1)
        } else {
            let r = int_digits(floor_spec(s), b, digits, count + 1, false, fuel);
            (seq![d] + r.0, r.1)
        }
    }
}

/// Digits of a fractional part `fp` by repeated multiplication by `b`,
/// each the integer part of the product, which is then subtracted. Zero
/// digits before the first counted digit draw on `fuel`.
pub open spec fn frac_digits(fp: Scalar, b: Scalar, digits: int, count: int, fuel: nat) -> Seq<u8>
    decreases digits - count, fuel,
{
    if count >= digits || fp.zero_s() || fuel == 0 {
        Seq::empty()
    } else {
        let m = mul_spec(fp, b);
        let d = to_u8_spec(m);
        let next = sub_spec(m, pack_spec(d as int, 0));
        if d == 0 && count == 0 {
            seq![d] + frac_digits(next, b, digits, count, (fuel - 1) as nat)
        } else {
            seq![d] + frac_digits(next, b, digits, count + 1, fuel)
        }
    }
}

/// Digits of a whole number `v` (least significant first) by repeated
/// division by `b`, while it stays normal.
pub open spec fn whole_digits(v: Scalar, b: Scalar, fuel: nat) -> Seq<u8>
    decreases fuel,
{
    if !v.normal_s() || fuel == 0 {
        Seq::empty()
    } else {
        let s = div_spec(v, b);
        seq![rem_digit(s, b)] + whole_digits(floor_spec(s), b, (fuel - 1) as nat)
    }
}

/// Digits written most significant first.
pub open spec fn digits_text(ds: Seq<u8>) -> Seq<char> {
    Seq::new(ds.len(), |i: int| digit_char(ds[ds.len() - 1 - i]))
}

/// Mantissa digits of scientific notation from `d` on: each digit the
/// integer part of `s`, which is then subtracted and the rest multiplied by
/// `b`; a point after the first digit; stopping at `digits` digits or when
/// nothing is left. With `dot_first` the point follows the first digit even
/// when nothing is left after it.
pub open spec fn mantissa_digits(s: Scalar, b: Scalar, d: int, digits: int, dot_first: bool) -> Seq<char>
    decreases digits - d,
{
    if d >= digits {
        Seq::empty()
    } else {
        let digit = to_u8_spec(s);
        let next = mul_spec(sub_spec(s, pack_spec(digit as int, 0)), b);
        let dot = if d == 0 {
            seq!['.']
        } else {
            Seq::empty()
        };
        let rest = if next.zero_s() {
            Seq::empty()
        } else {
            mantissa_digits(next, b, d + 1, digits, dot_first)
        };
        if dot_first {
            seq![digit_char(digit)] + dot + rest
        } else if next.zero_s() {
            seq![digit_char(digit)]
        } else {
            seq![digit_char(digit)] + dot + rest
        }
    }
}

fn int_digits_exec(ip: Scalar, b: &Scalar, digits: isize) -> (r: (Vec<u8>, isize))
    ensures
        r.0@ == int_digits(ip, *b, digits as int, 0, true, ROUNDS as nat).0,
        r.1 == int_digits(ip, *b, digits as int, 0, true, ROUNDS as nat).1,
        0 <= r.1,
        r.1 <= digits || r.1 == 0,
{
    let half = Scalar::half();
    let mut out: Vec<u8> = Vec::new();
    let mut ip = ip;
    let mut count: isize = 0;
    let mut leading = true;
    let mut fuel: u32 = ROUNDS;
    let ghost ip0 = ip;
    while !ip.is_zero() && count < digits && fuel > 0
        invariant
            half == half_spec(),
            0 <= count,
            count <= digits || count == 0,
            int_digits(ip0, *b, digits as int, 0, true, ROUNDS as nat).0 == out@ + int_digits(
                ip,
                *b,
                digits as int,
                count as int,
                leading,
                fuel as nat,
            ).0,
            int_digits(ip0, *b, digits as int, 0, true, ROUNDS as nat).1 == int_digits(
                ip,
                *b,
                digits as int,
                count as int,
                leading,
                fuel as nat,
            ).1,
        decreases digits - count, fuel,
    {
        let s = ip.scalar_divide_scalar(b);
        let f = s.floor();
        let d = subtract(&s, &f).scalar_multiply_scalar(b).scalar_add_scalar(&half).to_u8();
        let ghost before = out@;
        out.push(d);
        if leading && d == 0 {
            fuel = fuel - 1;
        } else {
            leading = false;
            count = count + 1;
        }
        ip = f;
        assert(out@ == before + seq![d]);
    }
    proof {
        assert(out@ + Seq::<u8>::empty() == out@);
    }
    (out, count)
}

fn frac_digits_exec(fp: Scalar, b: &Scalar, digits: isize, count: isize) -> (r: Vec<u8>)
    requires
        0 <= count,
    ensures
        r@ == frac_digits(fp, *b, digits as int, count as int, ROUNDS as nat),
{
    let mut out: Vec<u8> = Vec::new();
    let mut fp = fp;
    let mut count = count;
    let mut fuel: u32 = ROUNDS;
    let ghost fp0 = fp;
    let ghost count0 = count;
    while count < digits && !fp.is_zero() && fuel > 0
        invariant
            0 <= count,
            frac_digits(fp0, *b, digits as int, count0 as int, ROUNDS as nat) == out@ + frac_digits(
                fp,
                *b,
                digits as int,
                count as int,
                fuel as nat,
            ),
        decreases digits - count, fuel,
    {
        let m = fp.scalar_multiply_scalar(b);
        let d = m.to_u8();
        fp = subtract(&m, &Scalar::from_int(d as i64));
        let ghost before = out@;
        out.push(d);
        if d == 0 && count == 0 {
            fuel = fuel - 1;
        } else {
            count = count + 1;
        }
        assert(out@ == before + seq![d]);
    }
    proof {
        assert(out@ + Seq::<u8>::empty() == out@);
    }
    out
}

fn whole_digits_exec(v: Scalar, b: &Scalar) -> (r: Vec<u8>)
    ensures
        r@ == whole_digits(v, *b, ROUNDS as nat),
{
    let half = Scalar::half();
    let mut out: Vec<u8> = Vec::new();
    let mut v = v;
    let mut fuel: u32 = ROUNDS;
    let ghost v0 = v;
    while v.is_normal() && fuel > 0
        invariant
            half == half_spec(),
            whole_digits(v0, *b, ROUNDS as nat) == out@ + whole_digits(v, *b, fuel as nat),
        decreases fuel,
    {
        let s = v.scalar_divide_scalar(b);
        let f = s.floor();
        let d = subtract(&s, &f).scalar_multiply_scalar(b).scalar_add_scalar(&half).to_u8();
        let ghost before = out@;
        out.push(d);
        v = f;
        fuel = fuel - 1;
        assert(out@ == before + seq![d]);
    }
    proof {
        assert(out@ + Seq::<u8>::empty() == out@);
    }
    out
}

fn push_digits(out: &mut Vec<char>, ds: &Vec<u8>)
    ensures
        final(out)@ == old(out)@ + digits_text(ds@),
{
    let n = ds.len();
    let mut j: usize = 0;
    while j < n
        invariant
            n == ds@.len(),
            j <= n,
            out@ == old(out)@ + Seq::new(j as nat, |i: int| digit_char(ds@[n - 1 - i])),
        decreases n - j,
    {
        let ghost before = out@;
        out.push(digit_to_char(ds[n - 1 - j]));
        j = j + 1;
        assert(out@ =~= old(out)@ + Seq::new(j as nat, |i: int| digit_char(ds@[n - 1 - i])));
    }
    assert(Seq::new(n as nat, |i: int| digit_char(ds@[n - 1 - i])) =~= digits_text(ds@));
}

fn push_mantissa(out: &mut Vec<char>, s: Scalar, b: &Scalar, digits: isize, dot_first: bool)
    ensures
        final(out)@ == old(out)@ + mantissa_digits(s, *b, 0, digits as int, dot_first),
{
    let ghost s0 = s;
    let mut s = s;
    let mut d: isize = 0;
    let mut stop = false;
    while d < digits && !stop
        invariant
            0 <= d,
            stop ==> out@ == old(out)@ + mantissa_digits(s0, *b, 0, digits as int, dot_first),
            !stop ==> old(out)@ + mantissa_digits(s0, *b, 0, digits as int, dot_first) == out@
                + mantissa_digits(s, *b, d as int, digits as int, dot_first),
        decreases digits - d,
    {
        let digit = s.to_u8();
        let next = subtract(&s, &Scalar::from_int(digit as i64)).scalar_multiply_scalar(b);
        let ghost before = out@;
        let ghost tail = mantissa_digits(next, *b, d + 1, digits as int, dot_first);
        out.push(digit_to_char(digit));
        if dot_first && d == 0 {
            out.push('.');
        }
        if next.is_zero() {
            assert(out@ =~= before + mantissa_digits(s, *b, d as int, digits as int, dot_first));
            stop = true;
        } else {
            if !dot_first && d == 0 {
                out.push('.');
            }
            assert(out@ + tail =~= before + mantissa_digits(s, *b, d as int, digits as int, dot_first));
            s = next;
        }
        d = d + 1;
    }
    if !stop {
        assert(out@ + Seq::<char>::empty() =~= out@);
    }
}

/// Digits written in the order given.
pub open spec fn forward_text(ds: Seq<u8>) -> Seq<char> {
    Seq::new(ds.len(), |i: int| digit_char(ds[i]))
}

/// `b^n` for an integer `n`.
pub open spec fn pow_spec(b: Scalar, n: int) -> Scalar {
    power_spec(b, pack_spec(n, 0))
}

/// The digits of a non-negative value in plain notation: the integer part
/// (`0` when it is zero), then a point and the fractional digits when
/// there is a fractional part; at most `digits` digits are counted.
pub open spec fn plain_digits(m: Scalar, b: Scalar, digits: int) -> Seq<char> {
    let ip = floor_spec(m);
    let fp = sub_spec(m, ip);
    let id = if ip.zero_s() {
        (seq![0u8], 0int)
    } else {
        int_digits(ip, b, digits, 0, true, ROUNDS as nat)
    };
    digits_text(id.0) + if fp.zero_s() {
        Seq::empty()
    } else {
        seq!['.'] + forward_text(frac_digits(fp, b, digits, id.1, ROUNDS as nat))
    }
}

/// The exponent digits of scientific notation: `0` for zero, otherwise the
/// digits of the whole number.
pub open spec fn power_text(p: Scalar, b: Scalar) -> Seq<char> {
    if p.zero_s() {
        seq!['0']
    } else {
        digits_text(whole_digits(p, b, ROUNDS as nat))
    }
}

/// Raises the power while the scaled value `x / b^p` reaches the base.
pub open spec fn raise_power(x: Scalar, b: Scalar, p: Scalar, fuel: nat) -> Scalar
    decreases fuel,
{
    if fuel > 0 && ge_spec(magnitude_spec(scaled_down(x, b, p)), b) {
        raise_power(x, b, add_spec(p, one_spec()), (fuel - 1) as nat)
    } else {
        p
    }
}

/// Lowers the power while the scaled value `x / b^p` stays below one.
pub open spec fn lower_power(x: Scalar, b: Scalar, p: Scalar, fuel: nat) -> Scalar
    decreases fuel,
{
    if fuel > 0 && lt_spec(magnitude_spec(scaled_down(x, b, p)), one_spec()) {
        lower_power(x, b, sub_spec(p, one_spec()), (fuel - 1) as nat)
    } else {
        p
    }
}

/// `b^p` for a Scalar `p`.
pub open spec fn pow_scalar(b: Scalar, p: Scalar) -> Scalar {
    power_spec(b, p)
}

/// `x / b^p`.
#[verifier::opaque]
pub open spec fn scaled_down(x: Scalar, b: Scalar, p: Scalar) -> Scalar {
    div_spec(x, pow_scalar(b, p))
}

/// `x * b^p`.
#[verifier::opaque]
pub open spec fn scaled_up(x: Scalar, b: Scalar, p: Scalar) -> Scalar {
    mul_spec(x, pow_scalar(b, p))
}

/// Scientific notation of a large normal value: `±d.ddd×B^+e`, with the
/// power found from `floor(log_b |x|)` and adjusted until the scaled value
/// lies in `[1, b)`.
pub open spec fn scalar_big_text(x: Scalar, b: Scalar, base: u8, digits: int) -> Seq<char> {
    let mag = if x == sc(0i32, stored_exp(127)) {
        sc(-1i32, stored_exp(127))
    } else {
        magnitude_spec(x)
    };
    let p0 = floor_spec(log_spec(mag, b));
    let p1 = raise_power(x, b, p0, ROUNDS as nat);
    let p = lower_power(x, b, p1, ROUNDS as nat);
    let scaled = scaled_down(x, b, p);
    let sign = if scaled.negative_s() {
        '-'
    } else {
        '+'
    };
    let m = if scaled.negative_s() {
        negate_spec(scaled)
    } else {
        scaled
    };
    seq![sign] + mantissa_digits(m, b, 0, digits, true) + seq!['×', digit_char(base), '^', '+']
        + power_text(p, b)
}

/// Steps the power down while `mag * b^p` is exploded.
pub open spec fn shrink_power(mag: Scalar, b: Scalar, p: Scalar, fuel: nat) -> Scalar
    decreases fuel,
{
    if fuel > 0 && scaled_up(mag, b, p).exploded_s() {
        shrink_power(mag, b, sub_spec(p, one_spec()), (fuel - 1) as nat)
    } else {
        p
    }
}

/// Multiplies the scaled value by the base, raising the power, while it
/// stays below one.
pub open spec fn grow_scaled(s: Scalar, b: Scalar, p: Scalar, fuel: nat) -> (Scalar, Scalar)
    decreases fuel,
{
    if fuel > 0 && lt_spec(magnitude_spec(s), one_spec()) {
        grow_scaled(mul_spec(s, b), b, add_spec(p, one_spec()), (fuel - 1) as nat)
    } else {
        (s, p)
    }
}

/// Lowers the power while `mag * b^p` exceeds the base.
pub open spec fn fall_power(mag: Scalar, b: Scalar, p: Scalar, fuel: nat) -> Scalar
    decreases fuel,
{
    if fuel > 0 && gt_spec(magnitude_spec(scaled_up(mag, b, p)), b) {
        fall_power(mag, b, sub_spec(p, one_spec()), (fuel - 1) as nat)
    } else {
        p
    }
}

/// Raises the power while `mag * b^p` stays below one.
pub open spec fn rise_power(mag: Scalar, b: Scalar, p: Scalar, fuel: nat) -> Scalar
    decreases fuel,
{
    if fuel > 0 && lt_spec(magnitude_spec(scaled_up(mag, b, p)), one_spec()) {
        rise_power(mag, b, add_spec(p, one_spec()), (fuel - 1) as nat)
    } else {
        p
    }
}

/// The power and scaled value for scientific notation of a small value:
/// from `-floor(log_b |x|)`, stepped down while the scaled value explodes
/// and then scaled up by the base, or adjusted until it lies in `[1, b]`.
pub open spec fn small_scaling(mag: Scalar, b: Scalar) -> (Scalar, Scalar) {
    let p0 = negate_spec(floor_spec(log_spec(mag, b)));
    if scaled_up(mag, b, p0).exploded_s() {
        let p1 = shrink_power(mag, b, p0, ROUNDS as nat);
        grow_scaled(scaled_up(mag, b, p1), b, p1, ROUNDS as nat)
    } else {
        let p1 = fall_power(mag, b, p0, ROUNDS as nat);
        let p2 = rise_power(mag, b, p1, ROUNDS as nat);
        (scaled_up(mag, b, p2), p2)
    }
}

/// Scientific notation of a small normal value: `±d.ddd×B^-e`.
pub open spec fn scalar_small_text(x: Scalar, b: Scalar, base: u8, digits: int) -> Seq<char> {
    let sp = small_scaling(magnitude_spec(x), b);
    seq![
        if x.negative_s() {
            '-'
        } else {
            '+'
        },
    ] + mantissa_digits(sp.0, b, 0, digits, true) + seq!['×', digit_char(base), '^', '-']
        + power_text(sp.1, b)
}

/// Display text of a Scalar in base `base` with at most `digits` digits:
/// the symbol of an undefined state; `⦉∞⦊`, `⦉±↑⦊`, `⦉±↓⦊` or `0` for the
/// other non-normal states; scientific notation at or beyond `b^digits`
/// and below `b^-4` in magnitude; otherwise the sign and plain digits.
pub open spec fn scalar_text(x: Scalar, base: u8, digits: int) -> Seq<char> {
    let b = pack_spec(base as int, 0);
    let big = pow_spec(b, digits);
    let small = pow_spec(b, -4);
    if x.undefined_s() {
        undefined_symbol((x.fraction as int / 0x100_0000) as i8)
    } else if !x.normal_s() {
        if x.infinite_s() {
            seq!['⦉', '∞', '⦊']
        } else if x.exploded_s() {
            seq![
                '⦉',
                if x.negative_s() {
                    '-'
                } else {
                    '+'
                },
                '↑',
                '⦊',
            ]
        } else if x.vanished_s() {
            seq![
                '⦉',
                if x.negative_s() {
                    '-'
                } else {
                    '+'
                },
                '↓',
                '⦊',
            ]
        } else {
            seq!['0']
        }
    } else if le_spec(x, negate_spec(big)) || ge_spec(x, big) {
        scalar_big_text(x, b, base, digits)
    } else if lt_spec(x, small) && gt_spec(x, negate_spec(small)) {
        scalar_small_text(x, b, base, digits)
    } else {
        seq![
            if x.negative_s() {
                '-'
            } else {
                '+'
            },
        ] + plain_digits(magnitude_spec(x), b, digits)
    }
}

fn negated(x: &Scalar) -> (r: Scalar)
    ensures
        r == negate_spec(*x),
{
    let mut r = *x;
    r.scalar_negate();
    r
}

fn push_forward(out: &mut Vec<char>, ds: &Vec<u8>)
    ensures
        final(out)@ == old(out)@ + forward_text(ds@),
{
    let n = ds.len();
    let mut j: usize = 0;
    while j < n
        invariant
            n == ds@.len(),
            j <= n,
            out@ == old(out)@ + Seq::new(j as nat, |i: int| digit_char(ds@[i])),
        decreases n - j,
    {
        out.push(digit_to_char(ds[j]));
        j = j + 1;
        assert(out@ =~= old(out)@ + Seq::new(j as nat, |i: int| digit_char(ds@[i])));
    }
    assert(Seq::new(n as nat, |i: int| digit_char(ds@[i])) =~= forward_text(ds@));
}

fn push_plain(out: &mut Vec<char>, m: &Scalar, b: &Scalar, digits: isize)
    ensures
        final(out)@ == old(out)@ + plain_digits(*m, *b, digits as int),
{
    let ip = m.floor();
    let fp = subtract(m, &ip);
    let mut count: isize = 0;
    if ip.is_zero() {
        let mut z: Vec<u8> = Vec::new();
        z.push(0u8);
        push_digits(out, &z);
        assert(z@ =~= seq![0u8]);
    } else {
        let (ds, c) = int_digits_exec(ip, b, digits);
        push_digits(out, &ds);
        count = c;
    }
    let ghost mid = out@;
    if !fp.is_zero() {
        out.push('.');
        let fs = frac_digits_exec(fp, b, digits, count);
        push_forward(out, &fs);
        assert(out@ =~= mid + (seq!['.'] + forward_text(fs@)));
    } else {
        assert(out@ =~= mid + Seq::<char>::empty());
    }
}

fn push_power(out: &mut Vec<char>, p: &Scalar, b: &Scalar)
    ensures
        final(out)@ == old(out)@ + power_text(*p, *b),
{
    if p.is_zero() {
        out.push('0');
    } else {
        let ds = whole_digits_exec(*p, b);
        push_digits(out, &ds);
    }
}

fn pow_int(b: &Scalar, n: isize) -> (r: Scalar)
    ensures
        r == pow_spec(*b, n as int),
{
    b.scalar_power_scalar(&Scalar::from_int(n as i64))
}

fn scaled_down_exec(x: &Scalar, b: &Scalar, p: &Scalar) -> (r: Scalar)
    ensures
        r == scaled_down(*x, *b, *p),
{
    proof {
        reveal(scaled_down);
    }
    x.scalar_divide_scalar(&b.scalar_power_scalar(p))
}

fn scaled_up_exec(x: &Scalar, b: &Scalar, p: &Scalar) -> (r: Scalar)
    ensures
        r == scaled_up(*x, *b, *p),
{
    proof {
        reveal(scaled_up);
    }
    x.scalar_multiply_scalar(&b.scalar_power_scalar(p))
}

/// The largest magnitude that stands for `|x|` (the most negative value
/// has no positive counterpart).
pub open spec fn big_magnitude(x: Scalar) -> Scalar {
    if x == sc(0i32, stored_exp(127)) {
        sc(-1i32, stored_exp(127))
    } else {
        magnitude_spec(x)
    }
}

fn big_scaling(x: &Scalar, b: &Scalar) -> (r: (Scalar, Scalar))
    ensures
        r.0 == lower_power(
            *x,
            *b,
            raise_power(*x, *b, floor_spec(log_spec(big_magnitude(*x), *b)), ROUNDS as nat),
            ROUNDS as nat,
        ),
        r.1 == scaled_down(*x, *b, r.0),
{
    let one = Scalar::one();
    let mag = if x.fraction == 0 && x.exponent == stored_exp_of(127) {
        Scalar::max_value()
    } else {
        x.magnitude()
    };
    let p0 = mag.scalar_logarithm_scalar(b).floor();
    let mut p = p0;
    let mut fuel: u32 = ROUNDS;
    let mut scaled = scaled_down_exec(x, b, &p);
    while fuel > 0 && scaled.magnitude().at_least(b)
        invariant
            one == one_spec(),
            scaled == scaled_down(*x, *b, p),
            raise_power(*x, *b, p0, ROUNDS as nat) == raise_power(*x, *b, p, fuel as nat),
        decreases fuel,
    {
        p = p.scalar_add_scalar(&one);
        fuel = fuel - 1;
        scaled = scaled_down_exec(x, b, &p);
    }
    let ghost p1 = p;
    fuel = ROUNDS;
    while fuel > 0 && scaled.magnitude().less_than(&one)
        invariant
            one == one_spec(),
            scaled == scaled_down(*x, *b, p),
            lower_power(*x, *b, p1, ROUNDS as nat) == lower_power(*x, *b, p, fuel as nat),
        decreases fuel,
    {
        p = subtract(&p, &one);
        fuel = fuel - 1;
        scaled = scaled_down_exec(x, b, &p);
    }
    (p, scaled)
}

fn push_sign_mantissa(out: &mut Vec<char>, s: &Scalar, b: &Scalar, digits: isize)
    ensures
        final(out)@ == old(out)@ + seq![
            if s.negative_s() {
                '-'
            } else {
                '+'
            },
        ] + mantissa_digits(
            if s.negative_s() {
                negate_spec(*s)
            } else {
                *s
            },
            *b,
            0,
            digits as int,
            true,
        ),
{
    let ghost start = out@;
    let m = if s.is_negative() {
        out.push('-');
        negated(s)
    } else {
        out.push('+');
        *s
    };
    let ghost mid = out@;
    push_mantissa(out, m, b, digits, true);
    assert(out@ =~= start + (mid.subrange(start.len() as int, mid.len() as int)) + mantissa_digits(
        m,
        *b,
        0,
        digits as int,
        true,
    ));
}

fn scalar_big(out: &mut Vec<char>, x: &Scalar, b: &Scalar, base: u8, digits: isize)
    ensures
        final(out)@ == old(out)@ + scalar_big_text(*x, *b, base, digits as int),
{
    let (p, scaled) = big_scaling(x, b);
    let ghost start = out@;
    push_sign_mantissa(out, &scaled, b, digits);
    push_seq(out, &['×', digit_to_char(base), '^', '+']);
    push_power(out, &p, b);
    assert(out@ =~= start + scalar_big_text(*x, *b, base, digits as int));
}

fn small_scaling_exec(mag: &Scalar, b: &Scalar) -> (r: (Scalar, Scalar))
    ensures
        r == small_scaling(*mag, *b),
{
    let one = Scalar::one();
    let p0 = negated(&mag.scalar_logarithm_scalar(b).floor());
    let mut p = p0;
    let mut fuel: u32 = ROUNDS;
    let mut scaled = scaled_up_exec(mag, b, &p);
    if scaled.exploded() {
        while fuel > 0 && scaled.exploded()
            invariant
                one == one_spec(),
                scaled == scaled_up(*mag, *b, p),
                shrink_power(*mag, *b, p0, ROUNDS as nat) == shrink_power(*mag, *b, p, fuel as nat),
            decreases fuel,
        {
            p = subtract(&p, &one);
            fuel = fuel - 1;
            scaled = scaled_up_exec(mag, b, &p);
        }
        let ghost p1 = p;
        fuel = ROUNDS;
        while fuel > 0 && scaled.magnitude().less_than(&one)
            invariant
                one == one_spec(),
                grow_scaled(scaled_up(*mag, *b, p1), *b, p1, ROUNDS as nat) == grow_scaled(
                    scaled,
                    *b,
                    p,
                    fuel as nat,
                ),
            decreases fuel,
        {
            p = p.scalar_add_scalar(&one);
            fuel = fuel - 1;
            scaled = scaled.scalar_multiply_scalar(b);
        }
    } else {
        while fuel > 0 && scaled.magnitude().greater_than(b)
            invariant
                one == one_spec(),
                scaled == scaled_up(*mag, *b, p),
                fall_power(*mag, *b, p0, ROUNDS as nat) == fall_power(*mag, *b, p, fuel as nat),
            decreases fuel,
        {
            p = subtract(&p, &one);
            fuel = fuel - 1;
            scaled = scaled_up_exec(mag, b, &p);
        }
        let ghost p1 = p;
        fuel = ROUNDS;
        while fuel > 0 && scaled.magnitude().less_than(&one)
            invariant
                one == one_spec(),
                scaled == scaled_up(*mag, *b, p),
                rise_power(*mag, *b, p1, ROUNDS as nat) == rise_power(*mag, *b, p, fuel as nat),
            decreases fuel,
        {
            p = p.scalar_add_scalar(&one);
            fuel = fuel - 1;
            scaled = scaled_up_exec(mag, b, &p);
        }
    }
    (scaled, p)
}

fn scalar_small(out: &mut Vec<char>, x: &Scalar, b: &Scalar, base: u8, digits: isize)
    ensures
        final(out)@ == old(out)@ + scalar_small_text(*x, *b, base, digits as int),
{
    let (scaled, p) = small_scaling_exec(&x.magnitude(), b);
    let ghost start = out@;
    out.push(
        if x.is_negative() {
            '-'
        } else {
            '+'
        },
    );
    push_mantissa(out, scaled, b, digits, true);
    push_seq(out, &['×', digit_to_char(base), '^', '-']);
    push_power(out, &p, b);
    assert(out@ =~= start + scalar_small_text(*x, *b, base, digits as int));
}

impl Scalar {
    /// Display text in base `base` (2 to 36) with at most `digits` digits:
    /// the symbol of an undefined state; `⦉∞⦊`, `⦉±↑⦊`, `⦉±↓⦊` or `0` for
    /// the other non-normal states; scientific notation `±d.ddd×B^±e` at or
    /// beyond `base^digits` and below `base^-4` in magnitude; otherwise the
    /// sign, the integer digits, and a point and fractional digits when
    /// there is a fractional part.
    pub fn format_scalar(&self, base: u8, digits: isize) -> (r: Vec<char>)
        ensures
            r@ == scalar_text(*self, base, digits as int),
    {
        let mut out: Vec<char> = Vec::new();
        if self.is_undefined() {
            push_seq(&mut out, symbol_chars(self.prefix()));
            proof {
                assert(out@ =~= scalar_text(*self, base, digits as int));
            }
            return out;
        }
        if !self.is_normal() {
            if self.is_infinite() {
                push_seq(&mut out, &['⦉', '∞', '⦊']);
            } else if self.exploded() {
                let sign = if self.is_negative() {
                    '-'
                } else {
                    '+'
                };
                push_seq(&mut out, &['⦉', sign, '↑', '⦊']);
            } else if self.vanished() {
                let sign = if self.is_negative() {
                    '-'
                } else {
                    '+'
                };
                push_seq(&mut out, &['⦉', sign, '↓', '⦊']);
            } else {
                out.push('0');
            }
            proof {
                assert(out@ =~= scalar_text(*self, base, digits as int));
            }
            return out;
        }
        let b = Scalar::from_int(base as i64);
        let big = pow_int(&b, digits);
        let small = pow_int(&b, -4);
        if self.at_most(&negated(&big)) || self.at_least(&big) {
            scalar_big(&mut out, self, &b, base, digits);
        } else if self.less_than(&small) && self.greater_than(&negated(&small)) {
            scalar_small(&mut out, self, &b, base, digits);
        } else {
            out.push(
                if self.is_negative() {
                    '-'
                } else {
                    '+'
                },
            );
            push_plain(&mut out, &self.magnitude(), &b, digits);
        }
        proof {
            assert(out@ =~= scalar_text(*self, base, digits as int));
        }
        out
    }
}

/// The larger magnitude of two parts.
pub open spec fn pair_mag(sr: Scalar, si: Scalar) -> Scalar {
    max_spec(magnitude_spec(sr), magnitude_spec(si))
}

/// Whether `b^p` is exploded.
#[verifier::opaque]
pub open spec fn pow_exploded(b: Scalar, p: Scalar) -> bool {
    pow_scalar(b, p).exploded_s()
}

/// Raises a shared power while the larger scaled part reaches the base.
pub open spec fn raise_cpower(r: Scalar, i: Scalar, b: Scalar, p: Scalar, fuel: nat) -> Scalar
    decreases fuel,
{
    if fuel > 0 && ge_spec(pair_mag(scaled_down(r, b, p), scaled_down(i, b, p)), b) {
        raise_cpower(r, i, b, add_spec(p, one_spec()), (fuel - 1) as nat)
    } else {
        p
    }
}

/// Lowers a shared power while the larger scaled part stays below one.
pub open spec fn lower_cpower(r: Scalar, i: Scalar, b: Scalar, p: Scalar, fuel: nat) -> Scalar
    decreases fuel,
{
    if fuel > 0 && lt_spec(pair_mag(scaled_down(r, b, p), scaled_down(i, b, p)), one_spec()) {
        lower_cpower(r, i, b, sub_spec(p, one_spec()), (fuel - 1) as nat)
    } else {
        p
    }
}

/// The shared power for scientific notation of a large Circle.
#[verifier::opaque]
pub open spec fn circle_big_power(r: Scalar, i: Scalar, b: Scalar) -> Scalar {
    let m = max_spec(big_magnitude(r), big_magnitude(i));
    let p0 = floor_spec(log_spec(m, b));
    lower_cpower(r, i, b, raise_cpower(r, i, b, p0, ROUNDS as nat), ROUNDS as nat)
}

/// Steps a power down while `b^p` is exploded.
pub open spec fn unexplode_power(b: Scalar, p: Scalar, fuel: nat) -> Scalar
    decreases fuel,
{
    if fuel > 0 && pow_exploded(b, p) {
        unexplode_power(b, sub_spec(p, one_spec()), (fuel - 1) as nat)
    } else {
        p
    }
}

/// Multiplies both scaled parts by the base, raising the power, while the
/// larger stays below one.
pub open spec fn grow_cscaled(sr: Scalar, si: Scalar, b: Scalar, p: Scalar, fuel: nat) -> (
    Scalar,
    Scalar,
    Scalar,
)
    decreases fuel,
{
    if fuel > 0 && lt_spec(pair_mag(sr, si), one_spec()) {
        grow_cscaled(mul_spec(sr, b), mul_spec(si, b), b, add_spec(p, one_spec()), (fuel - 1) as nat)
    } else {
        (sr, si, p)
    }
}

/// Lowers a shared power while the larger part of `x * b^p` reaches the base.
pub open spec fn fall_cpower(r: Scalar, i: Scalar, b: Scalar, p: Scalar, fuel: nat) -> Scalar
    decreases fuel,
{
    if fuel > 0 && ge_spec(pair_mag(scaled_up(r, b, p), scaled_up(i, b, p)), b) {
        fall_cpower(r, i, b, sub_spec(p, one_spec()), (fuel - 1) as nat)
    } else {
        p
    }
}

/// Raises a shared power while the larger part of `x * b^p` stays below one.
pub open spec fn rise_cpower(r: Scalar, i: Scalar, b: Scalar, p: Scalar, fuel: nat) -> Scalar
    decreases fuel,
{
    if fuel > 0 && lt_spec(pair_mag(scaled_up(r, b, p), scaled_up(i, b, p)), one_spec()) {
        rise_cpower(r, i, b, add_spec(p, one_spec()), (fuel - 1) as nat)
    } else {
        p
    }
}

/// The scaled parts and the power for scientific notation of a small
/// Circle.
pub open spec fn circle_small_scaling(r: Scalar, i: Scalar, b: Scalar) -> (Scalar, Scalar, Scalar) {
    let m = max_spec(big_magnitude(r), big_magnitude(i));
    let p0 = negate_spec(floor_spec(log_spec(m, b)));
    if pow_exploded(b, p0) {
        let p1 = unexplode_power(b, p0, ROUNDS as nat);
        grow_cscaled(scaled_up(r, b, p1), scaled_up(i, b, p1), b, p1, ROUNDS as nat)
    } else {
        let p1 = fall_cpower(r, i, b, p0, ROUNDS as nat);
        let p2 = rise_cpower(r, i, b, p1, ROUNDS as nat);
        (scaled_up(r, b, p2), scaled_up(i, b, p2), p2)
    }
}

/// A scaled part in scientific notation: its sign (none for zero) and
/// mantissa digits, the point after the first digit only when more follow.
pub open spec fn part_mantissa(s: Scalar, b: Scalar, digits: int) -> Seq<char> {
    if s.negative_s() {
        seq!['-'] + mantissa_digits(negate_spec(s), b, 0, digits, false)
    } else if s.positive_s() {
        seq!['+'] + mantissa_digits(s, b, 0, digits, false)
    } else {
        mantissa_digits(s, b, 0, digits, false)
    }
}

/// A part in plain notation: its sign (none for zero) and plain digits.
pub open spec fn part_plain(v: Scalar, b: Scalar, digits: int) -> Seq<char> {
    (if v.negative_s() {
        seq!['-']
    } else if v.positive_s() {
        seq!['+']
    } else {
        Seq::empty()
    }) + plain_digits(magnitude_spec(v), b, digits)
}

/// The leading digits of a direction component `m` in `[0, 1]`, a point
/// after the first.
pub open spec fn dir_digits(m: Scalar, b: Scalar, d: int, digits: int) -> Seq<char>
    decreases digits - d,
{
    if d >= digits {
        Seq::empty()
    } else {
        (if d == 1 {
            seq!['.']
        } else {
            Seq::empty()
        }) + seq![digit_char(to_u8_spec(m))] + dir_digits(mul_spec(frac_spec(m), b), b, d + 1, digits)
    }
}

/// One part of an escaped Circle: the arrow of its class, then the sign of
/// the part and the digits of its direction component (or `0`), and `%`
/// after a vanished part.
pub open spec fn escaped_part(v: Scalar, m: Scalar, b: Scalar, digits: int, arrow: char, pct: bool) -> Seq<char> {
    seq![arrow] + (if m.normal_s() {
        seq![
            if v.negative_s() {
                '-'
            } else {
                '+'
            },
        ] + dir_digits(m, b, 0, digits)
    } else {
        seq!['0']
    }) + if pct {
        seq!['%']
    } else {
        Seq::empty()
    }
}

/// The power suffix of scientific notation of a large Circle: none for a
/// zero power, otherwise `×B^` and the signed power.
pub open spec fn big_suffix(p: Scalar, b: Scalar, base: u8) -> Seq<char> {
    if p.zero_s() {
        Seq::empty()
    } else if p.negative_s() {
        seq!['×', digit_char(base), '^', '-'] + power_text(negate_spec(p), b)
    } else {
        seq!['×', digit_char(base), '^', '+'] + power_text(p, b)
    }
}

/// Scientific notation of a large normal Circle.
#[verifier::opaque]
pub open spec fn circle_big_text(z: Circle, b: Scalar, base: u8, digits: int) -> Seq<char> {
    let r = re_part(z);
    let i = im_part(z);
    let p = circle_big_power(r, i, b);
    seq!['⦇'] + part_mantissa(scaled_down(r, b, p), b, digits) + seq![','] + part_mantissa(
        scaled_down(i, b, p),
        b,
        digits,
    ) + seq!['⦈'] + big_suffix(p, b, base)
}

/// Scientific notation of a small normal Circle.
#[verifier::opaque]
pub open spec fn circle_small_text(z: Circle, b: Scalar, base: u8, digits: int) -> Seq<char> {
    let sp = circle_small_scaling(re_part(z), im_part(z), b);
    seq!['⦇'] + part_mantissa(sp.0, b, digits) + seq![','] + part_mantissa(sp.1, b, digits)
        + seq!['⦈'] + if sp.2.zero_s() {
        Seq::empty()
    } else {
        seq!['×', digit_char(base), '^', '-'] + power_text(sp.2, b)
    }
}

/// The text after `⦇` of a Circle that is neither normal nor undefined.
#[verifier::opaque]
pub open spec fn circle_escaped_text(z: Circle, b: Scalar, digits: int) -> Seq<char> {
    let r = re_part(z);
    let i = im_part(z);
    let dir = csign_spec(z);
    let mr = magnitude_spec(re_part(dir));
    let mi = magnitude_spec(im_part(dir));
    if z.infinite_c() {
        seq!['∞']
    } else if z.exploded_c() {
        escaped_part(r, mr, b, digits, '↑', false) + seq![','] + escaped_part(
            i,
            mi,
            b,
            digits,
            '↑',
            false,
        )
    } else if z.n2_c() {
        escaped_part(r, mr, b, digits, '↓', true) + seq![','] + escaped_part(
            i,
            mi,
            b,
            digits,
            '↓',
            true,
        )
    } else {
        seq!['0', '⦈']
    }
}

/// Display text of a Circle in base `base` with at most `digits` digits per
/// part: the symbol of an undefined state; otherwise after `⦇`: `∞` for
/// infinity; the arrow, sign and direction digits of each part of an
/// escaped Circle; `0⦈` for zero; scientific notation with a shared power
/// when a part reaches `base^digits` in magnitude or both lie below
/// `base^-4`; otherwise both parts in plain notation, `⦇re,im⦈`.
pub open spec fn circle_text(z: Circle, base: u8, digits: int) -> Seq<char> {
    let b = pack_spec(base as int, 0);
    let big = pow_spec(b, digits);
    let small = pow_spec(b, -4);
    let r = re_part(z);
    let i = im_part(z);
    if z.undefined_c() {
        undefined_symbol((z.real as int / 0x100_0000) as i8)
    } else if !z.normal_c() {
        seq!['⦇'] + circle_escaped_text(z, b, digits)
    } else if le_spec(r, negate_spec(big)) || ge_spec(r, big) || le_spec(i, negate_spec(big))
        || ge_spec(i, big) {
        circle_big_text(z, b, base, digits)
    } else if lt_spec(pair_mag(r, i), small) {
        circle_small_text(z, b, base, digits)
    } else {
        seq!['⦇'] + part_plain(r, b, digits) + seq![','] + part_plain(i, b, digits) + seq!['⦈']
    }
}

fn pow_exploded_exec(b: &Scalar, p: &Scalar) -> (r: bool)
    ensures
        r == pow_exploded(*b, *p),
{
    proof {
        reveal(pow_exploded);
    }
    b.scalar_power_scalar(p).exploded()
}

fn circle_big_scaling(r: &Scalar, i: &Scalar, b: &Scalar) -> (out: (Scalar, Scalar, Scalar))
    ensures
        out.2 == circle_big_power(*r, *i, *b),
        out.0 == scaled_down(*r, *b, out.2),
        out.1 == scaled_down(*i, *b, out.2),
{
    proof {
        reveal(circle_big_power);
    }
    let one = Scalar::one();
    let mr = if r.fraction == 0 && r.exponent == stored_exp_of(127) {
        Scalar::max_value()
    } else {
        r.magnitude()
    };
    let mi = if i.fraction == 0 && i.exponent == stored_exp_of(127) {
        Scalar::max_value()
    } else {
        i.magnitude()
    };
    let p0 = mr.max(mi).scalar_logarithm_scalar(b).floor();
    let mut p = p0;
    let mut fuel: u32 = ROUNDS;
    let mut sr = scaled_down_exec(r, b, &p);
    let mut si = scaled_down_exec(i, b, &p);
    while fuel > 0 && sr.magnitude().max(si.magnitude()).at_least(b)
        invariant
            one == one_spec(),
            sr == scaled_down(*r, *b, p),
            si == scaled_down(*i, *b, p),
            raise_cpower(*r, *i, *b, p0, ROUNDS as nat) == raise_cpower(*r, *i, *b, p, fuel as nat),
        decreases fuel,
    {
        p = p.scalar_add_scalar(&one);
        fuel = fuel - 1;
        sr = scaled_down_exec(r, b, &p);
        si = scaled_down_exec(i, b, &p);
    }
    let ghost p1 = p;
    fuel = ROUNDS;
    while fuel > 0 && sr.magnitude().max(si.magnitude()).less_than(&one)
        invariant
            one == one_spec(),
            sr == scaled_down(*r, *b, p),
            si == scaled_down(*i, *b, p),
            lower_cpower(*r, *i, *b, p1, ROUNDS as nat) == lower_cpower(*r, *i, *b, p, fuel as nat),
        decreases fuel,
    {
        p = subtract(&p, &one);
        fuel = fuel - 1;
        sr = scaled_down_exec(r, b, &p);
        si = scaled_down_exec(i, b, &p);
    }
    (sr, si, p)
}

fn circle_small_scaling_exec(r: &Scalar, i: &Scalar, b: &Scalar) -> (out: (Scalar, Scalar, Scalar))
    ensures
        out == circle_small_scaling(*r, *i, *b),
{
    let one = Scalar::one();
    let mr = if r.fraction == 0 && r.exponent == stored_exp_of(127) {
        Scalar::max_value()
    } else {
        r.magnitude()
    };
    let mi = if i.fraction == 0 && i.exponent == stored_exp_of(127) {
        Scalar::max_value()
    } else {
        i.magnitude()
    };
    let p0 = negated(&mr.max(mi).scalar_logarithm_scalar(b).floor());
    let mut p = p0;
    let mut fuel: u32 = ROUNDS;
    if pow_exploded_exec(b, &p) {
        while fuel > 0 && pow_exploded_exec(b, &p)
            invariant
                one == one_spec(),
                unexplode_power(*b, p0, ROUNDS as nat) == unexplode_power(*b, p, fuel as nat),
            decreases fuel,
        {
            p = subtract(&p, &one);
            fuel = fuel - 1;
        }
        let ghost p1 = p;
        let mut sr = scaled_up_exec(r, b, &p);
        let mut si = scaled_up_exec(i, b, &p);
        fuel = ROUNDS;
        while fuel > 0 && sr.magnitude().max(si.magnitude()).less_than(&one)
            invariant
                one == one_spec(),
                grow_cscaled(scaled_up(*r, *b, p1), scaled_up(*i, *b, p1), *b, p1, ROUNDS as nat)
                    == grow_cscaled(sr, si, *b, p, fuel as nat),
            decreases fuel,
        {
            p = p.scalar_add_scalar(&one);
            fuel = fuel - 1;
            sr = sr.scalar_multiply_scalar(b);
            si = si.scalar_multiply_scalar(b);
        }
        (sr, si, p)
    } else {
        let mut sr = scaled_up_exec(r, b, &p);
        let mut si = scaled_up_exec(i, b, &p);
        while fuel > 0 && sr.magnitude().max(si.magnitude()).at_least(b)
            invariant
                one == one_spec(),
                sr == scaled_up(*r, *b, p),
                si == scaled_up(*i, *b, p),
                fall_cpower(*r, *i, *b, p0, ROUNDS as nat) == fall_cpower(*r, *i, *b, p, fuel as nat),
            decreases fuel,
        {
            p = subtract(&p, &one);
            fuel = fuel - 1;
            sr = scaled_up_exec(r, b, &p);
            si = scaled_up_exec(i, b, &p);
        }
        let ghost p1 = p;
        fuel = ROUNDS;
        while fuel > 0 && sr.magnitude().max(si.magnitude()).less_than(&one)
            invariant
                one == one_spec(),
                sr == scaled_up(*r, *b, p),
                si == scaled_up(*i, *b, p),
                rise_cpower(*r, *i, *b, p1, ROUNDS as nat) == rise_cpower(*r, *i, *b, p, fuel as nat),
            decreases fuel,
        {
            p = p.scalar_add_scalar(&one);
            fuel = fuel - 1;
            sr = scaled_up_exec(r, b, &p);
            si = scaled_up_exec(i, b, &p);
        }
        (sr, si, p)
    }
}

fn push_part_mantissa(out: &mut Vec<char>, s: &Scalar, b: &Scalar, digits: isize)
    ensures
        final(out)@ == old(out)@ + part_mantissa(*s, *b, digits as int),
{
    let ghost start = out@;
    if s.is_negative() {
        out.push('-');
        push_mantissa(out, negated(s), b, digits, false);
    } else if s.is_positive() {
        out.push('+');
        push_mantissa(out, *s, b, digits, false);
    } else {
        push_mantissa(out, *s, b, digits, false);
    }
    assert(out@ =~= start + part_mantissa(*s, *b, digits as int));
}

fn push_part_plain(out: &mut Vec<char>, v: &Scalar, b: &Scalar, digits: isize)
    ensures
        final(out)@ == old(out)@ + part_plain(*v, *b, digits as int),
{
    let ghost start = out@;
    if v.is_negative() {
        out.push('-');
    } else if v.is_positive() {
        out.push('+');
    }
    push_plain(out, &v.magnitude(), b, digits);
    assert(out@ =~= start + part_plain(*v, *b, digits as int));
}

fn push_dir_digits(out: &mut Vec<char>, m: Scalar, b: &Scalar, digits: isize)
    ensures
        final(out)@ == old(out)@ + dir_digits(m, *b, 0, digits as int),
{
    let ghost m0 = m;
    let mut m = m;
    let mut d: isize = 0;
    while d < digits
        invariant
            0 <= d,
            old(out)@ + dir_digits(m0, *b, 0, digits as int) == out@ + dir_digits(
                m,
                *b,
                d as int,
                digits as int,
            ),
        decreases digits - d,
    {
        let ghost before = out@;
        if d == 1 {
            out.push('.');
        }
        out.push(digit_to_char(m.to_u8()));
        let next = m.frac().scalar_multiply_scalar(b);
        assert(out@ + dir_digits(next, *b, d + 1, digits as int) =~= before + dir_digits(
            m,
            *b,
            d as int,
            digits as int,
        ));
        m = next;
        d = d + 1;
    }
    assert(out@ + Seq::<char>::empty() =~= out@);
}

fn push_escaped_part(
    out: &mut Vec<char>,
    v: &Scalar,
    m: &Scalar,
    b: &Scalar,
    digits: isize,
    arrow: char,
    pct: bool,
)
    ensures
        final(out)@ == old(out)@ + escaped_part(*v, *m, *b, digits as int, arrow, pct),
{
    let ghost start = out@;
    out.push(arrow);
    if m.is_normal() {
        out.push(
            if v.is_negative() {
                '-'
            } else {
                '+'
            },
        );
        push_dir_digits(out, *m, b, digits);
    } else {
        out.push('0');
    }
    if pct {
        out.push('%');
    }
    assert(out@ =~= start + escaped_part(*v, *m, *b, digits as int, arrow, pct));
}

fn push_big_suffix(out: &mut Vec<char>, p: &Scalar, b: &Scalar, base: u8)
    ensures
        final(out)@ == old(out)@ + big_suffix(*p, *b, base),
{
    let ghost start = out@;
    if !p.is_zero() {
        push_seq(out, &['×', digit_to_char(base), '^']);
        if p.is_negative() {
            out.push('-');
            push_power(out, &negated(p), b);
        } else {
            out.push('+');
            push_power(out, p, b);
        }
    }
    assert(out@ =~= start + big_suffix(*p, *b, base));
}

#[verifier::rlimit(40)]
fn circle_big(out: &mut Vec<char>, z: &Circle, b: &Scalar, base: u8, digits: isize)
    ensures
        final(out)@ == old(out)@ + circle_big_text(*z, *b, base, digits as int),
{
    let ghost start = out@;
    let (sr, si, p) = circle_big_scaling(&z.r(), &z.i(), b);
    out.push('⦇');
    push_part_mantissa(out, &sr, b, digits);
    let ghost a = out@;
    out.push(',');
    push_part_mantissa(out, &si, b, digits);
    out.push('⦈');
    let ghost c = out@;
    push_big_suffix(out, &p, b, base);
    proof {
        reveal(circle_big_text);
        assert(a =~= start + seq!['⦇'] + part_mantissa(sr, *b, digits as int));
        assert(c =~= a + seq![','] + part_mantissa(si, *b, digits as int) + seq!['⦈']);
        assert(out@ =~= start + circle_big_text(*z, *b, base, digits as int));
    }
}

fn circle_small(out: &mut Vec<char>, z: &Circle, b: &Scalar, base: u8, digits: isize)
    ensures
        final(out)@ == old(out)@ + circle_small_text(*z, *b, base, digits as int),
{
    let ghost start = out@;
    let (sr, si, p) = circle_small_scaling_exec(&z.r(), &z.i(), b);
    out.push('⦇');
    push_part_mantissa(out, &sr, b, digits);
    out.push(',');
    push_part_mantissa(out, &si, b, digits);
    out.push('⦈');
    if !p.is_zero() {
        push_seq(out, &['×', digit_to_char(base), '^', '-']);
        push_power(out, &p, b);
    }
    proof {
        reveal(circle_small_text);
        assert(out@ =~= start + circle_small_text(*z, *b, base, digits as int));
    }
}

fn circle_escaped(out: &mut Vec<char>, z: &Circle, b: &Scalar, digits: isize)
    requires
        !z.normal_c(),
        !z.undefined_c(),
    ensures
        final(out)@ == old(out)@ + circle_escaped_text(*z, *b, digits as int),
{
    let ghost start = out@;
    if z.is_infinite() {
        out.push('∞');
    } else if z.exploded() || z.vanished() {
        let (arrow, pct) = if z.exploded() {
            ('↑', false)
        } else {
            ('↓', true)
        };
        let dir = z.sign();
        let mr = dir.r().magnitude();
        let mi = dir.i().magnitude();
        push_escaped_part(out, &z.r(), &mr, b, digits, arrow, pct);
        out.push(',');
        push_escaped_part(out, &z.i(), &mi, b, digits, arrow, pct);
    } else {
        push_seq(out, &['0', '⦈']);
    }
    proof {
        reveal(circle_escaped_text);
        assert(out@ =~= start + circle_escaped_text(*z, *b, digits as int));
    }
}

impl Circle {
    /// Display text in base `base` (2 to 36) with at most `digits` digits
    /// per part: the symbol of an undefined state; otherwise after `⦇`:
    /// `∞` for infinity; for an escaped Circle each part's class arrow,
    /// sign and direction digits (`%` after vanished parts); `0⦈` for zero;
    /// scientific notation `⦇±d.dd,±d.dd⦈×B^±e` with a shared power when a
    /// part reaches `base^digits` in magnitude or both lie below `base^-4`;
    /// otherwise both parts in plain notation, `⦇re,im⦈`.
    pub fn format_circle(&self, base: u8, digits: isize) -> (r: Vec<char>)
        ensures
            r@ == circle_text(*self, base, digits as int),
    {
        let mut out: Vec<char> = Vec::new();
        if self.is_undefined() {
            push_seq(&mut out, symbol_chars((self.real >> 24u32) as i8));
            proof {
                let s = self.real;
                assert(0x100_0000 * (s >> 24u32) <= s < 0x100_0000 * (s >> 24u32) + 0x100_0000)
                    by (bit_vector);
                assert(-128 <= (s >> 24u32) <= 127) by (bit_vector);
                crate::bits::lemma_div_exact_q(s as int, 0x100_0000, (s >> 24u32) as int);
                assert(out@ =~= circle_text(*self, base, digits as int));
            }
            return out;
        }
        let b = Scalar::from_int(base as i64);
        if !self.is_normal() {
            out.push('⦇');
            circle_escaped(&mut out, self, &b, digits);
            proof {
                assert(out@ =~= circle_text(*self, base, digits as int));
            }
            return out;
        }
        let big = pow_int(&b, digits);
        let nbig = negated(&big);
        let small = pow_int(&b, -4);
        let re = self.r();
        let im = self.i();
        if re.at_most(&nbig) || re.at_least(&big) || im.at_most(&nbig) || im.at_least(&big) {
            circle_big(&mut out, self, &b, base, digits);
        } else if re.magnitude().max(im.magnitude()).less_than(&small) {
            circle_small(&mut out, self, &b, base, digits);
        } else {
            out.push('⦇');
            push_part_plain(&mut out, &re, &b, digits);
            out.push(',');
            push_part_plain(&mut out, &im, &b, digits);
            out.push('⦈');
        }
        proof {
            assert(out@ =~= circle_text(*self, base, digits as int));
        }
        out
    }
}

/// The text shown for a base outside 2 to 36.
pub open spec fn base_error_text() -> Seq<char> {
    seq!['E', 'r', 'r', 'o', 'r', ':', ' ', 'O', 'n', 'l', 'y', ' ', 'b', 'a', 's', 'e', 's', ' ', '2', '-', '3', '6', ' ', 'a', 'r', 'e', ' ', 's', 'u', 'p', 'p', 'o', 'r', 't', 'e', 'd', '!']
}

/// The default digit count of a base: the integer part of `log_base(2^32)`,
/// the digits that 32 fraction bits carry.
pub open spec fn default_digits(base: u8) -> int {
    to_u8_spec(floor_spec(log_spec(pow_spec(pack_spec(2, 0), 32), pack_spec(base as int, 0)))) as int
}

/// The base of a display request: 10 unless a precision gives one (taken
/// as a byte).
pub open spec fn display_base(precision: Option<usize>) -> u8 {
    match precision {
        Some(p) => p as u8,
        None => 10,
    }
}

/// The digit count of a display request: the width if given, otherwise
/// the default of the base.
pub open spec fn display_digits(base: u8, width: Option<usize>) -> int {
    match width {
        Some(w) => w as int,
        None => default_digits(base),
    }
}

/// Display text of a Scalar for a request with an optional precision (the
/// base) and width (the digit count): an error text for a base outside 2
/// to 36, otherwise `scalar_text`.
pub open spec fn scalar_display(x: Scalar, precision: Option<usize>, width: Option<usize>) -> Seq<char> {
    let base = display_base(precision);
    if base < 2 || base > 36 {
        base_error_text()
    } else {
        scalar_text(x, base, display_digits(base, width))
    }
}

/// Display text of a Circle for a request with an optional precision (the
/// base) and width (the digit count per part): an error text for a base
/// outside 2 to 36, otherwise `circle_text`.
pub open spec fn circle_display(z: Circle, precision: Option<usize>, width: Option<usize>) -> Seq<char> {
    let base = display_base(precision);
    if base < 2 || base > 36 {
        base_error_text()
    } else {
        circle_text(z, base, display_digits(base, width))
    }
}

fn request(precision: Option<usize>, width: Option<usize>) -> (r: (u8, isize))
    requires
        width matches Some(w) ==> w <= isize::MAX,
    ensures
        r.0 == display_base(precision),
        r.0 >= 2 && r.0 <= 36 ==> r.1 == display_digits(r.0, width) && r.1 >= 0,
{
    let base: u8 = match precision {
        Some(p) => p as u8,
        None => 10,
    };
    let digits: isize = match width {
        Some(w) => w as isize,
        None => Scalar::from_int(2).scalar_power_scalar(&Scalar::from_int(32)).scalar_logarithm_scalar(
            &Scalar::from_int(base as i64),
        ).floor().to_u8() as isize,
    };
    (base, digits)
}

impl Scalar {
    /// Display text for a request with an optional precision (the base,
    /// 10 by default) and width (the digit count, by default the digits
    /// that 32 fraction bits carry in that base).
    pub fn display_text(&self, precision: Option<usize>, width: Option<usize>) -> (r: Vec<char>)
        requires
            width matches Some(w) ==> w <= isize::MAX,
        ensures
            r@ == scalar_display(*self, precision, width),
    {
        let (base, digits) = request(precision, width);
        if base < 2 || base > 36 {
            let mut out: Vec<char> = Vec::new();
            push_seq(&mut out, &['E', 'r', 'r', 'o', 'r', ':', ' ', 'O', 'n', 'l', 'y', ' ', 'b', 'a', 's', 'e', 's', ' ', '2', '-', '3', '6', ' ', 'a', 'r', 'e', ' ', 's', 'u', 'p', 'p', 'o', 'r', 't', 'e', 'd', '!']);
            assert(out@ =~= base_error_text());
            return out;
        }
        self.format_scalar(base, digits)
    }
}

impl Circle {
    /// Display text for a request with an optional precision (the base,
    /// 10 by default) and width (the digit count per part, by default the
    /// digits that 32 fraction bits carry in that base).
    pub fn display_text(&self, precision: Option<usize>, width: Option<usize>) -> (r: Vec<char>)
        requires
            width matches Some(w) ==> w <= isize::MAX,
        ensures
            r@ == circle_display(*self, precision, width),
    {
        let (base, digits) = request(precision, width);
        if base < 2 || base > 36 {
            let mut out: Vec<char> = Vec::new();
            push_seq(&mut out, &['E', 'r', 'r', 'o', 'r', ':', ' ', 'O', 'n', 'l', 'y', ' ', 'b', 'a', 's', 'e', 's', ' ', '2', '-', '3', '6', ' ', 'a', 'r', 'e', ' ', 's', 'u', 'p', 'p', 'o', 'r', 't', 'e', 'd', '!']);
            assert(out@ =~= base_error_text());
            return out;
        }
        self.format_circle(base, digits)
    }
}

} // verus!
