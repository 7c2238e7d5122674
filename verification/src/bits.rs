//! Integer facts behind the number format: bit lengths of two's-complement
//! integers, floor scaling by powers of two, and the exact executable helpers
//! that compute them.
use vstd::arithmetic::div_mod::*;
use vstd::arithmetic::mul::*;
use vstd::arithmetic::power2::*;
use vstd::bits::*;
use vstd::prelude::*;

verus! {

/// Number of binary digits of a natural number (0 for 0).
pub open spec fn nb(y: nat) -> nat
    decreases y,
{
    if y == 0 {
        0
    } else {
        1 + nb(y / 2)
    }
}

/// Significant bits of a two's-complement integer, not counting the sign:
/// the `n` with `2^(n-1) <= x < 2^n` for positive `x` and
/// `-2^n <= x < -2^(n-1)` for negative `x`; 0 for `0` and `-1`.
pub open spec fn sbits(x: int) -> nat {
    if x >= 0 {
        nb(x as nat)
    } else {
        nb((-x - 1) as nat)
    }
}

/// `x` lies in the two's-complement band of `n` significant bits.
pub open spec fn in_band(x: int, n: nat) -> bool {
    &&& n >= 1
    &&& if x >= 0 {
        pow2((n - 1) as nat) <= x < pow2(n)
    } else {
        -pow2(n) <= x < -pow2((n - 1) as nat)
    }
}

/// Floor division (rounds toward negative infinity) for any non-zero divisor.
pub open spec fn fdiv(x: int, y: int) -> int {
    if y > 0 {
        x / y
    } else {
        (-x) / (-y)
    }
}

/// `x * 2^-j` rounded toward negative infinity (exact when `j <= 0`).
pub open spec fn scale(x: int, j: int) -> int {
    if j >= 0 {
        x / pow2(j as nat) as int
    } else {
        x * pow2((-j) as nat) as int
    }
}

pub proof fn lemma_pow2_le(a: nat, b: nat)
    requires
        a <= b,
    ensures
        pow2(a) <= pow2(b),
{
    if a < b {
        lemma_pow2_strictly_increases(a, b);
    }
}

pub proof fn lemma_div_exact_q(x: int, p: int, q: int)
    requires
        p > 0,
        q * p <= x < (q + 1) * p,
    ensures
        x / p == q,
{
    assert((q + 1) * p == q * p + p) by (nonlinear_arith);
    lemma_fundamental_div_mod_converse(x, p, q, x - q * p);
}

pub proof fn lemma_nb_range(y: nat)
    requires
        y > 0,
    ensures
        nb(y) >= 1,
        pow2((nb(y) - 1) as nat) <= y < pow2(nb(y)),
    decreases y,
{
    let h = y / 2;
    if h == 0 {
        assert(nb(y) == 1 + nb(0));
        lemma2_to64();
    } else {
        lemma_nb_range(h);
        let n = nb(h);
        assert(nb(y) == n + 1);
        lemma_pow2_unfold(n + 1);
        lemma_pow2_unfold(n);
        assert(pow2(n) == 2 * pow2((n - 1) as nat));
    }
}

pub proof fn lemma_nb_unique(y: nat, n: nat)
    requires
        n >= 1,
        pow2((n - 1) as nat) <= y < pow2(n),
    ensures
        nb(y) == n,
{
    lemma_pow2_pos((n - 1) as nat);
    lemma_nb_range(y);
    let m = nb(y);
    if m < n {
        lemma_pow2_le(m, (n - 1) as nat);
    }
    if m > n {
        lemma_pow2_le(n, (m - 1) as nat);
    }
}

/// Bit length and band agree.
pub proof fn lemma_sbits_band(x: int)
    requires
        x != 0 && x != -1,
    ensures
        in_band(x, sbits(x)),
{
    if x >= 0 {
        lemma_nb_range(x as nat);
    } else {
        lemma_nb_range((-x - 1) as nat);
    }
}

pub proof fn lemma_band_sbits(x: int, n: nat)
    requires
        in_band(x, n),
    ensures
        sbits(x) == n,
        x != 0 && x != -1,
{
    lemma_pow2_pos((n - 1) as nat);
    if x >= 0 {
        lemma_nb_unique(x as nat, n);
    } else {
        lemma_nb_unique((-x - 1) as nat, n);
    }
}

/// Floor scaling moves a value from one band down to a narrower one.
pub proof fn lemma_band_div(x: int, n: nat, j: nat)
    requires
        in_band(x, n),
        j < n,
    ensures
        in_band(x / pow2(j) as int, (n - j) as nat),
{
    let p = pow2(j) as int;
    lemma_pow2_pos(j);
    let lo = pow2((n - 1 - j) as nat) as int;
    let hi = pow2((n - j) as nat) as int;
    lemma_pow2_adds((n - 1 - j) as nat, j);
    lemma_pow2_adds((n - j) as nat, j);
    assert(pow2((n - 1) as nat) == lo * p);
    assert(pow2(n) == hi * p);
    let q = x / p;
    lemma_fundamental_div_mod(x, p);
    let r = x % p;
    assert(0 <= r < p) by {
        lemma_mod_bound(x, p);
    }
    assert(x == p * q + r);
    if x >= 0 {
        assert(lo * p <= p * q + r < hi * p);
        assert(lo <= q < hi) by (nonlinear_arith)
            requires
                lo * p <= p * q + r,
                p * q + r < hi * p,
                0 <= r < p,
                p > 0,
        ;
    } else {
        assert(-(hi * p) <= p * q + r < -(lo * p));
        assert(-hi <= q < -lo) by (nonlinear_arith)
            requires
                -(hi * p) <= p * q + r,
                p * q + r < -(lo * p),
                0 <= r < p,
                p > 0,
        ;
    }
}

/// Exact scaling up moves a value to a wider band.
pub proof fn lemma_band_mul(x: int, n: nat, j: nat)
    requires
        in_band(x, n),
    ensures
        in_band(x * pow2(j) as int, n + j),
{
    let p = pow2(j) as int;
    lemma_pow2_pos(j);
    lemma_pow2_adds((n - 1) as nat, j);
    lemma_pow2_adds(n, j);
    assert(((n - 1) as nat + j) as nat == (n + j - 1) as nat);
    let a = pow2((n - 1) as nat) as int;
    let b = pow2(n) as int;
    if x >= 0 {
        assert(a * p <= x * p < b * p) by (nonlinear_arith)
            requires
                a <= x < b,
                p > 0,
        ;
    } else {
        assert(-(b * p) <= x * p < -(a * p)) by (nonlinear_arith)
            requires
                -b <= x < -a,
                p > 0,
        ;
    }
}

/// The band of `scale(x, sbits(x) - n)` is `n`.
pub proof fn lemma_scale_band(x: int, n: nat)
    requires
        x != 0,
        n >= 1,
    ensures
        in_band(scale(x, sbits(x) - n), n),
        sbits(scale(x, sbits(x) - n)) == n,
{
    let m = sbits(x);
    let y = scale(x, m - n);
    if x == -1 {
        assert(m == 0);
        assert(y == -1 * pow2(n) as int);
        lemma_pow2_unfold(n);
        lemma_pow2_pos((n - 1) as nat);
    } else {
        lemma_sbits_band(x);
        if m > n {
            lemma_band_div(x, m, (m - n) as nat);
            assert(y == x / pow2((m - n) as nat) as int);
            assert((m - (m - n) as nat) as nat == n);
        } else if m == n {
            assert(pow2(0) == 1) by {
                lemma2_to64();
            }
            assert(y == x / 1);
            assert(y == x);
        } else {
            lemma_band_mul(x, m, (n - m) as nat);
            assert(y == x * pow2((n - m) as nat) as int);
            assert(m + (n - m) as nat == n);
        }
    }
    assert(in_band(y, n));
    lemma_band_sbits(y, n);
}

/// Floor of a negative number divided by a positive one, in terms of unsigned division.
pub proof fn lemma_floor_neg(x: int, p: int)
    requires
        x < 0,
        p > 0,
    ensures
        x / p == -1 - (-x - 1) / p,
{
    let y = -x - 1;
    let q = y / p;
    let r = y % p;
    lemma_fundamental_div_mod(y, p);
    lemma_mod_bound(y, p);
    assert(x == (-1 - q) * p + (p - 1 - r)) by (nonlinear_arith)
        requires
            y == p * q + r,
            x == -y - 1,
    ;
    lemma_fundamental_div_mod_converse(x, p, -1 - q, p - 1 - r);
}

/// `2^n` as an unsigned 128-bit integer.
pub fn pow2_u128(n: u32) -> (r: u128)
    requires
        n < 127,
    ensures
        r == pow2(n as nat),
{
    let mut r: u128 = 1;
    let mut i: u32 = 0;
    proof {
        lemma2_to64();
    }
    while i < n
        invariant
            i <= n < 127,
            r == pow2(i as nat),
        decreases n - i,
    {
        proof {
            lemma_pow2_unfold((i + 1) as nat);
            lemma_pow2_strictly_increases((i + 1) as nat, 127);
            lemma2_to64_rest();
            assert(pow2(127) < u128::MAX) by {
                lemma_pow2_unfold(128);
                lemma_pow2_adds(64, 64);
            }
        }
        r = r * 2;
        i = i + 1;
    }
    r
}

/// Significant bits of a two's-complement 128-bit integer.
pub fn sig_bits(x: i128) -> (r: u32)
    ensures
        r == sbits(x as int),
        r <= 127,
{
    let mut y: u128 = if x >= 0 {
        x as u128
    } else {
        (-1 - x) as u128
    };
    let ghost y0: nat = y as nat;
    let mut n: u32 = 0;
    proof {
        lemma2_to64_rest();
        assert(y0 < pow2(127)) by {
            lemma_pow2_unfold(127);
            lemma_pow2_adds(63, 64);
        }
        if y0 > 0 {
            lemma_nb_range(y0);
            if nb(y0) > 127 {
                lemma_pow2_le(127, (nb(y0) - 1) as nat);
            }
        }
    }
    while y > 0
        invariant
            nb(y0) == n + nb(y as nat),
            nb(y0) <= 127,
        decreases y,
    {
        y = y / 2;
        n = n + 1;
    }
    n
}

/// `x * 2^-j` rounded toward negative infinity, for `0 <= j < 127`.
pub fn floor_shr(x: i128, j: u32) -> (r: i128)
    requires
        j < 127,
    ensures
        r == x as int / pow2(j as nat) as int,
        r == scale(x as int, j as int),
{
    let p = pow2_u128(j);
    proof {
        lemma_pow2_pos(j as nat);
    }
    if x >= 0 {
        let q = (x as u128) / p;
        proof {
            lemma_div_is_ordered(0, x as int, p as int);
            assert(q <= x) by {
                lemma_div_is_ordered_by_denominator(x as int, 1, p as int);
            }
        }
        q as i128
    } else {
        let y = (-1 - x) as u128;
        let q = y / p;
        proof {
            lemma_floor_neg(x as int, p as int);
            lemma_div_is_ordered(0, y as int, p as int);
            lemma_div_is_ordered_by_denominator(y as int, 1, p as int);
        }
        -1 - (q as i128)
    }
}

/// `x` rescaled by a power of two so that it lands in band `n`, rounding
/// toward negative infinity: `scale(x, sbits(x) - n)`.
pub fn to_band(x: i128, n: u32) -> (r: i64)
    requires
        x != 0,
        sbits(x as int) <= 126,
        1 <= n <= 32,
    ensures
        r == scale(x as int, sbits(x as int) - n),
        in_band(r as int, n as nat),
{
    let m = sig_bits(x);
    proof {
        lemma_scale_band(x as int, n as nat);
        lemma_pow2_le(n as nat, 32);
        lemma2_to64();
    }
    if m >= n {
        let q = floor_shr(x, m - n);
        q as i64
    } else {
        let p = pow2_u128(n - m);
        proof {
            lemma_pow2_le((n - m) as nat, 32);
            assert(x as int * p as int == scale(x as int, sbits(x as int) - n));
            assert(-0x1_0000_0000 <= x as int * p as int <= 0x1_0000_0000);
        }
        (x * (p as i128)) as i64
    }
}

/// An integer within `[-2^n, 2^n)` has at most `n` significant bits.
pub proof fn lemma_sbits_le(x: int, n: nat)
    requires
        -pow2(n) <= x < pow2(n),
    ensures
        sbits(x) <= n,
{
    let y: nat = if x >= 0 {
        x as nat
    } else {
        (-x - 1) as nat
    };
    if y > 0 {
        lemma_nb_range(y);
        if nb(y) > n {
            lemma_pow2_le(n, (nb(y) - 1) as nat);
        }
    }
}

/// A 64-bit-range integer has at most 64 significant bits.
pub proof fn lemma_sbits_64(x: int)
    requires
        -0x1_0000_0000_0000_0000 <= x < 0x1_0000_0000_0000_0000,
    ensures
        sbits(x) <= 64,
{
    lemma2_to64();
    lemma2_to64_rest();
    lemma_pow2_unfold(64);
    lemma_sbits_le(x, 64);
}

/// An integer below `2^100` in magnitude has at most 100 significant bits.
pub proof fn lemma_sbits_100(x: int)
    requires
        -0x10_0000_0000_0000_0000_0000_0000 <= x < 0x10_0000_0000_0000_0000_0000_0000,
    ensures
        sbits(x) <= 100,
{
    lemma2_to64();
    lemma2_to64_rest();
    lemma_pow2_adds(64, 36);
    lemma_sbits_le(x, 100);
}

/// Floor division never grows the magnitude of the dividend.
pub proof fn lemma_fdiv_bound(a: int, b: int)
    requires
        b != 0,
    ensures
        a >= 0 ==> -a <= fdiv(a, b) <= a,
        a < 0 ==> a <= fdiv(a, b) <= -a,
{
    let (x, y) = if b > 0 {
        (a, b)
    } else {
        (-a, -b)
    };
    assert(fdiv(a, b) == x / y);
    lemma_fundamental_div_mod(x, y);
    lemma_mod_bound(x, y);
    let q = x / y;
    let r = x % y;
    assert(-(if x >= 0 { x } else { -x }) <= q <= (if x >= 0 { x } else { -x }))
        by (nonlinear_arith)
        requires
            x == y * q + r,
            0 <= r < y,
            y >= 1,
    ;
}

/// Floor division by a non-zero divisor, from unsigned magnitudes.
pub fn floor_div(x: i128, y: i128) -> (r: i128)
    requires
        y != 0,
        -0x10_0000_0000_0000_0000_0000_0000 < x < 0x10_0000_0000_0000_0000_0000_0000,
        -0x10_0000_0000_0000_0000_0000_0000 < y < 0x10_0000_0000_0000_0000_0000_0000,
    ensures
        r == fdiv(x as int, y as int),
{
    let xn = if x >= 0 { x as u128 } else { (-x) as u128 };
    let yn = if y >= 0 { y as u128 } else { (-y) as u128 };
    proof {
        lemma_div_is_ordered_by_denominator(xn as int, 1, yn as int);
        lemma_div_is_ordered(0, xn as int, yn as int);
    }
    if (x >= 0) == (y > 0) {
        let q = xn / yn;
        proof {
            if y < 0 {
                assert(fdiv(x as int, y as int) == (-x) / (-y));
            }
        }
        q as i128
    } else {
        // The exact quotient is negative: floor(-a/b) = -ceil(a/b).
        if xn == 0 {
            return 0;
        }
        let q = (xn - 1) / yn;
        proof {
            let a = xn as int;
            let b = yn as int;
            lemma_div_is_ordered_by_denominator(a - 1, 1, b);
            lemma_div_is_ordered(0, a - 1, b);
            lemma_floor_neg(-a, b);
            if y > 0 {
                assert(fdiv(x as int, y as int) == (-a) / b);
            } else {
                assert(fdiv(x as int, y as int) == (-a) / b);
            }
        }
        -1 - (q as i128)
    }
}

/// At most `m` significant bits means lying within `[-2^m, 2^m)`.
pub proof fn lemma_sbits_range(x: int, m: nat)
    requires
        sbits(x) <= m,
    ensures
        -pow2(m) <= x < pow2(m),
{
    lemma_pow2_pos(m);
    if x != 0 && x != -1 {
        lemma_sbits_band(x);
        lemma_pow2_le(sbits(x), m);
    }
}

/// Rescaling a value of at most `m` significant bits by `2^(n-m)` leaves it
/// within `[-2^n, 2^n)`.
pub proof fn lemma_scale_fits(x: int, m: nat, n: nat)
    requires
        sbits(x) <= m,
    ensures
        -pow2(n) <= scale(x, m - n) < pow2(n),
{
    lemma_sbits_range(x, m);
    lemma_pow2_pos(n);
    if m >= n {
        let j = (m - n) as nat;
        let p = pow2(j) as int;
        lemma_pow2_pos(j);
        lemma_pow2_adds(n, j);
        assert(pow2(m) == pow2(n) * p);
        let q = x / p;
        lemma_fundamental_div_mod(x, p);
        lemma_mod_bound(x, p);
        let hi = pow2(n) as int;
        assert(-hi <= q < hi) by (nonlinear_arith)
            requires
                -(hi * p) <= p * q + x % p,
                p * q + x % p < hi * p,
                0 <= x % p < p,
                p > 0,
        ;
        if j == 0 {
            assert(scale(x, m - n) == x / p);
        }
    } else {
        let j = (n - m) as nat;
        let p = pow2(j) as int;
        lemma_pow2_pos(j);
        lemma_pow2_adds(m, j);
        assert(pow2(n) == pow2(m) * p);
        let lo = pow2(m) as int;
        assert(-(lo * p) <= x * p < lo * p) by (nonlinear_arith)
            requires
                -lo <= x < lo,
                p > 0,
        ;
    }
}

/// `x * 2^-j` rounded toward negative infinity, for any shift that keeps the
/// result within 64 bits.
pub fn scale_by(x: i128, j: i32) -> (r: i128)
    requires
        -126 <= j <= 126,
        -pow2(63) <= scale(x as int, j as int) < pow2(63),
    ensures
        r == scale(x as int, j as int),
{
    if j >= 0 {
        floor_shr(x, j as u32)
    } else {
        let p = pow2_u128((-j) as u32);
        proof {
            lemma2_to64_rest();
            assert(pow2(63) < 0x8000_0000_0000_0000_0000_0000_0000_0000) by {
                lemma_pow2_le(63, 64);
            }
            lemma_pow2_strictly_increases((-j) as nat, 127);
            lemma_pow2_unfold(127);
            lemma_pow2_adds(63, 64);
            assert(p < 0x8000_0000_0000_0000_0000_0000_0000_0000);
            assert(scale(x as int, j as int) == x as int * p as int);
        }
        x * (p as i128)
    }
}

/// Scaling a multiple of `2^j` by `d + j` binades is scaling the multiplier
/// by `d`.
pub proof fn lemma_scale_shift(y: int, j: nat, d: int)
    ensures
        scale(y * pow2(j) as int, d + j) == scale(y, d),
{
    let pj = pow2(j) as int;
    lemma_pow2_pos(j);
    if d >= 0 {
        let pd = pow2(d as nat) as int;
        lemma_pow2_pos(d as nat);
        lemma_pow2_adds(d as nat, j);
        let q = y / pd;
        assert(q * pd <= y < (q + 1) * pd) by {
            vstd::arithmetic::div_mod::lemma_fundamental_div_mod(y, pd);
            vstd::arithmetic::div_mod::lemma_mod_bound(y, pd);
            assert((q + 1) * pd == q * pd + pd) by (nonlinear_arith);
        }
        assert(q * (pd * pj) <= y * pj < (q + 1) * (pd * pj)) by (nonlinear_arith)
            requires
                q * pd <= y < (q + 1) * pd,
                pj > 0,
        ;
        assert(((d + j) as nat) == d as nat + j);
        lemma_div_exact_q(y * pj, pd * pj, q);
    } else if d + j >= 0 {
        let e = (d + j) as nat;
        let f = (-d) as nat;
        lemma_pow2_pos(e);
        lemma_pow2_adds(f, e);
        assert(f + e == j);
        let pe = pow2(e) as int;
        let pf = pow2(f) as int;
        assert(y * pj == (y * pf) * pe) by (nonlinear_arith)
            requires
                pj == pf * pe,
        ;
        assert((y * pf) * pe <= y * pj < (y * pf + 1) * pe) by (nonlinear_arith)
            requires
                y * pj == (y * pf) * pe,
                pe > 0,
        ;
        lemma_div_exact_q(y * pj, pe, y * pf);
    } else {
        let e = (-(d + j)) as nat;
        let f = (-d) as nat;
        lemma_pow2_adds(j, e);
        assert(j + e == f);
        assert(y * pj * pow2(e) as int == y * pow2(f) as int) by (nonlinear_arith)
            requires
                pow2(f) == pj * pow2(e),
        ;
    }
}

/// Multiplying by `2^j` adds `j` significant bits to a non-zero value.
pub proof fn lemma_sbits_shift(y: int, j: nat)
    requires
        y != 0,
    ensures
        sbits(y * pow2(j) as int) == sbits(y) + j,
        y * pow2(j) as int != 0,
{
    lemma_pow2_pos(j);
    if y == -1 {
        assert(sbits(-1) == 0) by {
            reveal_with_fuel(crate::bits::nb, 2);
        }
        if j == 0 {
            assert(pow2(0) == 1) by {
                lemma2_to64();
            }
        } else {
            lemma_pow2_unfold(j);
            lemma_pow2_pos((j - 1) as nat);
            assert(in_band(-1 * pow2(j) as int, j));
            lemma_band_sbits(-1 * pow2(j) as int, j);
        }
    } else {
        lemma_sbits_band(y);
        lemma_band_mul(y, sbits(y), j);
        lemma_band_sbits(y * pow2(j) as int, sbits(y) + j);
    }
}

} // verus!
