//! Square roots of `Scalar` values.
use crate::bits::{fdiv, pow2_u128};
use crate::scalar::{
    lemma_mant, lemma_pow2_30_32, logical_exp, sc, stored_exp, stored_exp_of, stored_frac, Scalar,
};
use crate::undefined::{SQRT_EXPLODED, SQRT_NEGATIVE, SQRT_VANISHED};
use vstd::arithmetic::power2::*;
use vstd::prelude::*;

verus! {

pub open spec fn is_isqrt(n: int, r: int) -> bool {
    r >= 0 && r * r <= n < (r + 1) * (r + 1)
}

/// Integer square root: the largest `r` with `r * r <= n`.
pub open spec fn isqrt(n: int) -> int {
    choose|r: int| is_isqrt(n, r)
}

pub proof fn lemma_isqrt_unique(n: int, r: int)
    requires
        is_isqrt(n, r),
    ensures
        isqrt(n) == r,
{
    let c = isqrt(n);
    assert(is_isqrt(n, c));
    if c < r {
        assert((c + 1) * (c + 1) <= r * r) by (nonlinear_arith)
            requires
                0 <= c < r,
        ;
    }
    if r < c {
        assert((r + 1) * (r + 1) <= c * c) by (nonlinear_arith)
            requires
                0 <= r < c,
        ;
    }
}

/// Square root, rounded down, of a positive normal value: the logical
/// exponent is halved (rounding down) and the significand is the integer
/// square root of the significand widened by 31 bits, plus one more when
/// the exponent is odd. Negative values and escaped values have undefined
/// roots; zero, infinity and undefined states are their own root.
pub open spec fn sqrt_spec(x: Scalar) -> Scalar {
    if !x.normal_s() {
        if x.undefined_s() || x.uniform_s() {
            x
        } else if x.vanished_s() {
            sc(SQRT_VANISHED, 0)
        } else {
            sc(SQRT_EXPLODED, 0)
        }
    } else if x.negative_s() {
        sc(SQRT_NEGATIVE, 0)
    } else {
        let h = fdiv(x.k(), 2);
        let o = x.k() - 2 * h;
        sc(stored_frac(isqrt(x.w() * pow2((31 + o) as nat))), stored_exp(h))
    }
}

/// Integer square root by bisection.
fn isqrt_bisect(n: u128) -> (r: u64)
    requires
        n < 0x1_0000_0000_0000_0000,
    ensures
        is_isqrt(n as int, r as int),
{
    let mut lo: u128 = 0;
    let mut hi: u128 = 0x1_0000_0000;
    while hi - lo > 1
        invariant
            lo < hi <= 0x1_0000_0000,
            lo * lo <= n,
            n < hi * hi,
        decreases hi - lo,
    {
        let mid = lo + (hi - lo) / 2;
        proof {
            assert(mid * mid <= 0x1_0000_0000_0000_0000) by (nonlinear_arith)
                requires
                    mid <= 0x1_0000_0000,
            ;
        }
        if mid * mid <= n {
            lo = mid;
        } else {
            hi = mid;
        }
    }
    proof {
        assert(hi == lo + 1);
    }
    lo as u64
}

/// Integer square root by Newton's iteration from above.
pub(crate) fn isqrt_newton(n: u128) -> (r: u64)
    requires
        0 < n < 0x1_0000_0000_0000_0000,
    ensures
        is_isqrt(n as int, r as int),
{
    let ghost s = isqrt_bisect_ghost(n as int);
    let mut x: u128 = 0x1_0000_0000;
    proof {
        assert(x * x > n);
        lemma_above_root(n as int, s, x as int);
    }
    loop
        invariant
            0 < n < 0x1_0000_0000_0000_0000,
            s <= x <= 0x1_0000_0000,
            x > 0,
            is_isqrt(n as int, s),
        decreases x,
    {
        let q = n / x;
        proof {
            vstd::arithmetic::div_mod::lemma_div_is_ordered_by_denominator(n as int, 1, x as int);
        }
        let next = (x + q) / 2;
        proof {
            lemma_newton_step(n as int, s, x as int);
        }
        if next >= x {
            proof {
                lemma_newton_fixed(n as int, s, x as int);
            }
            return x as u64;
        }
        x = next;
    }
}

/// A witness of the integer square root, from its defining property.
pub proof fn isqrt_bisect_ghost(n: int) -> (s: int)
    requires
        0 < n < 0x1_0000_0000_0000_0000,
    ensures
        is_isqrt(n, s),
        s <= 0x1_0000_0000,
{
    lemma_isqrt_exists(n, 0x1_0000_0000);
    let s = choose|r: int| is_isqrt(n, r);
    if s > 0x1_0000_0000 {
        assert(s * s > 0x1_0000_0000_0000_0000) by (nonlinear_arith)
            requires
                s > 0x1_0000_0000,
        ;
    }
    s
}

proof fn lemma_isqrt_exists(n: int, b: int)
    requires
        0 <= n < b * b,
        b > 0,
    ensures
        exists|r: int| is_isqrt(n, r),
    decreases b,
{
    if (b - 1) * (b - 1) <= n {
        assert(is_isqrt(n, b - 1));
    } else {
        assert(b - 1 > 0) by (nonlinear_arith)
            requires
                (b - 1) * (b - 1) > n,
                n >= 0,
                b > 0,
        ;
        lemma_isqrt_exists(n, b - 1);
    }
}

proof fn lemma_above_root(n: int, s: int, x: int)
    requires
        is_isqrt(n, s),
        x * x > n,
        x > 0,
    ensures
        s <= x,
{
    if x < s {
        assert(x * x <= s * s) by (nonlinear_arith)
            requires
                0 < x < s,
        ;
    }
}

/// One Newton step never falls below the root, and strictly descends while above it.
proof fn lemma_newton_step(n: int, s: int, x: int)
    requires
        is_isqrt(n, s),
        x >= s,
        x > 0,
        n > 0,
    ensures
        (x + n / x) / 2 >= s,
        x > s ==> (x + n / x) / 2 < x,
{
    let q = n / x;
    vstd::arithmetic::div_mod::lemma_fundamental_div_mod(n, x);
    vstd::arithmetic::div_mod::lemma_mod_bound(n, x);
    let rem = n % x;
    assert(n == x * q + rem);
    assert(x * (q + 1) > s * s) by (nonlinear_arith)
        requires
            n == x * q + rem,
            rem < x,
            s * s <= n,
    ;
    assert(x * x + s * s >= 2 * s * x) by (nonlinear_arith);
    assert(q + 1 + x > 2 * s) by (nonlinear_arith)
        requires
            x * (q + 1) > s * s,
            x * x + s * s >= 2 * s * x,
            x > 0,
    ;
    assert((x + q) / 2 >= s);
    if x > s {
        assert(x * x > n) by (nonlinear_arith)
            requires
                x >= s + 1,
                n < (s + 1) * (s + 1),
                s >= 0,
        ;
        assert(q < x) by (nonlinear_arith)
            requires
                n == x * q + rem,
                0 <= rem,
                x * x > n,
                x > 0,
        ;
    }
}

proof fn lemma_newton_fixed(n: int, s: int, x: int)
    requires
        is_isqrt(n, s),
        x >= s,
        x > 0,
        n > 0,
        (x + n / x) / 2 >= x,
    ensures
        is_isqrt(n, x),
{
    lemma_newton_step(n, s, x);
    assert(x == s);
}

impl Scalar {
    fn sqrt_special(&self) -> (r: Option<Scalar>)
        ensures
            r is Some <==> !(self.normal_s() && self.positive_s()),
            r matches Some(v) ==> v == sqrt_spec(*self),
    {
        if !self.is_normal() {
            if self.is_undefined() || self.is_uniform() {
                return Some(*self);
            }
            if self.vanished() {
                return Some(Scalar { fraction: SQRT_VANISHED, exponent: 0 });
            }
            return Some(Scalar { fraction: SQRT_EXPLODED, exponent: 0 });
        }
        if self.is_negative() {
            return Some(Scalar { fraction: SQRT_NEGATIVE, exponent: 0 });
        }
        proof {
            crate::basic::lemma_normal_sign(*self);
        }
        None
    }

    /// The radicand and the result exponent of a positive normal value.
    fn sqrt_parts(&self) -> (r: (u128, i32))
        requires
            self.normal_s(),
            self.positive_s(),
        ensures
            ({
                let h = fdiv(self.k(), 2);
                let o = self.k() - 2 * h;
                &&& r.0 == self.w() * pow2((31 + o) as nat)
                &&& r.1 == h
                &&& 0x4000_0000_0000_0000 <= r.0 < 0x1_0000_0000_0000_0000
                &&& -64 <= h <= 63
            }),
    {
        proof {
            lemma_mant(self.fraction);
            lemma_pow2_30_32();
            crate::basic::lemma_normal_sign(*self);
        }
        let k = logical_exp(self.exponent);
        let h: i32 = if k >= 0 {
            k / 2
        } else {
            -((-k + 1) / 2)
        };
        let o = k - 2 * h;
        proof {
            if k < 0 {
                crate::bits::lemma_div_exact_q(k as int, 2, h as int);
            }
            assert(h == fdiv(k as int, 2));
        }
        let w = (self.fraction as i64 + 0x1_0000_0000) as u128;
        let p = pow2_u128((31 + o) as u32);
        proof {
            lemma2_to64();
            assert(0x4000_0000_0000_0000 <= w * p < 0x1_0000_0000_0000_0000) by (nonlinear_arith)
                requires
                    0x8000_0000 <= w < 0x1_0000_0000,
                    p == 0x8000_0000 || p == 0x1_0000_0000,
                    p == 0x1_0000_0000 ==> w < 0x1_0000_0000,
                    p == 0x1_0000_0000 ==> true,
            ;
        }
        (w * p, h)
    }

    fn sqrt_pack(root: u64, h: i32) -> (r: Scalar)
        requires
            0x8000_0000 <= root < 0x1_0000_0000,
            -64 <= h <= 63,
        ensures
            r == sc(stored_frac(root as int), stored_exp(h as int)),
    {
        Scalar { fraction: (root as i64 - 0x1_0000_0000) as i32, exponent: stored_exp_of(h) }
    }

    /// Square root, rounded down (integer square root by bisection).
    pub fn sqrt(&self) -> (r: Scalar)
        ensures
            r == sqrt_spec(*self),
    {
        if let Some(v) = self.sqrt_special() {
            return v;
        }
        let (n, h) = self.sqrt_parts();
        let root = isqrt_bisect(n);
        proof {
            lemma_isqrt_unique(n as int, root as int);
            lemma_root_band(n as int, root as int);
        }
        Scalar::sqrt_pack(root, h)
    }

    /// Square root, rounded down (integer square root by Newton's iteration).
    pub fn sqrt_newton(&self) -> (r: Scalar)
        ensures
            r == sqrt_spec(*self),
    {
        if let Some(v) = self.sqrt_special() {
            return v;
        }
        let (n, h) = self.sqrt_parts();
        let root = isqrt_newton(n);
        proof {
            lemma_isqrt_unique(n as int, root as int);
            lemma_root_band(n as int, root as int);
        }
        Scalar::sqrt_pack(root, h)
    }
}

pub proof fn lemma_root_band(n: int, r: int)
    requires
        is_isqrt(n, r),
        0x4000_0000_0000_0000 <= n < 0x1_0000_0000_0000_0000,
    ensures
        0x8000_0000 <= r < 0x1_0000_0000,
{
    if r >= 0x1_0000_0000 {
        assert(r * r >= 0x1_0000_0000_0000_0000) by (nonlinear_arith)
            requires
                r >= 0x1_0000_0000,
        ;
    }
    if r < 0x8000_0000 {
        assert((r + 1) * (r + 1) <= 0x4000_0000_0000_0000) by (nonlinear_arith)
            requires
                0 <= r < 0x8000_0000,
        ;
    }
}

} // verus!
