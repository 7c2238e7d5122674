//! Binary and natural logarithms, the exponential function and integer
//! powers of `Scalar` values, computed with the format's own arithmetic.
use crate::arith::{add_spec, div_spec, mul_spec, square_spec};
use crate::bitwise::{and_spec, shl_spec};
use crate::cmodular::sub_spec;
use crate::neg::magnitude_spec;
use crate::rounding::floor_spec;
use crate::scalar::{pack, pack_spec, sc, stored_exp, stored_exp_of, logical_exp, Scalar};
use crate::order::gt_spec;
use crate::rounding::integer_spec;
use crate::scalar::{POS_ONE_EXPLODED, POS_ONE_VANISHED};
use crate::undefined::{
    LOG_NEGATIVE, LOG_NEGLIGIBLE, LOG_ONE, LOG_TRANSFINITE, NEGATIVE_LOG, NEGATIVE_POWER,
    NEGLIGIBLE_LOG, POWER_TRANSFINITE, POWER_VANISHED, TRANSFINITE_LOG, TRANSFINITE_POWER,
    VANISHED_POWER,
};
use vstd::arithmetic::power2::*;
use vstd::prelude::*;

verus! {

/// One, `+1.0`.
pub open spec fn one_spec() -> Scalar {
    sc(-0x8000_0000i32, stored_exp(0))
}

/// `e` rounded toward negative infinity to the format.
pub open spec fn e_spec() -> Scalar {
    sc(-1376234408i32, stored_exp(1))
}

/// `ln 2` rounded toward negative infinity to the format.
pub open spec fn ln_two_spec() -> Scalar {
    sc(-1317922825i32, stored_exp(-1))
}

/// One step of the binary logarithm's digit recurrence on a value in
/// `[1, 2)`: square it; a square in `[2, 4)` gives a one bit and is halved
/// back into `[1, 2)`.
pub open spec fn lb_step(x: Scalar) -> (bool, Scalar) {
    let y = square_spec(x);
    if y.normal_s() && y.k() > 0 {
        (true, sc(y.fraction, stored_exp(y.k() - 1)))
    } else {
        (false, y)
    }
}

/// The first `n` fraction bits of the binary logarithm of `x` in `[1, 2)`
/// (most significant first), and the value left after `n` steps.
pub open spec fn lb_bits(x: Scalar, n: nat) -> (int, Scalar)
    decreases n,
{
    if n == 0 {
        (0, x)
    } else {
        let prev = lb_bits(x, (n - 1) as nat);
        let step = lb_step(prev.1);
        (2 * prev.0 + if step.0 {
            1int
        } else {
            0int
        }, step.1)
    }
}

/// Binary logarithm: the exponent of a positive normal value plus 32 bits of
/// the logarithm of its significand in `[1, 2)`, found by repeated squaring;
/// `lb(0)` and `lb(∞)` are infinity; negative, exploded and vanished inputs
/// are undefined.
pub open spec fn lb_spec(x: Scalar) -> Scalar {
    if !x.normal_s() {
        if x.undefined_s() {
            x
        } else if x.zero_s() || x.infinite_s() {
            sc(-1i32, 0i8)
        } else if x.exploded_s() {
            sc(TRANSFINITE_LOG, 0)
        } else {
            sc(NEGLIGIBLE_LOG, 0)
        }
    } else if x.negative_s() {
        sc(NEGATIVE_LOG, 0)
    } else {
        let raw = lb_bits(sc(x.fraction, stored_exp(0)), 32).0;
        add_spec(pack_spec(x.k(), 0), pack_spec(raw, -32))
    }
}

/// Natural logarithm: `lb(x) * ln 2`.
pub open spec fn ln_spec(x: Scalar) -> Scalar {
    mul_spec(lb_spec(x), ln_two_spec())
}

/// State of the exponential's Taylor series after `n` terms: the running
/// sum, the sum before the last term, `f^n`, `n!`, and whether the series
/// has stopped (a term no longer changed the sum, or the sum left the
/// normal range).
pub open spec fn series(f: Scalar, n: nat) -> (Scalar, Scalar, Scalar, Scalar, bool)
    decreases n,
{
    if n == 0 {
        (one_spec(), sc(0i32, 0i8), one_spec(), one_spec(), false)
    } else {
        let s = series(f, (n - 1) as nat);
        if s.4 || !s.0.normal_s() {
            (s.0, s.1, s.2, s.3, true)
        } else {
            let power = mul_spec(s.2, f);
            let factorial = mul_spec(s.3, pack_spec(n as int, 0));
            let sum = add_spec(s.0, div_spec(power, factorial));
            (sum, s.0, power, factorial, sum == s.0)
        }
    }
}

/// State of `e^n` by binary powering after `n` bits of the exponent `m`:
/// the product so far, the current power `e^(2^i)`, what is left of `m`
/// (halved each step), and whether the walk has stopped.
pub open spec fn epow(m: Scalar, n: nat) -> (Scalar, Scalar, Scalar, bool)
    decreases n,
{
    if n == 0 {
        (one_spec(), e_spec(), m, false)
    } else {
        let s = epow(m, (n - 1) as nat);
        if s.3 {
            s
        } else {
            let product = if and_spec(s.2, one_spec()) == one_spec() {
                mul_spec(s.0, s.1)
            } else {
                s.0
            };
            let rest = shl_spec(s.2, -1);
            if rest.vanished_s() || rest.zero_s() || !product.normal_s() {
                (product, s.1, rest, true)
            } else {
                (product, square_spec(s.1), rest, false)
            }
        }
    }
}

/// Exponential of a normal value: `e^floor(x)` by binary powering of `e`
/// (inverted for a negative integer part) times the Taylor series of the
/// fractional part, summed for at most 64 terms.
pub open spec fn exp_normal_spec(x: Scalar) -> Scalar {
    let ip = floor_spec(x);
    let f = sub_spec(x, ip);
    let partial = series(f, 64).1;
    let p = epow(magnitude_spec(ip), 32).0;
    let q = if ip.negative_s() {
        div_spec(one_spec(), p)
    } else {
        p
    };
    mul_spec(partial, q)
}

/// Exponential over all states: `e^0 = 1`; infinity and undefined states
/// are unchanged; an exploded input gives zero when negative and is
/// undefined when positive; a vanished input gives one, or the value just
/// below one when negative.
pub open spec fn exp_spec(x: Scalar) -> Scalar {
    if !x.normal_s() {
        if x.undefined_s() {
            x
        } else if x.zero_s() {
            one_spec()
        } else if x.infinite_s() {
            x
        } else if x.exploded_s() {
            if x.negative_s() {
                sc(0i32, 0i8)
            } else {
                sc(POWER_TRANSFINITE, 0)
            }
        } else if x.negative_s() {
            sc(-1i32, stored_exp(-1))
        } else {
            one_spec()
        }
    } else {
        exp_normal_spec(x)
    }
}

/// `2^x`, as `e^(x ln 2)`.
pub open spec fn powb_spec(x: Scalar) -> Scalar {
    exp_spec(mul_spec(x, ln_two_spec()))
}

impl Scalar {
    /// `e`.
    pub fn e() -> (r: Scalar)
        ensures
            r == e_spec(),
    {
        Scalar { fraction: -1376234408, exponent: stored_exp_of(1) }
    }

    /// `ln 2`.
    pub fn ln_two() -> (r: Scalar)
        ensures
            r == ln_two_spec(),
    {
        Scalar { fraction: -1317922825, exponent: stored_exp_of(-1) }
    }

    /// The integer `n` as a Scalar (exact).
    pub fn from_int(n: i64) -> (r: Scalar)
        ensures
            r == pack_spec(n as int, 0),
    {
        proof {
            crate::bits::lemma_sbits_64(n as int);
        }
        pack(n as i128, 0)
    }

    fn lb_step_exec(x: &Scalar) -> (r: (bool, Scalar))
        ensures
            r == lb_step(*x),
    {
        let y = x.square();
        if y.is_normal() {
            let k = logical_exp(y.exponent);
            if k > 0 {
                return (true, Scalar { fraction: y.fraction, exponent: stored_exp_of(k - 1) });
            }
        }
        (false, y)
    }

    /// Binary logarithm.
    pub fn lb(&self) -> (r: Scalar)
        ensures
            r == lb_spec(*self),
    {
        if !self.is_normal() {
            if self.is_undefined() {
                return *self;
            }
            if self.is_zero() || self.is_infinite() {
                return Scalar::infinity();
            }
            if self.exploded() {
                return Scalar { fraction: TRANSFINITE_LOG, exponent: 0 };
            }
            return Scalar { fraction: NEGLIGIBLE_LOG, exponent: 0 };
        }
        if self.is_negative() {
            return Scalar { fraction: NEGATIVE_LOG, exponent: 0 };
        }
        let k = logical_exp(self.exponent);
        let start = Scalar { fraction: self.fraction, exponent: stored_exp_of(0) };
        let mut x = start;
        let mut raw: i64 = 0;
        let mut i: u32 = 0;
        proof {
            lemma2_to64();
        }
        while i < 32
            invariant
                i <= 32,
                (raw as int, x) == lb_bits(start, i as nat),
                0 <= raw < pow2(i as nat),
            decreases 32 - i,
        {
            let (b, y) = Scalar::lb_step_exec(&x);
            proof {
                lemma_pow2_unfold((i + 1) as nat);
                crate::bits::lemma_pow2_le((i + 1) as nat, 32);
                lemma2_to64();
            }
            raw = 2 * raw + if b {
                1
            } else {
                0
            };
            x = y;
            i = i + 1;
        }
        proof {
            crate::bits::lemma_sbits_64(raw as int);
        }
        let fractional = pack(raw as i128, -32);
        Scalar::from_int(k as i64).scalar_add_scalar(&fractional)
    }

    /// Natural logarithm.
    pub fn ln(&self) -> (r: Scalar)
        ensures
            r == ln_spec(*self),
    {
        self.lb().scalar_multiply_scalar(&Scalar::ln_two())
    }

    fn subtract(&self, other: &Scalar) -> (r: Scalar)
        ensures
            r == sub_spec(*self, *other),
    {
        let mut n = *other;
        n.scalar_negate();
        self.scalar_add_scalar(&n)
    }

    /// Exponential of a normal value.
    fn exp_normal(&self) -> (r: Scalar)
        requires
            self.normal_s(),
        ensures
            r == exp_normal_spec(*self),
    {
        let ip = self.floor();
        let f = self.subtract(&ip);
        let mut cur = Scalar::one();
        let mut prev = Scalar::zero();
        let mut power = Scalar::one();
        let mut factorial = Scalar::one();
        let mut done = false;
        let mut n: u32 = 0;
        while n < 64
            invariant
                n <= 64,
                (cur, prev, power, factorial, done) == series(f, n as nat),
            decreases 64 - n,
        {
            n = n + 1;
            if !done && cur.is_normal() {
                let p2 = power.scalar_multiply_scalar(&f);
                let f2 = factorial.scalar_multiply_scalar(&Scalar::from_int(n as i64));
                let s2 = cur.scalar_add_scalar(&p2.scalar_divide_scalar(&f2));
                done = s2.fraction == cur.fraction && s2.exponent == cur.exponent;
                prev = cur;
                cur = s2;
                power = p2;
                factorial = f2;
            } else {
                done = true;
            }
        }
        let m = ip.magnitude();
        let one = Scalar::one();
        let mut product = Scalar::one();
        let mut pw = Scalar::e();
        let mut rest = m;
        let mut stop = false;
        let mut i: u32 = 0;
        while i < 32
            invariant
                i <= 32,
                (product, pw, rest, stop) == epow(m, i as nat),
                one == one_spec(),
            decreases 32 - i,
        {
            i = i + 1;
            if !stop {
                let bit = rest.aligned_and(&one);
                if bit.fraction == one.fraction && bit.exponent == one.exponent {
                    product = product.scalar_multiply_scalar(&pw);
                }
                rest = rest.scalar_shr_integer(&1i8);
                if rest.vanished() || rest.is_zero() || !product.is_normal() {
                    stop = true;
                } else {
                    pw = pw.square();
                }
            }
        }
        let q = if ip.is_negative() {
            one.scalar_divide_scalar(&product)
        } else {
            product
        };
        prev.scalar_multiply_scalar(&q)
    }

    /// The exponential function `e^x`.
    pub fn exp(&self) -> (r: Scalar)
        ensures
            r == exp_spec(*self),
    {
        if !self.is_normal() {
            if self.is_undefined() {
                return *self;
            }
            if self.is_zero() {
                return Scalar::one();
            }
            if self.is_infinite() {
                return *self;
            }
            if self.exploded() {
                if self.is_negative() {
                    return Scalar::zero();
                }
                return Scalar { fraction: POWER_TRANSFINITE, exponent: 0 };
            }
            if self.is_negative() {
                return Scalar::effectively_pos_one();
            }
            return Scalar::one();
        }
        self.exp_normal()
    }

    /// `2^x`.
    pub fn powb(&self) -> (r: Scalar)
        ensures
            r == powb_spec(*self),
    {
        self.scalar_multiply_scalar(&Scalar::ln_two()).exp()
    }
}


/// What is left of an integer-power exponent: zero, a positive normal value
/// or a non-negative vanished one.
pub open spec fn pow_left(e: Scalar) -> bool {
    e.zero_s() || (e.normal_s() && e.positive_s()) || (e.vanished_s() && !e.negative_s())
}

/// Size of an integer-power exponent, which every halving step reduces.
pub open spec fn pow_measure(e: Scalar) -> nat {
    if e.normal_s() {
        (e.k() + 129) as nat
    } else if e.zero_s() {
        0
    } else {
        1
    }
}

/// Halving an exponent and dropping its fraction leaves a smaller one.
pub proof fn lemma_halve_floor(e: Scalar)
    requires
        pow_left(e),
        !e.zero_s(),
    ensures
        pow_left(floor_spec(shl_spec(e, -1))),
        pow_measure(floor_spec(shl_spec(e, -1))) < pow_measure(e),
{
    let z = shl_spec(e, -1);
    let y = floor_spec(z);
    crate::scalar::lemma_pow2_30_32();
    if e.normal_s() {
        crate::scalar::lemma_mant(e.fraction);
        crate::basic::lemma_normal_sign(e);
        let k = e.k();
        if k - 1 >= -127 {
            crate::scalar::lemma_stored_exp(k - 1);
            assert(z == sc(e.fraction, stored_exp(k - 1)));
            assert(z.normal_s() && z.k() == k - 1 && z.w() == e.w());
            if k - 1 >= 31 {
                assert(y == z);
            } else {
                let j = (31 - (k - 1)) as nat;
                let q = crate::rounding::floor_part(z.w(), j);
                assert(y == pack_spec(q, 0));
                lemma_pow2_pos(j);
                assert(q == z.w() / pow2(j) as int);
                if k >= 1 {
                    crate::bits::lemma_band_div(z.w(), 32, j);
                    crate::bits::lemma_band_sbits(q, (32 - j) as nat);
                    crate::scalar::lemma_pack_class(q, 0);
                } else {
                    crate::bits::lemma_pow2_le(32, j);
                    vstd::arithmetic::div_mod::lemma_basic_div(z.w(), pow2(j) as int);
                }
            }
        } else {
            assert(z.vanished_s() && !z.negative_s());
        }
    }
}

/// Exponentiation by squaring: multiply the accumulator by the base for
/// each one bit of the exponent, squaring the base and halving the exponent.
pub open spec fn pow_loop(base: Scalar, e: Scalar, acc: Scalar) -> Scalar
    decreases pow_measure(e),
{
    if e.zero_s() || !pow_left(e) {
        acc
    } else {
        proof {
            lemma_halve_floor(e);
        }
        let acc2 = if and_spec(e, one_spec()) == one_spec() {
            mul_spec(acc, base)
        } else {
            acc
        };
        pow_loop(square_spec(base), floor_spec(shl_spec(e, -1)), acc2)
    }
}

/// `x^n` by squaring for an integer-valued `n`: `x^0 = 1`; a negative `n`
/// raises the reciprocal of `x`.
pub open spec fn integer_power_spec(x: Scalar, n: Scalar) -> Scalar {
    if n.zero_s() {
        one_spec()
    } else {
        pow_loop(
            if n.negative_s() {
                div_spec(one_spec(), x)
            } else {
                x
            },
            magnitude_spec(n),
            one_spec(),
        )
    }
}

/// `x^p` over all states. Undefined propagates; `x^0 = 1` and `1^p = 1`;
/// `0^p` is zero or infinity by the sign of `p`; an integer `p` raises by
/// squaring for any base; a negative base with any other exponent is
/// undefined; a positive base with a non-integer `p` uses `e^(p ln x)`.
/// Escaped bases and exponents resolve by magnitude dominance where it is
/// determinate and are undefined otherwise.
pub open spec fn power_spec(a: Scalar, p: Scalar) -> Scalar {
    let general = if integer_spec(p) {
        integer_power_spec(a, p)
    } else if a.negative_s() {
        sc(NEGATIVE_POWER, 0)
    } else {
        exp_spec(mul_spec(p, ln_spec(a)))
    };
    let dominant = |exploded: bool|
        sc(
            if exploded {
                POS_ONE_EXPLODED
            } else {
                POS_ONE_VANISHED
            },
            0,
        );
    if a.normal_s() && p.normal_s() {
        general
    } else if a.undefined_s() {
        a
    } else if p.undefined_s() {
        p
    } else if p.zero_s() {
        one_spec()
    } else if a == one_spec() {
        a
    } else if a.zero_s() {
        if p.negative_s() {
            sc(-1i32, 0i8)
        } else {
            sc(0i32, 0i8)
        }
    } else if a.infinite_s() {
        if p.negative_s() || p.exponent > 0 {
            sc(0i32, 0i8)
        } else {
            a
        }
    } else if a.exploded_s() || a.vanished_s() {
        if p.normal_s() {
            if integer_spec(p) {
                integer_power_spec(a, p)
            } else if a.negative_s() {
                sc(NEGATIVE_POWER, 0)
            } else if gt_spec(magnitude_spec(p), one_spec()) {
                dominant(if p.positive_s() { a.exploded_s() } else { !a.exploded_s() })
            } else if a.exploded_s() {
                sc(TRANSFINITE_POWER, 0)
            } else {
                sc(VANISHED_POWER, 0)
            }
        } else if p.vanished_s() {
            sc(POWER_VANISHED, 0)
        } else if p.infinite_s() || a.negative_s() {
            sc(POWER_TRANSFINITE, 0)
        } else {
            dominant(if p.positive_s() { a.exploded_s() } else { !a.exploded_s() })
        }
    } else if p.exploded_s() {
        sc(POWER_TRANSFINITE, 0)
    } else if a.negative_s() {
        sc(NEGATIVE_POWER, 0)
    } else if p.zero_s() || p.vanished_s() {
        sc(POWER_VANISHED, 0)
    } else {
        general
    }
}

/// `log_base(x)` over all states: undefined propagates; base one, a
/// negative value or base, and escaped values or bases are undefined (each
/// with its own cause); otherwise `lb(x) / lb(base)`, which also covers
/// zero and infinity through `lb(0) = lb(∞) = ∞`.
pub open spec fn log_spec(x: Scalar, base: Scalar) -> Scalar {
    if x.undefined_s() {
        x
    } else if base.undefined_s() {
        base
    } else if base == one_spec() {
        sc(LOG_ONE, 0)
    } else if x.negative_s() {
        sc(NEGATIVE_LOG, 0)
    } else if base.negative_s() {
        sc(LOG_NEGATIVE, 0)
    } else if x.exploded_s() {
        sc(TRANSFINITE_LOG, 0)
    } else if x.vanished_s() {
        sc(NEGLIGIBLE_LOG, 0)
    } else if base.exploded_s() {
        sc(LOG_TRANSFINITE, 0)
    } else if base.vanished_s() {
        sc(LOG_NEGLIGIBLE, 0)
    } else {
        div_spec(lb_spec(x), lb_spec(base))
    }
}

impl Scalar {
    fn is_one(&self) -> (r: bool)
        ensures
            r == (*self == one_spec()),
    {
        self.fraction == -0x8000_0000 && self.exponent == stored_exp_of(0)
    }

    /// `self^n` by squaring, for an integer-valued `n`.
    pub fn integer_power(&self, n: &Scalar) -> (r: Scalar)
        ensures
            r == integer_power_spec(*self, *n),
    {
        let one = Scalar::one();
        if n.is_zero() {
            return one;
        }
        let mut base = if n.is_negative() {
            one.scalar_divide_scalar(self)
        } else {
            *self
        };
        let mut e = n.magnitude();
        let mut acc = one;
        while !e.is_zero() && (e.is_normal() && e.is_positive() || e.vanished() && !e.is_negative())
            invariant
                one == one_spec(),
                pow_loop(base, e, acc) == integer_power_spec(*self, *n),
            decreases pow_measure(e),
        {
            proof {
                lemma_halve_floor(e);
            }
            let bit = e.aligned_and(&one);
            if bit.fraction == one.fraction && bit.exponent == one.exponent {
                acc = acc.scalar_multiply_scalar(&base);
            }
            base = base.square();
            e = e.scalar_shr_integer(&1i8).floor();
        }
        acc
    }

    /// `self^p`.
    pub fn scalar_power_scalar(&self, p: &Scalar) -> (r: Scalar)
        ensures
            r == power_spec(*self, *p),
    {
        if !self.is_normal() || !p.is_normal() {
            if self.is_undefined() {
                return *self;
            }
            if p.is_undefined() {
                return *p;
            }
            if p.is_zero() {
                return Scalar::one();
            }
            if self.is_one() {
                return *self;
            }
            if self.is_zero() {
                if p.is_negative() {
                    return Scalar::infinity();
                }
                return Scalar::zero();
            }
            if self.is_infinite() {
                if p.is_negative() || p.exponent > 0 {
                    return Scalar::zero();
                }
                return *self;
            }
            if self.exploded() || self.vanished() {
                let base_exploded = self.exploded();
                if p.is_normal() {
                    if p.is_integer() {
                        return self.integer_power(p);
                    }
                    if self.is_negative() {
                        return Scalar { fraction: NEGATIVE_POWER, exponent: 0 };
                    }
                    if p.magnitude().greater_than(&Scalar::one()) {
                        let result_exploded = if p.is_positive() {
                            base_exploded
                        } else {
                            !base_exploded
                        };
                        return Scalar {
                            fraction: if result_exploded {
                                POS_ONE_EXPLODED
                            } else {
                                POS_ONE_VANISHED
                            },
                            exponent: 0,
                        };
                    }
                    if base_exploded {
                        return Scalar { fraction: TRANSFINITE_POWER, exponent: 0 };
                    }
                    return Scalar { fraction: VANISHED_POWER, exponent: 0 };
                }
                if p.vanished() {
                    return Scalar { fraction: POWER_VANISHED, exponent: 0 };
                }
                if p.is_infinite() || self.is_negative() {
                    return Scalar { fraction: POWER_TRANSFINITE, exponent: 0 };
                }
                let result_exploded = if p.is_positive() {
                    base_exploded
                } else {
                    !base_exploded
                };
                return Scalar {
                    fraction: if result_exploded {
                        POS_ONE_EXPLODED
                    } else {
                        POS_ONE_VANISHED
                    },
                    exponent: 0,
                };
            }
            if p.exploded() {
                return Scalar { fraction: POWER_TRANSFINITE, exponent: 0 };
            }
            if self.is_negative() {
                return Scalar { fraction: NEGATIVE_POWER, exponent: 0 };
            }
            if p.is_negligible() {
                return Scalar { fraction: POWER_VANISHED, exponent: 0 };
            }
        }
        if p.is_integer() {
            return self.integer_power(p);
        }
        if self.is_negative() {
            return Scalar { fraction: NEGATIVE_POWER, exponent: 0 };
        }
        p.scalar_multiply_scalar(&self.ln()).exp()
    }

    /// `log_base(self)`.
    pub fn scalar_logarithm_scalar(&self, base: &Scalar) -> (r: Scalar)
        ensures
            r == log_spec(*self, *base),
    {
        if self.is_undefined() {
            return *self;
        }
        if base.is_undefined() {
            return *base;
        }
        if base.is_one() {
            return Scalar { fraction: LOG_ONE, exponent: 0 };
        }
        if self.is_negative() {
            return Scalar { fraction: NEGATIVE_LOG, exponent: 0 };
        }
        if base.is_negative() {
            return Scalar { fraction: LOG_NEGATIVE, exponent: 0 };
        }
        if self.exploded() {
            return Scalar { fraction: TRANSFINITE_LOG, exponent: 0 };
        }
        if self.vanished() {
            return Scalar { fraction: NEGLIGIBLE_LOG, exponent: 0 };
        }
        if base.exploded() {
            return Scalar { fraction: LOG_TRANSFINITE, exponent: 0 };
        }
        if base.vanished() {
            return Scalar { fraction: LOG_NEGLIGIBLE, exponent: 0 };
        }
        self.lb().scalar_divide_scalar(&base.lb())
    }
}
} // verus!
