//! Primality of integer-valued Scalars, through `num_prime`.
use crate::bits::floor_shr;
use crate::rounding::{frac_bits, integer_spec};
use crate::scalar::{lemma_mant, lemma_pow2_30_32, logical_exp, Scalar};
use vstd::arithmetic::power2::*;
use vstd::prelude::*;

verus! {

/// `n` is a prime number.
pub open spec fn prime(n: int) -> bool {
    n >= 2 && forall|d: int| 2 <= d < n ==> #[trigger] (n % d) != 0
}

/// `num_prime::nt_funcs::is_prime64`: its documentation describes a
/// deterministic primality test for every `u64`, so the result is claimed
/// to be exactly whether `n` is prime.
#[verifier::external_body]
fn is_prime64(n: u64) -> (r: bool)
    ensures
        r == prime(n as int),
{
    num_prime::nt_funcs::is_prime64(n)
}

/// The integer value of a normal Scalar at an exponent below 32.
pub open spec fn int_value(x: Scalar) -> int {
    x.w() / pow2(frac_bits(x.k())) as int
}

/// Prime: a positive normal integer between `2` and `2^32` that is prime;
/// zero, negative, non-integer and non-normal values are not.
pub open spec fn is_prime_spec(x: Scalar) -> bool {
    &&& x.normal_s()
    &&& x.positive_s()
    &&& 1 <= x.k() < 32
    &&& integer_spec(x)
    &&& prime(int_value(x))
}

impl Scalar {
    /// Whether this Scalar is a prime number.
    pub fn is_prime(&self) -> (r: bool)
        ensures
            r == is_prime_spec(*self),
    {
        if !self.is_normal() || !self.is_positive() {
            return false;
        }
        let k = logical_exp(self.exponent);
        if k < 1 || k >= 32 {
            return false;
        }
        if !self.is_integer() {
            return false;
        }
        proof {
            lemma_mant(self.fraction);
            lemma_pow2_30_32();
            crate::basic::lemma_normal_sign(*self);
        }
        let w = self.significand();
        let n = floor_shr(w as i128, (31 - k) as u32);
        proof {
            lemma_pow2_pos((31 - k) as nat);
            vstd::arithmetic::div_mod::lemma_div_is_ordered(0, w as int, pow2((31 - k) as nat) as int);
            vstd::arithmetic::div_mod::lemma_div_is_ordered_by_denominator(w as int, 1, pow2((31 - k) as nat) as int);
            lemma2_to64();
        }
        is_prime64(n as u64)
    }
}

} // verus!
