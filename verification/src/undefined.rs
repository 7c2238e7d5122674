//! Fractions that tag undefined results. Each one carries its cause in the
//! high byte (an N3+ pattern: the top three bits agree, the byte does not),
//! always paired with the reserved exponent.
use vstd::prelude::*;

verus! {

pub const GENERAL: i32 = 0x1F00_0000;
pub const SIGN_INDETERMINATE: i32 = 0x0100_0000;
pub const MAX_UNORDERED: i32 = 0x0200_0000;
pub const MIN_UNORDERED: i32 = 0x0300_0000;
pub const CLAMP_UNORDERED: i32 = 0x0400_0000;
pub const FRACTIONAL_INFINITY: i32 = 0x0500_0000;
pub const TRANSFINITE_PLUS_TRANSFINITE: i32 = 0x0600_0000;
pub const VANISHED_PLUS_VANISHED: i32 = 0x0700_0000;
pub const TRANSFINITE_PLUS_FINITE: i32 = 0x0800_0000;
pub const FINITE_PLUS_TRANSFINITE: i32 = 0x0900_0000;
pub const TRANSFINITE_MULTIPLY_NEGLIGIBLE: i32 = 0x0A00_0000;
pub const NEGLIGIBLE_MULTIPLY_TRANSFINITE: i32 = 0x0B00_0000;
pub const NEGLIGIBLE_DIVIDE_NEGLIGIBLE: i32 = 0x0C00_0000;
pub const TRANSFINITE_DIVIDE_TRANSFINITE: i32 = 0x0D00_0000;
pub const AND: i32 = 0x0E00_0000;
pub const OR: i32 = 0x0F00_0000;
pub const XOR: i32 = 0x1000_0000;
pub const SQRT_NEGATIVE: i32 = 0x1100_0000;
pub const SQRT_EXPLODED: i32 = 0x1200_0000;
pub const SQRT_VANISHED: i32 = 0x1300_0000;
pub const NEGATIVE_LOG: i32 = 0x1400_0000;
pub const TRANSFINITE_LOG: i32 = 0x1500_0000;
pub const NEGLIGIBLE_LOG: i32 = 0x1600_0000;
pub const POWER_TRANSFINITE: i32 = 0x1700_0000;
pub const MODULUS_TRANSFINITE: i32 = 0x1800_0000;
pub const MODULUS_VANISHED: i32 = 0x1900_0000;
pub const TRANSFINITE_MODULUS: i32 = 0x1A00_0000;
pub const TRANSFINITE_MODULUS_TRANSFINITE: i32 = 0x1B00_0000;
pub const VANISHED_MODULUS_VANISHED: i32 = 0x1C00_0000;
pub const TRANSFINITE_MODULO: i32 = 0x1D00_0000;
pub const MODULO_VANISHED: i32 = 0x1E00_0000;
pub const NEGATIVE_POWER: i32 = -0x0200_0000;
pub const TRANSFINITE_POWER: i32 = -0x0300_0000;
pub const VANISHED_POWER: i32 = -0x0400_0000;
pub const POWER_VANISHED: i32 = -0x0500_0000;
pub const LOG_ONE: i32 = -0x0600_0000;
pub const LOG_NEGATIVE: i32 = -0x0700_0000;
pub const LOG_TRANSFINITE: i32 = -0x0800_0000;
pub const LOG_NEGLIGIBLE: i32 = -0x0900_0000;
pub const NEGLIGIBLE_POWER: i32 = -0x0A00_0000;
pub const POWER_NEGLIGIBLE: i32 = -0x0B00_0000;

} // verus!
