//! Spirix: a two's-complement number format: `Scalar` (real) and `Circle`
//! (complex) values with escaped (exploded / vanished) and undefined states.
pub mod bits;
pub mod undefined;
pub mod scalar;
pub mod basic;
pub mod neg;
pub mod arith;
pub mod order;
pub mod rounding;
pub mod bitwise;
pub mod circle;
pub mod roots;
pub mod circle_arith;
pub mod cbitwise;
pub mod modular;
pub mod cmodular;
pub mod exponents;
pub mod croots;
pub mod cexponents;
pub mod ctranscend;
pub mod random;
pub mod prime;
pub mod colours;
pub mod debug_text;
pub mod display;
pub mod laws;
pub mod circle_laws;
pub mod transcend_laws;

pub use circle::Circle;
pub use colours::{ColourScheme, ScalarColours};
pub use scalar::Scalar;
