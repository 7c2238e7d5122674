# spirix

A two's-complement number format with verified arithmetic: `Scalar` (real)
and `Circle` (complex) values made of 32-bit fractions and an 8-bit
exponent, with escaped (exploded and vanished) states for results beyond
the exponent range and undefined states that record their cause.

`src/` is the library, written in Verus: every function carries a contract
over a mathematical model of the values (spec functions in the same files),
and the laws that tie operations together are proof functions
(`laws.rs`, `circle_laws.rs`, and the laws in `order.rs`).

- `scalar.rs`, `basic.rs`, `bits.rs`: the representation, packing and
  classification of Scalars.
- `neg.rs`, `arith.rs`, `order.rs`, `rounding.rs`, `bitwise.rs`,
  `modular.rs`, `roots.rs`, `exponents.rs`: Scalar operations.
- `circle.rs`, `circle_arith.rs`, `cbitwise.rs`, `cmodular.rs`,
  `croots.rs`, `cexponents.rs`, `ctranscend.rs`: Circle operations.
- `random.rs`, `prime.rs`: random values (through `rand`) and primality
  (through `num-prime`).
- `colours.rs`, `debug_text.rs`, `display.rs`: debug and display text.

`app/` wraps the values in types with `Display` and `Debug`; `tests/` holds
the tests.
