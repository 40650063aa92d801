//! Fixed-point decimal arithmetic for financial computations.
//!
//! A decimal is an integer that counts its smallest units: a value with
//! `DIGITS` fractional digits is stored as itself times 10^DIGITS. Addition and
//! subtraction are therefore native integer operations without any rounding
//! error. Multiplication and division work on the exact double-width
//! intermediate and round once, with a choice of rounding modes.
//!
//! Three backings share these semantics:
//!
//! * [`Amount64`] and [`Rate64`] ([`Decimal`]), backed by `i64`;
//! * [`Amount128`] and [`Rate128`] ([`Decimal128`]), backed by `i128`;
//! * [`Amount256`] and [`Rate256`] ([`Decimal256`]), backed by a 256-bit
//!   integer ([`I256`]).
//!
//! The `Amount` types have 4 fractional digits, the `Rate` types 8.
//!
//! Contracts are stated over mathematical integers: [`rounding`] says what a
//! rounded product, quotient or whole number is, [`parse`] what text denotes,
//! [`render`] what text a value has, and [`laws`] what holds across operations.
//! The other modules of laws say what single operations are: [`number_laws`] of
//! numbers, [`text_laws`] of text, [`backing_laws`] of bits, bytes and limbs, and
//! [`laws64`], [`laws128`] and [`laws256`] of the operators of each type.

pub mod arith;
pub mod backing_laws;
pub mod bytes;
pub mod decimal128;
pub mod decimal256;
pub mod decimal64;
pub mod error;
pub mod i256;
pub mod knuth;
pub mod laws;
pub mod laws128;
pub mod laws256;
pub mod laws64;
pub mod limbs;
pub mod number_laws;
pub mod ops128;
pub mod ops256;
pub mod ops64;
pub mod parse;
pub mod parts;
pub mod pow10;
pub mod render;
pub mod rounding;
pub mod text;
pub mod text_laws;
pub mod value;
pub mod word_div;

pub use decimal128::{Amount128, Decimal128, Rate128};
pub use decimal256::{Amount256, Decimal256, Rate256};
pub use decimal64::{parse_decimal_i64, parse_decimal_i64_rounded, Amount64, Decimal, Rate64};
pub use error::AmountErrorKind;
pub use i256::I256;
pub use render::{str_i64, AmountSign};
pub use rounding::Rounding;
