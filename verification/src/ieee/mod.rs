//! IEEE 754 arithmetic on encodings.
//!
//! Results are the same on every machine, which a galaxy that is computed on demand rests on:
//! each operation returns the encoding nearest to the exact result, ties to even.
pub mod accuracy;
pub mod bounds;
pub mod codes;
pub mod convert;
pub mod double;
pub mod encoding;
pub mod error;
pub mod exact;
pub mod power;
pub mod root;
pub mod rounding;
pub mod signed;
pub mod single;

pub use encoding::{Double, Single};
