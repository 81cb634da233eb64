//! Arbitrary-precision signed integers over 32-bit limbs, with every
//! arithmetic kernel proved against a mathematical model of its value.

pub mod digit;
pub mod sign;
pub mod bigint;
pub mod kernel;
pub mod ops;
pub mod div;
pub mod shift;
pub mod errors;
pub mod parse;
pub mod format;
pub mod opimpl;
pub mod rchunks;
pub mod laws;
