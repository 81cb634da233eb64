//! The ways in which parsing a `BigInt` can fail.

use vstd::prelude::*;

verus! {

/// Why a string is not a `BigInt`.
#[derive(Clone, Copy, Debug, PartialEq, Eq, Structural, Hash)]
pub enum BigIntParseError {
    /// A character that is not a digit of the radix.
    InvalidCharacters,
    /// No digits at all.
    EmptyInput,
    /// A radix other than 2, 8, 10 or 16.
    InvalidRadix,
    /// Any other failure.
    Unknown,
}

} // verus!
