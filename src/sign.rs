//! The sign of an integer: negative, zero or positive.

use vstd::prelude::*;
use core::cmp::Ordering;

verus! {

/// The sign of a `BigInt`. Declared in ascending order, so that the derived
/// total order is `Negative < Zero < Positive`.
#[derive(Debug, Clone, Copy, PartialEq, Eq, Structural, Hash, Ord)]
pub enum Sign {
    Negative,
    Zero,
    Positive,
}

impl Sign {
    /// The sign as a factor: `-1`, `0` or `1`.
    pub open spec fn factor(self) -> int {
        match self {
            Sign::Negative => -1,
            Sign::Zero => 0,
            Sign::Positive => 1,
        }
    }

    /// The position of the sign in the order `Negative < Zero < Positive`.
    pub open spec fn rank(self) -> int {
        self.factor()
    }

    /// The sign of a product: zero absorbs, like signs give `Positive`.
    pub fn times(self, rhs: Sign) -> (r: Sign)
        ensures
            r == sign_times(self, rhs),
            r.factor() == self.factor() * rhs.factor(),
    {
        match (self, rhs) {
            (Sign::Zero, _) | (_, Sign::Zero) => Sign::Zero,
            (Sign::Positive, Sign::Positive) => Sign::Positive,
            (Sign::Negative, Sign::Negative) => Sign::Positive,
            (Sign::Positive, Sign::Negative) => Sign::Negative,
            (Sign::Negative, Sign::Positive) => Sign::Negative,
        }
    }

    /// The opposite sign; `Zero` stays `Zero`.
    pub fn negated(self) -> (r: Sign)
        ensures
            r == sign_negated(self),
            r.factor() == -self.factor(),
    {
        match self {
            Sign::Zero => Sign::Zero,
            Sign::Negative => Sign::Positive,
            Sign::Positive => Sign::Negative,
        }
    }

    /// Compares two signs in the order `Negative < Zero < Positive`.
    pub fn cmp(&self, other: &Sign) -> (r: Ordering)
        ensures
            r == cmp_int(self.rank(), other.rank()),
    {
        match (*self, *other) {
            (Sign::Positive, Sign::Positive) => Ordering::Equal,
            (Sign::Zero, Sign::Zero) => Ordering::Equal,
            (Sign::Negative, Sign::Negative) => Ordering::Equal,
            (Sign::Positive, _) => Ordering::Greater,
            (_, Sign::Positive) => Ordering::Less,
            (Sign::Negative, _) => Ordering::Less,
            (_, Sign::Negative) => Ordering::Greater,
        }
    }
}

/// The sign of a mathematical integer.
pub open spec fn sign_of(v: int) -> Sign {
    if v < 0 {
        Sign::Negative
    } else if v == 0 {
        Sign::Zero
    } else {
        Sign::Positive
    }
}

/// The ordering of two mathematical integers.
pub open spec fn cmp_int(a: int, b: int) -> Ordering {
    if a < b {
        Ordering::Less
    } else if a == b {
        Ordering::Equal
    } else {
        Ordering::Greater
    }
}

/// The sign of a product, as a value.
pub open spec fn sign_times(a: Sign, b: Sign) -> Sign {
    if a == Sign::Zero || b == Sign::Zero {
        Sign::Zero
    } else if a == b {
        Sign::Positive
    } else {
        Sign::Negative
    }
}

/// The opposite sign, as a value.
pub open spec fn sign_negated(a: Sign) -> Sign {
    match a {
        Sign::Negative => Sign::Positive,
        Sign::Zero => Sign::Zero,
        Sign::Positive => Sign::Negative,
    }
}

impl core::ops::Mul<Sign> for Sign {
    type Output = Sign;

    fn mul(self, rhs: Sign) -> Sign {
        self.times(rhs)
    }
}

impl vstd::std_specs::ops::MulSpecImpl<Sign> for Sign {
    open spec fn obeys_mul_spec() -> bool {
        true
    }

    open spec fn mul_req(self, rhs: Sign) -> bool {
        true
    }

    open spec fn mul_spec(self, rhs: Sign) -> Sign {
        sign_times(self, rhs)
    }
}

impl core::ops::Neg for Sign {
    type Output = Sign;

    fn neg(self) -> Sign {
        self.negated()
    }
}

impl vstd::std_specs::ops::NegSpecImpl for Sign {
    open spec fn obeys_neg_spec() -> bool {
        true
    }

    open spec fn neg_req(self) -> bool {
        true
    }

    open spec fn neg_spec(self) -> Sign {
        sign_negated(self)
    }
}

impl PartialOrd for Sign {
    fn partial_cmp(&self, other: &Sign) -> (r: Option<Ordering>) {
        Some(self.cmp(other))
    }
}

impl vstd::std_specs::cmp::PartialOrdSpecImpl for Sign {
    open spec fn obeys_partial_cmp_spec() -> bool {
        true
    }

    open spec fn partial_cmp_spec(&self, other: &Sign) -> Option<Ordering> {
        Some(cmp_int(self.rank(), other.rank()))
    }
}

} // verus!
