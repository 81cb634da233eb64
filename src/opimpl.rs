//! The operators of std on `BigInt`, and conversions from unsigned
//! integers. Each one calls the verified function that does the work and
//! carries its contract over.

use vstd::prelude::*;
use crate::bigint::BigInt;
use crate::digit::{BigDigit, DIGIT_SIZE, pow2};

verus! {

impl core::ops::Neg for BigInt {
    type Output = BigInt;

    fn neg(self) -> (r: BigInt)
        ensures
            r.wf(),
            r.value() == -self.value(),
    {
        self.negated()
    }
}

impl vstd::std_specs::ops::NegSpecImpl for BigInt {
    open spec fn obeys_neg_spec() -> bool {
        false
    }

    open spec fn neg_req(self) -> bool {
        self.wf()
    }

    open spec fn neg_spec(self) -> BigInt {
        vstd::pervasive::arbitrary()
    }
}

impl core::ops::Add<BigInt> for BigInt {
    type Output = BigInt;

    fn add(self, rhs: BigInt) -> (r: BigInt)
        ensures
            r.wf(),
            r.value() == self.value() + rhs.value(),
    {
        self.plus(rhs)
    }
}

impl vstd::std_specs::ops::AddSpecImpl<BigInt> for BigInt {
    open spec fn obeys_add_spec() -> bool {
        false
    }

    open spec fn add_req(self, rhs: BigInt) -> bool {
        self.wf() && rhs.wf()
    }

    open spec fn add_spec(self, rhs: BigInt) -> BigInt {
        vstd::pervasive::arbitrary()
    }
}

impl<'a, 'b> core::ops::Add<&'b BigInt> for &'a BigInt {
    type Output = BigInt;

    fn add(self, rhs: &'b BigInt) -> (r: BigInt)
        ensures
            r.wf(),
            r.value() == self.value() + rhs.value(),
    {
        self.plus_ref(rhs)
    }
}

impl<'a, 'b> vstd::std_specs::ops::AddSpecImpl<&'b BigInt> for &'a BigInt {
    open spec fn obeys_add_spec() -> bool {
        false
    }

    open spec fn add_req(self, rhs: &'b BigInt) -> bool {
        self.wf() && rhs.wf()
    }

    open spec fn add_spec(self, rhs: &'b BigInt) -> BigInt {
        vstd::pervasive::arbitrary()
    }
}

impl<'b> core::ops::Add<&'b BigInt> for BigInt {
    type Output = BigInt;

    fn add(self, rhs: &'b BigInt) -> (r: BigInt)
        ensures
            r.wf(),
            r.value() == self.value() + rhs.value(),
    {
        self.plus(rhs.duplicate())
    }
}

impl<'b> vstd::std_specs::ops::AddSpecImpl<&'b BigInt> for BigInt {
    open spec fn obeys_add_spec() -> bool {
        false
    }

    open spec fn add_req(self, rhs: &'b BigInt) -> bool {
        self.wf() && rhs.wf()
    }

    open spec fn add_spec(self, rhs: &'b BigInt) -> BigInt {
        vstd::pervasive::arbitrary()
    }
}

impl core::ops::Add<BigDigit> for BigInt {
    type Output = BigInt;

    fn add(self, rhs: BigDigit) -> (r: BigInt)
        ensures
            r.wf(),
            r.value() == self.value() + rhs,
    {
        self.plus_digit(rhs)
    }
}

impl vstd::std_specs::ops::AddSpecImpl<BigDigit> for BigInt {
    open spec fn obeys_add_spec() -> bool {
        false
    }

    open spec fn add_req(self, rhs: BigDigit) -> bool {
        self.wf()
    }

    open spec fn add_spec(self, rhs: BigDigit) -> BigInt {
        vstd::pervasive::arbitrary()
    }
}

impl core::ops::Sub<BigInt> for BigInt {
    type Output = BigInt;

    fn sub(self, rhs: BigInt) -> (r: BigInt)
        ensures
            r.wf(),
            r.value() == self.value() - rhs.value(),
    {
        self.minus(rhs)
    }
}

impl vstd::std_specs::ops::SubSpecImpl<BigInt> for BigInt {
    open spec fn obeys_sub_spec() -> bool {
        false
    }

    open spec fn sub_req(self, rhs: BigInt) -> bool {
        self.wf() && rhs.wf()
    }

    open spec fn sub_spec(self, rhs: BigInt) -> BigInt {
        vstd::pervasive::arbitrary()
    }
}

impl<'a, 'b> core::ops::Sub<&'b BigInt> for &'a BigInt {
    type Output = BigInt;

    fn sub(self, rhs: &'b BigInt) -> (r: BigInt)
        ensures
            r.wf(),
            r.value() == self.value() - rhs.value(),
    {
        self.minus_ref(rhs)
    }
}

impl<'a, 'b> vstd::std_specs::ops::SubSpecImpl<&'b BigInt> for &'a BigInt {
    open spec fn obeys_sub_spec() -> bool {
        false
    }

    open spec fn sub_req(self, rhs: &'b BigInt) -> bool {
        self.wf() && rhs.wf()
    }

    open spec fn sub_spec(self, rhs: &'b BigInt) -> BigInt {
        vstd::pervasive::arbitrary()
    }
}

impl<'b> core::ops::Sub<&'b BigInt> for BigInt {
    type Output = BigInt;

    fn sub(self, rhs: &'b BigInt) -> (r: BigInt)
        ensures
            r.wf(),
            r.value() == self.value() - rhs.value(),
    {
        self.minus(rhs.duplicate())
    }
}

impl<'b> vstd::std_specs::ops::SubSpecImpl<&'b BigInt> for BigInt {
    open spec fn obeys_sub_spec() -> bool {
        false
    }

    open spec fn sub_req(self, rhs: &'b BigInt) -> bool {
        self.wf() && rhs.wf()
    }

    open spec fn sub_spec(self, rhs: &'b BigInt) -> BigInt {
        vstd::pervasive::arbitrary()
    }
}

impl core::ops::Mul<BigInt> for BigInt {
    type Output = BigInt;

    fn mul(self, rhs: BigInt) -> (r: BigInt)
        ensures
            r.wf(),
            r.value() == self.value() * rhs.value(),
    {
        self.times(&rhs)
    }
}

impl vstd::std_specs::ops::MulSpecImpl<BigInt> for BigInt {
    open spec fn obeys_mul_spec() -> bool {
        false
    }

    open spec fn mul_req(self, rhs: BigInt) -> bool {
        self.wf() && rhs.wf() && self.digits@.len() + rhs.digits@.len() <= usize::MAX
    }

    open spec fn mul_spec(self, rhs: BigInt) -> BigInt {
        vstd::pervasive::arbitrary()
    }
}

impl<'a, 'b> core::ops::Mul<&'b BigInt> for &'a BigInt {
    type Output = BigInt;

    fn mul(self, rhs: &'b BigInt) -> (r: BigInt)
        ensures
            r.wf(),
            r.value() == self.value() * rhs.value(),
    {
        self.times(rhs)
    }
}

impl<'a, 'b> vstd::std_specs::ops::MulSpecImpl<&'b BigInt> for &'a BigInt {
    open spec fn obeys_mul_spec() -> bool {
        false
    }

    open spec fn mul_req(self, rhs: &'b BigInt) -> bool {
        self.wf() && rhs.wf() && self.digits@.len() + rhs.digits@.len() <= usize::MAX
    }

    open spec fn mul_spec(self, rhs: &'b BigInt) -> BigInt {
        vstd::pervasive::arbitrary()
    }
}

impl core::ops::Mul<BigDigit> for BigInt {
    type Output = BigInt;

    fn mul(self, rhs: BigDigit) -> (r: BigInt)
        ensures
            r.wf(),
            r.value() == self.value() * rhs,
    {
        self.times_digit(rhs)
    }
}

impl vstd::std_specs::ops::MulSpecImpl<BigDigit> for BigInt {
    open spec fn obeys_mul_spec() -> bool {
        false
    }

    open spec fn mul_req(self, rhs: BigDigit) -> bool {
        self.wf()
    }

    open spec fn mul_spec(self, rhs: BigDigit) -> BigInt {
        vstd::pervasive::arbitrary()
    }
}

impl core::ops::Div<BigDigit> for BigInt {
    type Output = BigInt;

    fn div(self, rhs: BigDigit) -> (r: BigInt)
        ensures
            r.wf(),
            r.value() == self.sign.factor() * (self.magnitude() / rhs as int),
    {
        self.div_digit(rhs)
    }
}

impl vstd::std_specs::ops::DivSpecImpl<BigDigit> for BigInt {
    open spec fn obeys_div_spec() -> bool {
        false
    }

    open spec fn div_req(self, rhs: BigDigit) -> bool {
        self.wf() && rhs != 0
    }

    open spec fn div_spec(self, rhs: BigDigit) -> BigInt {
        vstd::pervasive::arbitrary()
    }
}

impl<'a> core::ops::Div<BigDigit> for &'a BigInt {
    type Output = BigInt;

    fn div(self, rhs: BigDigit) -> (r: BigInt)
        ensures
            r.wf(),
            r.value() == self.sign.factor() * (self.magnitude() / rhs as int),
    {
        self.div_digit(rhs)
    }
}

impl<'a> vstd::std_specs::ops::DivSpecImpl<BigDigit> for &'a BigInt {
    open spec fn obeys_div_spec() -> bool {
        false
    }

    open spec fn div_req(self, rhs: BigDigit) -> bool {
        self.wf() && rhs != 0
    }

    open spec fn div_spec(self, rhs: BigDigit) -> BigInt {
        vstd::pervasive::arbitrary()
    }
}

impl core::ops::Rem<BigDigit> for BigInt {
    type Output = BigDigit;

    fn rem(self, rhs: BigDigit) -> (r: BigDigit)
        ensures
            r as int == self.magnitude() % rhs as int,
    {
        self.rem_digit(rhs)
    }
}

impl vstd::std_specs::ops::RemSpecImpl<BigDigit> for BigInt {
    open spec fn obeys_rem_spec() -> bool {
        false
    }

    open spec fn rem_req(self, rhs: BigDigit) -> bool {
        self.wf() && rhs != 0
    }

    open spec fn rem_spec(self, rhs: BigDigit) -> BigDigit {
        vstd::pervasive::arbitrary()
    }
}

impl<'a> core::ops::Rem<BigDigit> for &'a BigInt {
    type Output = BigDigit;

    fn rem(self, rhs: BigDigit) -> (r: BigDigit)
        ensures
            r as int == self.magnitude() % rhs as int,
    {
        self.rem_digit(rhs)
    }
}

impl<'a> vstd::std_specs::ops::RemSpecImpl<BigDigit> for &'a BigInt {
    open spec fn obeys_rem_spec() -> bool {
        false
    }

    open spec fn rem_req(self, rhs: BigDigit) -> bool {
        self.wf() && rhs != 0
    }

    open spec fn rem_spec(self, rhs: BigDigit) -> BigDigit {
        vstd::pervasive::arbitrary()
    }
}

impl core::ops::Shl<usize> for BigInt {
    type Output = BigInt;

    fn shl(self, rhs: usize) -> (r: BigInt)
        ensures
            r.wf(),
            r.value() == self.value() * pow2(rhs as nat),
    {
        let mut z = self;
        z.shl_assign(rhs);
        z
    }
}

impl vstd::std_specs::ops::ShlSpecImpl<usize> for BigInt {
    open spec fn obeys_shl_spec() -> bool {
        false
    }

    open spec fn shl_req(self, rhs: usize) -> bool {
        self.wf() && self.digits@.len() + rhs / DIGIT_SIZE + 1 < usize::MAX
    }

    open spec fn shl_spec(self, rhs: usize) -> BigInt {
        vstd::pervasive::arbitrary()
    }
}

impl<'a> core::ops::Shl<usize> for &'a BigInt {
    type Output = BigInt;

    fn shl(self, rhs: usize) -> (r: BigInt)
        ensures
            r.wf(),
            r.value() == self.value() * pow2(rhs as nat),
    {
        let mut z = self.duplicate();
        z.shl_assign(rhs);
        z
    }
}

impl<'a> vstd::std_specs::ops::ShlSpecImpl<usize> for &'a BigInt {
    open spec fn obeys_shl_spec() -> bool {
        false
    }

    open spec fn shl_req(self, rhs: usize) -> bool {
        self.wf() && self.digits@.len() + rhs / DIGIT_SIZE + 1 < usize::MAX
    }

    open spec fn shl_spec(self, rhs: usize) -> BigInt {
        vstd::pervasive::arbitrary()
    }
}

impl core::ops::Shr<usize> for BigInt {
    type Output = BigInt;

    fn shr(self, rhs: usize) -> (r: BigInt)
        ensures
            r.wf(),
            r.value() == self.sign.factor() * (self.magnitude() / pow2(rhs as nat)),
    {
        let mut z = self;
        z.shr_assign(rhs);
        z
    }
}

impl vstd::std_specs::ops::ShrSpecImpl<usize> for BigInt {
    open spec fn obeys_shr_spec() -> bool {
        false
    }

    open spec fn shr_req(self, rhs: usize) -> bool {
        self.wf()
    }

    open spec fn shr_spec(self, rhs: usize) -> BigInt {
        vstd::pervasive::arbitrary()
    }
}

impl<'a> core::ops::Shr<usize> for &'a BigInt {
    type Output = BigInt;

    fn shr(self, rhs: usize) -> (r: BigInt)
        ensures
            r.wf(),
            r.value() == self.sign.factor() * (self.magnitude() / pow2(rhs as nat)),
    {
        let mut z = self.duplicate();
        z.shr_assign(rhs);
        z
    }
}

impl<'a> vstd::std_specs::ops::ShrSpecImpl<usize> for &'a BigInt {
    open spec fn obeys_shr_spec() -> bool {
        false
    }

    open spec fn shr_req(self, rhs: usize) -> bool {
        self.wf()
    }

    open spec fn shr_spec(self, rhs: usize) -> BigInt {
        vstd::pervasive::arbitrary()
    }
}

impl core::convert::From<u8> for BigInt {
    fn from(src: u8) -> (r: BigInt)
        ensures
            r.wf(),
            r.value() == src as int,
    {
        BigInt::from_digit(src as BigDigit)
    }
}

impl vstd::std_specs::convert::FromSpecImpl<u8> for BigInt {
    open spec fn obeys_from_spec() -> bool {
        false
    }

    open spec fn from_spec(src: u8) -> BigInt {
        vstd::pervasive::arbitrary()
    }
}

impl core::convert::From<u16> for BigInt {
    fn from(src: u16) -> (r: BigInt)
        ensures
            r.wf(),
            r.value() == src as int,
    {
        BigInt::from_digit(src as BigDigit)
    }
}

impl vstd::std_specs::convert::FromSpecImpl<u16> for BigInt {
    open spec fn obeys_from_spec() -> bool {
        false
    }

    open spec fn from_spec(src: u16) -> BigInt {
        vstd::pervasive::arbitrary()
    }
}

impl core::convert::From<u32> for BigInt {
    fn from(src: u32) -> (r: BigInt)
        ensures
            r.wf(),
            r.value() == src as int,
    {
        BigInt::from_digit(src)
    }
}

impl vstd::std_specs::convert::FromSpecImpl<u32> for BigInt {
    open spec fn obeys_from_spec() -> bool {
        false
    }

    open spec fn from_spec(src: u32) -> BigInt {
        vstd::pervasive::arbitrary()
    }
}

impl core::convert::From<u64> for BigInt {
    fn from(src: u64) -> (r: BigInt)
        ensures
            r.wf(),
            r.value() == src as int,
    {
        BigInt::from_u64(src)
    }
}

impl vstd::std_specs::convert::FromSpecImpl<u64> for BigInt {
    open spec fn obeys_from_spec() -> bool {
        false
    }

    open spec fn from_spec(src: u64) -> BigInt {
        vstd::pervasive::arbitrary()
    }
}

} // verus!
