//! Addition, subtraction and multiplication of `BigInt` values, dispatched
//! on the signs of the operands onto the slice kernels.

use vstd::prelude::*;
use crate::bigint::{BigInt, zero_limbs};
use crate::digit::{BigDigit, limbs_val, pow_b, lemma_val_push, lemma_val_bound, lemma_prod_bound, lemma_val_mod};
use crate::kernel::{sadd, sadd_digit, ssub, dmul, mul3};
use crate::sign::Sign;

verus! {

/// Adds the magnitude of `rhs` into the magnitude of `lhs`, growing `lhs`
/// as needed, and keeps the sign of `lhs`; a zero `lhs` takes the sign of
/// `rhs`. When the two do not have opposite signs, this is their sum.
pub fn add_and_grow(lhs: &mut BigInt, rhs: &BigInt)
    requires
        old(lhs).wf(),
        rhs.wf(),
    ensures
        final(lhs).wf(),
        final(lhs).magnitude() == old(lhs).magnitude() + rhs.magnitude(),
        old(lhs).sign != Sign::Zero ==> final(lhs).sign == old(lhs).sign,
        old(lhs).sign == Sign::Zero ==> final(lhs).sign == rhs.sign,
        old(lhs).sign == rhs.sign || old(lhs).sign == Sign::Zero || rhs.sign == Sign::Zero
            ==> final(lhs).value() == old(lhs).value() + rhs.value(),
{
    proof {
        old(lhs).lemma_wf_sign();
        rhs.lemma_wf_sign();
    }
    if lhs.sign == Sign::Zero {
        *lhs = rhs.duplicate();
        return;
    }
    if rhs.sign == Sign::Zero {
        return;
    }
    let ghost a = old(lhs).magnitude();
    let ghost b = rhs.magnitude();
    lhs.grow_to_hold(rhs.digits.len());
    let grow = sadd(lhs.digits.as_mut_slice(), rhs.digits.as_slice());
    let ghost n = lhs.digits@.len();
    let ghost before = lhs.digits@;
    lhs.digits.push(grow);
    proof {
        lemma_val_push(before, grow);
    }
    proof {
        assert(limbs_val(lhs.digits@) == a + b);
    }
    lhs.trim();
    proof {
        let f = lhs.sign.factor();
        assert(f * (a + b) == f * a + f * b) by (nonlinear_arith);
    }
}

/// Adds the magnitude of `rhs` into the magnitude of `lhs`, keeping the
/// sign of `lhs` (a zero `lhs` takes the sign of `rhs`). When the two do not
/// have opposite signs, this is their sum.
pub fn naive_add(lhs: &mut BigInt, rhs: &BigInt)
    requires
        old(lhs).wf(),
        rhs.wf(),
    ensures
        final(lhs).wf(),
        final(lhs).magnitude() == old(lhs).magnitude() + rhs.magnitude(),
        old(lhs).sign != Sign::Zero ==> final(lhs).sign == old(lhs).sign,
        old(lhs).sign == Sign::Zero ==> final(lhs).sign == rhs.sign,
        old(lhs).sign == rhs.sign || old(lhs).sign == Sign::Zero || rhs.sign == Sign::Zero
            ==> final(lhs).value() == old(lhs).value() + rhs.value(),
{
    add_and_grow(lhs, rhs)
}

/// Subtracts `rhs` from `lhs`, where the two do not have opposite signs, so
/// that the magnitudes subtract.
pub fn naive_sub(lhs: &mut BigInt, rhs: &BigInt)
    requires
        old(lhs).wf(),
        rhs.wf(),
        old(lhs).sign == rhs.sign || old(lhs).sign == Sign::Zero || rhs.sign == Sign::Zero,
    ensures
        final(lhs).wf(),
        final(lhs).value() == old(lhs).value() - rhs.value(),
{
    proof {
        old(lhs).lemma_wf_sign();
        rhs.lemma_wf_sign();
    }
    if rhs.sign == Sign::Zero {
        return;
    }
    if lhs.sign == Sign::Zero {
        let mut r = rhs.duplicate();
        r.negate();
        *lhs = r;
        return;
    }
    lhs.grow_to_hold(rhs.digits.len());
    let s = ssub(lhs.digits.as_mut_slice(), rhs.digits.as_slice());
    let ghost a = old(lhs).magnitude();
    let ghost b = rhs.magnitude();
    let ghost f = old(lhs).sign.factor();
    if let Sign::Negative = s {
        lhs.negate();
    }
    lhs.trim();
    proof {
        if s == Sign::Negative {
            assert(lhs.value() == -f * (b - a));
        }
        assert(f * (a - b) == f * a - f * b) by (nonlinear_arith);
        assert(-f * (b - a) == f * a - f * b) by (nonlinear_arith);
        assert(lhs.value() == f * a - f * b);
    }
}

/// The sum of two positive values.
pub fn strict_pos_overflow_add(lhs: BigInt, rhs: BigInt) -> (r: BigInt)
    requires
        lhs.wf(),
        rhs.wf(),
        lhs.sign == Sign::Positive,
        rhs.sign == Sign::Positive,
    ensures
        r.wf(),
        r.value() == lhs.value() + rhs.value(),
{
    if lhs.digits.len() >= rhs.digits.len() {
        let mut l = lhs;
        add_and_grow(&mut l, &rhs);
        l
    } else {
        let mut r = rhs;
        add_and_grow(&mut r, &lhs);
        r
    }
}

/// The product of two values: schoolbook or Karatsuba on the magnitudes,
/// by the length of the shorter one.
pub fn naive_mul(lhs: &BigInt, rhs: &BigInt) -> (r: BigInt)
    requires
        lhs.wf(),
        rhs.wf(),
        lhs.digits@.len() + rhs.digits@.len() <= usize::MAX,
    ensures
        r.wf(),
        r.value() == lhs.value() * rhs.value(),
{
    proof {
        lhs.lemma_wf_sign();
        rhs.lemma_wf_sign();
    }
    let sign = lhs.sign.times(rhs.sign);
    if sign == Sign::Zero {
        proof {
            assert(lhs.value() * rhs.value() == 0) by (nonlinear_arith)
                requires
                    lhs.value() == 0 || rhs.value() == 0,
            ;
        }
        return BigInt::zero();
    }
    let mut digits = zero_limbs(lhs.digits.len() + rhs.digits.len());
    mul3(digits.as_mut_slice(), lhs.digits.as_slice(), rhs.digits.as_slice());
    proof {
        let p = lhs.magnitude() * rhs.magnitude();
        lemma_prod_bound(lhs.digits@, rhs.digits@);
        lemma_val_mod(p, 0, pow_b((lhs.digits@.len() + rhs.digits@.len()) as nat), p);
        let fa = lhs.sign.factor();
        let fb = rhs.sign.factor();
        assert(fa * fb * (lhs.magnitude() * rhs.magnitude()) == (fa * lhs.magnitude()) * (fb
            * rhs.magnitude())) by (nonlinear_arith);
    }
    let out = BigInt { sign, digits };
    out.trimmed()
}

impl BigInt {
    /// The negated value.
    pub fn negated(self) -> (r: BigInt)
        requires
            self.wf(),
        ensures
            r.wf(),
            r.value() == -self.value(),
            r.sign == crate::sign::sign_negated(self.sign),
    {
        let mut s = self;
        s.negate();
        s
    }

    /// The sum of two values.
    pub fn plus(self, rhs: BigInt) -> (r: BigInt)
        requires
            self.wf(),
            rhs.wf(),
        ensures
            r.wf(),
            r.value() == self.value() + rhs.value(),
    {
        let mut s = self;
        match (s.sign, rhs.sign) {
            (Sign::Positive, Sign::Negative) | (Sign::Negative, Sign::Positive) => {
                let n = rhs.negated();
                naive_sub(&mut s, &n);
                s
            },
            _ => {
                add_and_grow(&mut s, &rhs);
                s
            },
        }
    }

    /// The difference of two values.
    pub fn minus(self, rhs: BigInt) -> (r: BigInt)
        requires
            self.wf(),
            rhs.wf(),
        ensures
            r.wf(),
            r.value() == self.value() - rhs.value(),
    {
        let mut s = self;
        match (s.sign, rhs.sign) {
            (Sign::Positive, Sign::Negative) | (Sign::Negative, Sign::Positive) => {
                let n = rhs.negated();
                add_and_grow(&mut s, &n);
                s
            },
            _ => {
                naive_sub(&mut s, &rhs);
                s
            },
        }
    }

    /// The sum of two borrowed values. The longer operand is copied and the
    /// shorter one added into it.
    pub fn plus_ref(&self, rhs: &BigInt) -> (r: BigInt)
        requires
            self.wf(),
            rhs.wf(),
        ensures
            r.wf(),
            r.value() == self.value() + rhs.value(),
    {
        if self.digits.len() >= rhs.digits.len() {
            self.duplicate().plus(rhs.duplicate())
        } else {
            rhs.duplicate().plus(self.duplicate())
        }
    }

    /// The difference of two borrowed values.
    pub fn minus_ref(&self, rhs: &BigInt) -> (r: BigInt)
        requires
            self.wf(),
            rhs.wf(),
        ensures
            r.wf(),
            r.value() == self.value() - rhs.value(),
    {
        self.duplicate().minus(rhs.duplicate())
    }

    /// The product of two values.
    pub fn times(&self, rhs: &BigInt) -> (r: BigInt)
        requires
            self.wf(),
            rhs.wf(),
            self.digits@.len() + rhs.digits@.len() <= usize::MAX,
        ensures
            r.wf(),
            r.value() == self.value() * rhs.value(),
    {
        naive_mul(self, rhs)
    }

    /// The sum of a value and a limb. A value that is not negative takes the
    /// limb into its lowest limb and carries upward.
    pub fn plus_digit(self, rhs: BigDigit) -> (r: BigInt)
        requires
            self.wf(),
        ensures
            r.wf(),
            r.value() == self.value() + rhs,
    {
        proof {
            self.lemma_wf_sign();
        }
        if self.sign == Sign::Negative {
            return self.plus(BigInt::from_digit(rhs));
        }
        if self.sign == Sign::Zero {
            return BigInt::from_digit(rhs);
        }
        let mut s = self;
        let carry = sadd_digit(s.digits.as_mut_slice(), rhs);
        if carry > 0 {
            let ghost before = s.digits@;
            s.digits.push(carry);
            proof {
                lemma_val_push(before, carry);
            }
        }
        proof {
            crate::digit::lemma_val_bound(s.digits@);
            crate::digit::lemma_val_top_nonzero(self.digits@);
            assert(s.magnitude() == self.magnitude() + rhs);
            assert(s.sign == Sign::Positive);
            if carry == 0 {
                crate::digit::lemma_val_top_from_bound(s.digits@);
            } else {
                assert(s.digits@.last() == carry);
            }
        }
        s
    }

    /// The product of a value and a limb, in place by `dmul`.
    pub fn times_digit(self, rhs: BigDigit) -> (r: BigInt)
        requires
            self.wf(),
        ensures
            r.wf(),
            r.value() == self.value() * rhs,
    {
        proof {
            self.lemma_wf_sign();
        }
        if self.sign == Sign::Zero || rhs == 0 {
            proof {
                assert(self.value() * rhs == 0) by (nonlinear_arith)
                    requires
                        self.value() == 0 || rhs == 0,
                ;
            }
            return BigInt::zero();
        }
        let mut s = self;
        let carry = dmul(s.digits.as_mut_slice(), rhs);
        let ghost before = s.digits@;
        s.digits.push(carry);
        proof {
            lemma_val_push(before, carry);
            let f = self.sign.factor();
            assert(f * (self.magnitude() * rhs) == (f * self.magnitude()) * rhs) by (nonlinear_arith);
            assert(self.magnitude() * rhs > 0) by (nonlinear_arith)
                requires
                    self.magnitude() > 0,
                    rhs > 0,
            ;
        }
        s.trimmed()
    }
}

} // verus!
