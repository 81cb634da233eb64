//! The big integer value: a sign and a little-endian sequence of limbs.

use vstd::prelude::*;
use core::cmp::Ordering;
use crate::digit::{
    BigDigit, base, limbs_val, pow_b, to_lo_hi, lemma_pow_b_pos, lemma_val_bound, lemma_val_push,
    lemma_val_top_nonzero, lemma_val_zero, lemma_val_cmp_at, lemma_val_len_lt,
};
use crate::sign::{Sign, cmp_int, sign_negated, sign_of};

verus! {

/// An integer of unbounded magnitude.
///
/// A well-formed value (see `wf`) is canonical: zero has sign `Zero` and no
/// limbs; any other value has at least one limb and a non-zero top limb.
#[derive(Debug, Clone, PartialEq, Eq, Hash)]
pub struct BigInt {
    pub sign: Sign,
    pub digits: Vec<BigDigit>,
}

/// A sign and limbs that form a canonical value.
pub open spec fn canonical(sign: Sign, d: Seq<u32>) -> bool {
    if sign == Sign::Zero {
        d.len() == 0
    } else {
        d.len() > 0 && d.last() != 0
    }
}

/// A limb sequence with no zero limb at its most significant end.
pub open spec fn no_top_zero(d: Seq<u32>) -> bool {
    d.len() == 0 || d.last() != 0
}

impl BigInt {
    /// The representation invariant.
    pub open spec fn wf(&self) -> bool {
        canonical(self.sign, self.digits@)
    }

    /// The magnitude that the limbs encode.
    pub open spec fn magnitude(&self) -> int {
        limbs_val(self.digits@)
    }

    /// The integer that the value stands for.
    pub open spec fn value(&self) -> int {
        self.sign.factor() * self.magnitude()
    }

    /// A well-formed value is zero exactly when its sign is `Zero`, and its
    /// sign is the sign of its value.
    pub proof fn lemma_wf_sign(&self)
        requires
            self.wf(),
        ensures
            self.sign == sign_of(self.value()),
            self.magnitude() >= 0,
            self.value() == 0 <==> self.sign == Sign::Zero,
            self.sign == Sign::Positive ==> self.value() == self.magnitude(),
            self.sign == Sign::Negative ==> self.value() == -self.magnitude(),
            self.sign != Sign::Zero ==> self.magnitude() > 0,
    {
        lemma_val_bound(self.digits@);
        if self.sign != Sign::Zero {
            lemma_val_top_nonzero(self.digits@);
            lemma_pow_b_pos((self.digits@.len() - 1) as nat);
        }
    }

    /// Returns true if the BigInt is zero.
    pub fn is_zero(&self) -> (r: bool)
        requires
            self.wf(),
        ensures
            r == (self.value() == 0),
    {
        proof {
            self.lemma_wf_sign();
        }
        match self.sign {
            Sign::Zero => true,
            _ => false,
        }
    }

    /// Returns true if the BigInt is strictly greater than zero.
    pub fn is_positive(&self) -> (r: bool)
        requires
            self.wf(),
        ensures
            r == (self.value() > 0),
    {
        proof {
            self.lemma_wf_sign();
        }
        match self.sign {
            Sign::Positive => true,
            _ => false,
        }
    }

    /// Returns true if the BigInt is strictly less than zero.
    pub fn is_negative(&self) -> (r: bool)
        requires
            self.wf(),
        ensures
            r == (self.value() < 0),
    {
        proof {
            self.lemma_wf_sign();
        }
        match self.sign {
            Sign::Negative => true,
            _ => false,
        }
    }

    /// Returns a BigInt with a value of zero.
    pub fn zero() -> (r: BigInt)
        ensures
            r.wf(),
            r.value() == 0,
            r.digits@.len() == 0,
    {
        BigInt { sign: Sign::Zero, digits: Vec::new() }
    }

    /// Returns a BigInt with a value of positive 1.
    pub fn one() -> (r: BigInt)
        ensures
            r.wf(),
            r.value() == 1,
            r.sign == Sign::Positive,
            r.magnitude() == 1,
    {
        let mut digits: Vec<BigDigit> = Vec::new();
        digits.push(1);
        proof {
            lemma_val_push(seq![], 1u32);
            assert(digits@ =~= seq![1u32]);
        }
        BigInt { sign: Sign::Positive, digits }
    }

    /// Changes self to have the opposite sign. No change if self is zero.
    pub fn negate(&mut self)
        ensures
            final(self).digits@ == old(self).digits@,
            final(self).sign == sign_negated(old(self).sign),
            final(self).value() == -old(self).value(),
            old(self).wf() ==> final(self).wf(),
    {
        self.sign = self.sign.negated();
    }

    /// Removes the zero limbs at the most significant end, and sets the sign
    /// to `Zero` when no limb is left.
    pub fn trim(&mut self)
        ensures
            final(self).magnitude() == old(self).magnitude(),
            no_top_zero(final(self).digits@),
            final(self).digits@.len() <= old(self).digits@.len(),
            final(self).digits@ == old(self).digits@.take(final(self).digits@.len() as int),
            forall|i: int|
                final(self).digits@.len() <= i < old(self).digits@.len() ==> old(self).digits@[i]
                    == 0,
            final(self).digits@.len() == 0 ==> final(self).sign == Sign::Zero,
            final(self).digits@.len() > 0 ==> final(self).sign == old(self).sign,
            old(self).sign != Sign::Zero || old(self).magnitude() == 0 ==> final(self).wf()
                && final(self).value() == old(self).value(),
    {
        let ghost d0 = self.digits@;
        while self.digits.len() > 0 && self.digits[self.digits.len() - 1] == 0
            invariant
                self.sign == old(self).sign,
                limbs_val(self.digits@) == limbs_val(d0),
                self.digits@ == d0.take(self.digits@.len() as int),
                self.digits@.len() <= d0.len(),
                d0 == old(self).digits@,
                forall|i: int| self.digits@.len() <= i < d0.len() ==> d0[i] == 0,
            decreases self.digits@.len(),
        {
            let ghost before = self.digits@;
            self.digits.pop();
            proof {
                assert(before =~= self.digits@.push(0u32));
                lemma_val_push(self.digits@, 0u32);
                let p = pow_b(self.digits@.len());
                assert(0 * p == 0) by (nonlinear_arith);
                assert(self.digits@ =~= d0.take(self.digits@.len() as int));
                assert(d0[self.digits@.len() as int] == before[self.digits@.len() as int]);
            }
        }
        if self.digits.len() == 0 {
            self.sign = Sign::Zero;
        }
        proof {
            lemma_val_bound(self.digits@);
            lemma_val_zero(self.digits@);
            if self.digits@.len() > 0 {
                assert(self.digits@[self.digits@.len() - 1] != 0);
                lemma_val_top_nonzero(self.digits@);
                lemma_pow_b_pos((self.digits@.len() - 1) as nat);
            }
            if old(self).magnitude() == 0 {
                assert(self.digits@.len() == 0);
                let f = old(self).sign.factor();
                let m = old(self).magnitude();
                assert(f * m == 0) by (nonlinear_arith)
                    requires
                        m == 0,
                ;
            }
        }
    }

    /// Returns self with all leading zero limbs removed.
    pub fn trimmed(self) -> (r: BigInt)
        ensures
            r.magnitude() == self.magnitude(),
            no_top_zero(r.digits@),
            r.digits@.len() == 0 ==> r.sign == Sign::Zero,
            r.digits@.len() > 0 ==> r.sign == self.sign,
            self.sign != Sign::Zero || self.magnitude() == 0 ==> r.wf() && r.value()
                == self.value(),
    {
        let mut s = self;
        s.trim();
        s
    }

    /// Extends this BigInt with zero limbs to at least `size` limbs. Does
    /// nothing if it already has that many.
    pub fn grow_to_hold(&mut self, size: usize)
        ensures
            final(self).sign == old(self).sign,
            final(self).magnitude() == old(self).magnitude(),
            final(self).digits@.len() == if size > old(self).digits@.len() {
                size as int
            } else {
                old(self).digits@.len() as int
            },
            final(self).digits@.take(old(self).digits@.len() as int) == old(self).digits@,
            forall|i: int|
                old(self).digits@.len() <= i < final(self).digits@.len() ==> final(self).digits@[i]
                    == 0,
    {
        let ghost d0 = self.digits@;
        while self.digits.len() < size
            invariant
                self.sign == old(self).sign,
                self.digits@.len() <= if size > d0.len() {
                    size as int
                } else {
                    d0.len() as int
                },
                self.digits@.len() >= d0.len(),
                self.digits@.take(d0.len() as int) == d0,
                forall|i: int| d0.len() <= i < self.digits@.len() ==> self.digits@[i] == 0,
                limbs_val(self.digits@) == limbs_val(d0),
            decreases size - self.digits@.len(),
        {
            let ghost before = self.digits@;
            self.digits.push(0);
            proof {
                lemma_val_push(before, 0u32);
                assert(self.digits@.take(d0.len() as int) =~= before.take(d0.len() as int));
            }
        }
    }

    /// The same integer in well-formed representation, from any sign and
    /// limbs: a `Zero` sign stands for zero whatever the limbs hold.
    pub fn normalized(&self) -> (r: BigInt)
        ensures
            r.wf(),
            r.value() == self.value(),
    {
        if self.sign == Sign::Zero {
            BigInt::zero()
        } else {
            self.duplicate().trimmed()
        }
    }

    /// An independent copy, with the same sign and limbs.
    pub fn duplicate(&self) -> (r: BigInt)
        ensures
            r.sign == self.sign,
            r.digits@ == self.digits@,
    {
        BigInt { sign: self.sign, digits: copy_limbs(&self.digits) }
    }

    /// A BigInt of one limb.
    pub fn from_digit(src: BigDigit) -> (r: BigInt)
        ensures
            r.wf(),
            r.value() == src,
    {
        let mut digits: Vec<BigDigit> = Vec::new();
        digits.push(src);
        proof {
            lemma_val_push(seq![], src);
            assert(digits@ =~= seq![src]);
        }
        let out = BigInt { sign: Sign::Positive, digits };
        out.trimmed()
    }

    /// A BigInt of the value of a 64-bit integer: two limbs `[lo, hi]`, trimmed.
    pub fn from_u64(src: u64) -> (r: BigInt)
        ensures
            r.wf(),
            r.value() == src,
    {
        let lh = to_lo_hi(src);
        let mut digits: Vec<BigDigit> = Vec::new();
        digits.push(lh[0]);
        digits.push(lh[1]);
        proof {
            lemma_val_push(seq![], lh[0]);
            lemma_val_push(seq![lh[0]], lh[1]);
            assert(digits@ =~= seq![lh[0]].push(lh[1]));
            assert(seq![lh[0]] =~= seq![].push(lh[0]));
            assert(pow_b(1) == base() * pow_b(0));
        }
        let out = BigInt { sign: Sign::Positive, digits };
        out.trimmed()
    }

    /// Compares two values: by sign, then by magnitude.
    pub fn cmp(&self, other: &BigInt) -> (r: Ordering)
        requires
            self.wf(),
            other.wf(),
        ensures
            r == cmp_int(self.value(), other.value()),
    {
        proof {
            self.lemma_wf_sign();
            other.lemma_wf_sign();
        }
        match self.sign.cmp(&other.sign) {
            Ordering::Greater => Ordering::Greater,
            Ordering::Less => Ordering::Less,
            Ordering::Equal => {
                match self.sign {
                    Sign::Zero => Ordering::Equal,
                    Sign::Positive => cmp_limbs(&self.digits, &other.digits),
                    Sign::Negative => {
                        match cmp_limbs(&self.digits, &other.digits) {
                            Ordering::Less => Ordering::Greater,
                            Ordering::Equal => Ordering::Equal,
                            Ordering::Greater => Ordering::Less,
                        }
                    },
                }
            },
        }
    }
}

/// A copy of a limb vector.
pub fn copy_limbs(v: &[BigDigit]) -> (r: Vec<BigDigit>)
    ensures
        r@ == v@,
{
    let mut r: Vec<BigDigit> = Vec::new();
    let mut i: usize = 0;
    while i < v.len()
        invariant
            i <= v@.len(),
            r@ == v@.take(i as int),
        decreases v@.len() - i,
    {
        r.push(v[i]);
        i = i + 1;
        proof {
            assert(r@ =~= v@.take(i as int));
        }
    }
    proof {
        assert(r@ =~= v@);
    }
    r
}

/// A vector of `n` zero limbs.
pub fn zero_limbs(n: usize) -> (r: Vec<BigDigit>)
    ensures
        r@ == Seq::new(n as nat, |i: int| 0u32),
        limbs_val(r@) == 0,
{
    let mut r: Vec<BigDigit> = Vec::new();
    while r.len() < n
        invariant
            r@.len() <= n,
            forall|i: int| 0 <= i < r@.len() ==> r@[i] == 0,
        decreases n - r@.len(),
    {
        r.push(0);
    }
    proof {
        assert(r@ =~= Seq::new(n as nat, |i: int| 0u32));
        lemma_val_zero(r@);
    }
    r
}

/// Compares the magnitudes of two limb sequences that have no zero limb at
/// their most significant end.
pub fn cmp_limbs(a: &[BigDigit], b: &[BigDigit]) -> (r: Ordering)
    requires
        no_top_zero(a@),
        no_top_zero(b@),
    ensures
        r == cmp_int(limbs_val(a@), limbs_val(b@)),
{
    if a.len() < b.len() {
        proof {
            lemma_val_len_lt(a@, b@);
        }
        return Ordering::Less;
    }
    if a.len() > b.len() {
        proof {
            lemma_val_len_lt(b@, a@);
        }
        return Ordering::Greater;
    }
    let mut i: usize = a.len();
    while i > 0
        invariant
            a@.len() == b@.len(),
            i <= a@.len(),
            a@.skip(i as int) == b@.skip(i as int),
        decreases i,
    {
        let k = i - 1;
        if a[k] < b[k] {
            proof {
                lemma_val_cmp_at(a@, b@, k as int);
            }
            return Ordering::Less;
        }
        if a[k] > b[k] {
            proof {
                lemma_val_cmp_at(b@, a@, k as int);
            }
            return Ordering::Greater;
        }
        proof {
            assert(a@.skip(k as int) =~= seq![a@[k as int]] + a@.skip(i as int));
            assert(b@.skip(k as int) =~= seq![b@[k as int]] + b@.skip(i as int));
        }
        i = k;
    }
    proof {
        assert(a@ =~= a@.skip(0));
        assert(b@ =~= b@.skip(0));
    }
    Ordering::Equal
}

impl PartialOrd for BigInt {
    fn partial_cmp(&self, other: &BigInt) -> (r: Option<Ordering>) {
        Some(self.normalized().cmp(&other.normalized()))
    }
}

impl vstd::std_specs::cmp::PartialOrdSpecImpl for BigInt {
    open spec fn obeys_partial_cmp_spec() -> bool {
        true
    }

    open spec fn partial_cmp_spec(&self, other: &BigInt) -> Option<Ordering> {
        Some(cmp_int(self.value(), other.value()))
    }
}

} // verus!
