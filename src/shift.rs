//! Shifts of a `BigInt` by a number of bits: whole limbs, then bits within
//! a limb.

use vstd::prelude::*;
use crate::bigint::{BigInt, copy_limbs, zero_limbs};
use crate::digit::{
    BigDigit, DIGIT_SIZE, limbs_val, pow_b, pow2, pow2_digit, lemma_val_push, lemma_val_bound,
    lemma_val_concat, lemma_val_split, lemma_pow_b_pos, lemma_pow_b_pow2, lemma_pow2_add,
    lemma_pow2_pos,
};
use crate::div::div_rem_digit;
use crate::kernel::dmul;
use crate::sign::Sign;

verus! {

/// The limbs `d` shifted up by `s` bits: each limb times `2^s`, its high
/// half carried into the next limb. One limb longer than `d`.
pub fn shl_bits(d: &[BigDigit], s: u32) -> (r: Vec<BigDigit>)
    requires
        s < 32,
        d@.len() < usize::MAX,
    ensures
        r@.len() == d@.len() + 1,
        limbs_val(r@) == limbs_val(d@) * pow2(s as nat),
{
    let mut r = copy_limbs(d);
    let c = dmul(r.as_mut_slice(), pow2_digit(s));
    let ghost before = r@;
    r.push(c);
    proof {
        lemma_val_push(before, c);
    }
    r
}

/// `2^k` splits into whole limbs and the bits that remain.
proof fn lemma_pow2_split(k: nat)
    ensures
        pow2(k) == pow_b(k / 32) * pow2(k % 32),
{
    lemma_pow_b_pow2(k / 32);
    lemma_pow2_add(32 * (k / 32), k % 32);
}

impl BigInt {
    /// Shifts left by `rhs` bits: the value times `2^rhs`.
    pub fn shl_assign(&mut self, rhs: usize)
        requires
            old(self).wf(),
            old(self).digits@.len() + rhs / DIGIT_SIZE + 1 < usize::MAX,
        ensures
            final(self).wf(),
            final(self).value() == old(self).value() * pow2(rhs as nat),
    {
        proof {
            old(self).lemma_wf_sign();
            lemma_pow2_split(rhs as nat);
        }
        if rhs == 0 || self.sign == Sign::Zero {
            proof {
                assert(pow2(0) == 1);
                let v = old(self).value();
                assert(v * pow2(rhs as nat) == v) by (nonlinear_arith)
                    requires
                        v == 0 || pow2(rhs as nat) == 1,
                ;
            }
            return;
        }
        let digit_shift = rhs / DIGIT_SIZE;
        let bit_shift = (rhs % DIGIT_SIZE) as u32;
        let mut shifted = shl_bits(self.digits.as_slice(), bit_shift);
        let mut out = zero_limbs(digit_shift);
        let ghost low = out@;
        let ghost high = shifted@;
        out.append(&mut shifted);
        proof {
            lemma_val_concat(low, high);
            let m = old(self).magnitude();
            let pb = pow_b(digit_shift as nat);
            let two_s = pow2(bit_shift as nat);
            assert(pb * (m * two_s) == m * (pb * two_s)) by (nonlinear_arith);
            lemma_pow_b_pos(digit_shift as nat);
            lemma_pow2_pos(bit_shift as nat);
            assert(m * (pb * two_s) > 0) by (nonlinear_arith)
                requires
                    m > 0,
                    pb >= 1,
                    two_s >= 1,
            ;
            let f = old(self).sign.factor();
            assert(f * (m * (pb * two_s)) == (f * m) * (pb * two_s)) by (nonlinear_arith);
        }
        self.digits = out;
        self.trim();
    }

    /// Shifts right by `rhs` bits: the magnitude divided by `2^rhs`, rounded
    /// down, with the sign kept unless nothing is left.
    pub fn shr_assign(&mut self, rhs: usize)
        requires
            old(self).wf(),
        ensures
            final(self).wf(),
            final(self).value() == old(self).sign.factor() * (old(self).magnitude() / pow2(
                rhs as nat,
            )),
    {
        proof {
            old(self).lemma_wf_sign();
            lemma_pow2_split(rhs as nat);
            lemma_pow2_pos(rhs as nat);
        }
        if rhs == 0 || self.sign == Sign::Zero {
            proof {
                assert(pow2(0) == 1);
                let m = old(self).magnitude();
                if m == 0 {
                    assert(0int / pow2(rhs as nat) == 0);
                }
            }
            return;
        }
        let digit_shift = rhs / DIGIT_SIZE;
        let bit_shift = (rhs % DIGIT_SIZE) as u32;
        let ghost m = old(self).magnitude();
        let ghost pb = pow_b(digit_shift as nat);
        let ghost two_s = pow2(bit_shift as nat);
        proof {
            lemma_pow_b_pos(digit_shift as nat);
            lemma_pow2_pos(bit_shift as nat);
            vstd::arithmetic::div_mod::lemma_div_denominator(m, pb, two_s);
        }
        if digit_shift >= self.digits.len() {
            proof {
                lemma_val_bound(self.digits@);
                crate::digit::lemma_pow_b_mono(self.digits@.len(), digit_shift as nat);
                vstd::arithmetic::div_mod::lemma_fundamental_div_mod_converse(m, pb, 0, m);
                assert(0int / two_s == 0);
            }
            *self = BigInt::zero();
            return;
        }
        let (_, high) = self.digits.as_slice().split_at(digit_shift);
        let (quo, _) = div_rem_digit(high, pow2_digit(bit_shift));
        proof {
            let ds = digit_shift as int;
            assert(self.digits@.take(ds) =~= self.digits@.subrange(0, ds));
            assert(high@ =~= self.digits@.skip(ds));
            lemma_val_split(self.digits@, ds);
            lemma_val_bound(self.digits@.take(ds));
            vstd::arithmetic::mul::lemma_mul_is_commutative(pb, limbs_val(high@));
            vstd::arithmetic::div_mod::lemma_fundamental_div_mod_converse(
                m,
                pb,
                limbs_val(high@),
                limbs_val(self.digits@.take(ds)),
            );
            lemma_val_bound(quo@);
        }
        let ghost qv = limbs_val(quo@);
        let sign = self.sign;
        *self = BigInt { sign, digits: quo };
        proof {
            let r = limbs_val(high@) - qv * two_s;
            assert(0 <= r < two_s);
            vstd::arithmetic::div_mod::lemma_fundamental_div_mod_converse(
                limbs_val(high@),
                two_s,
                qv,
                r,
            );
        }
        self.trim();
        proof {
            if self.digits@.len() == 0 {
                let f = sign.factor();
                assert(f * qv == 0) by (nonlinear_arith)
                    requires
                        qv == 0,
                ;
            }
        }
    }
}

} // verus!
