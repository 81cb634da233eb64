//! Carry-propagating kernels on limb slices. Each one treats its slices as
//! magnitudes and leaves signs to the caller.

use vstd::prelude::*;
use crate::sign::{Sign, sign_of, sign_times};
use crate::digit::{
    BigDigit, DoubleBigDigit, DIGIT_MAX, base, limbs_val, pow_b, to_lo_hi, lemma_limb_step,
    lemma_pow_b_pos, lemma_pow_b_succ, lemma_pow_b_add, lemma_pow_b_mono, lemma_val_bound,
    lemma_val_take_succ, lemma_val_update, lemma_val_zero, lemma_val_mod, lemma_val_split,
    lemma_val_concat,
    lemma_hi_le_one, lemma_prod_bound,
};

verus! {

/// Adds `carry` into `lhs` at limb `start` and carries it upward while it is
/// set. Returns the carry out of the top limb.
fn propagate_carry(lhs: &mut [BigDigit], start: usize, carry: BigDigit) -> (out: BigDigit)
    requires
        start <= old(lhs)@.len(),
    ensures
        final(lhs)@.len() == old(lhs)@.len(),
        out <= carry,
        start < old(lhs)@.len() ==> out <= 1,
        limbs_val(final(lhs)@) + out * pow_b(old(lhs)@.len()) == limbs_val(old(lhs)@) + carry
            * pow_b(start as nat),
{
    let n = lhs.len();
    let mut c = carry;
    let mut i = start;
    while i < n && c != 0
        invariant
            n == lhs@.len(),
            lhs@.len() == old(lhs)@.len(),
            start <= i <= n,
            c <= carry,
            i > start ==> c <= 1,
            limbs_val(lhs@) + c * pow_b(i as nat) == limbs_val(old(lhs)@) + carry * pow_b(
                start as nat,
            ),
        decreases n - i,
    {
        let x = lhs[i];
        let lh = to_lo_hi(x as DoubleBigDigit + c as DoubleBigDigit);
        let ghost before = lhs@;
        lhs[i] = lh[0];
        proof {
            lemma_val_update(before, i as int, lh[0]);
            lemma_limb_step(
                limbs_val(lhs@),
                limbs_val(before),
                pow_b(i as nat),
                x as int,
                lh[0] as int,
                lh[1] as int,
                c as int,
            );
            lemma_pow_b_succ(i as nat);
        }
        c = lh[1];
        i = i + 1;
    }
    proof {
        if c == 0 {
            assert(c * pow_b(n as nat) == 0);
        }
    }
    c
}

/// Adds the single limb `rhs` into `lhs`. Returns the carry out of the top limb.
pub fn sadd_digit(lhs: &mut [BigDigit], rhs: BigDigit) -> (carry: BigDigit)
    ensures
        final(lhs)@.len() == old(lhs)@.len(),
        carry <= rhs,
        old(lhs)@.len() > 0 ==> carry <= 1,
        limbs_val(final(lhs)@) + carry * pow_b(old(lhs)@.len()) == limbs_val(old(lhs)@) + rhs,
{
    propagate_carry(lhs, 0, rhs)
}

/// Adds `rhs` into `lhs`, limb by limb, then carries through the rest of
/// `lhs`. Returns the carry out of the top limb, 0 or 1.
pub fn sadd(lhs: &mut [BigDigit], rhs: &[BigDigit]) -> (carry: BigDigit)
    requires
        old(lhs)@.len() >= rhs@.len(),
    ensures
        final(lhs)@.len() == old(lhs)@.len(),
        carry <= 1,
        limbs_val(final(lhs)@) + carry * pow_b(old(lhs)@.len()) == limbs_val(old(lhs)@)
            + limbs_val(rhs@),
{
    let n = rhs.len();
    let mut carry: BigDigit = 0;
    let mut i: usize = 0;
    while i < n
        invariant
            n == rhs@.len(),
            n <= lhs@.len(),
            lhs@.len() == old(lhs)@.len(),
            i <= n,
            carry <= 1,
            limbs_val(lhs@) + carry * pow_b(i as nat) == limbs_val(old(lhs)@) + limbs_val(
                rhs@.take(i as int),
            ),
        decreases n - i,
    {
        let x = lhs[i];
        let r = rhs[i];
        let lh = to_lo_hi(x as DoubleBigDigit + r as DoubleBigDigit + carry as DoubleBigDigit);
        let ghost before = lhs@;
        lhs[i] = lh[0];
        proof {
            lemma_val_update(before, i as int, lh[0]);
            lemma_limb_step(
                limbs_val(lhs@),
                limbs_val(before),
                pow_b(i as nat),
                x as int,
                lh[0] as int,
                lh[1] as int,
                r + carry,
            );
            lemma_pow_b_succ(i as nat);
            lemma_val_take_succ(rhs@, i as int);
            let p = pow_b(i as nat);
            assert((r + carry) * p == r * p + carry * p) by (nonlinear_arith);
        }
        carry = lh[1];
        i = i + 1;
    }
    proof {
        assert(rhs@.take(n as int) =~= rhs@);
    }
    propagate_carry(lhs, n, carry)
}

/// Adds the limb `rhs` into `lhs`, which has at least two limbs and room for
/// the sum.
pub fn ripple_add(lhs: &mut [BigDigit], rhs: BigDigit)
    requires
        old(lhs)@.len() >= 2,
        limbs_val(old(lhs)@) + rhs < pow_b(old(lhs)@.len()),
    ensures
        final(lhs)@.len() == old(lhs)@.len(),
        limbs_val(final(lhs)@) == limbs_val(old(lhs)@) + rhs,
{
    let c = sadd_digit(lhs, rhs);
    proof {
        lemma_val_bound(lhs@);
        if c != 0 {
            assert(c * pow_b(lhs@.len()) >= pow_b(lhs@.len())) by (nonlinear_arith)
                requires
                    c >= 1,
                    pow_b(lhs@.len()) >= 0,
            ;
        }
    }
}

/// The absolute value of an integer.
pub open spec fn abs(d: int) -> int {
    if d < 0 {
        -d
    } else {
        d
    }
}

/// Subtracts `borrow` from `lhs` at limb `start` and borrows upward while
/// needed. Returns the borrow out of the top limb.
fn propagate_borrow(lhs: &mut [BigDigit], start: usize, borrow: BigDigit) -> (out: BigDigit)
    requires
        start <= old(lhs)@.len(),
    ensures
        final(lhs)@.len() == old(lhs)@.len(),
        out <= borrow,
        start < old(lhs)@.len() ==> out <= 1,
        limbs_val(final(lhs)@) - out * pow_b(old(lhs)@.len()) == limbs_val(old(lhs)@) - borrow
            * pow_b(start as nat),
{
    let n = lhs.len();
    let mut c = borrow;
    let mut i = start;
    while i < n && c != 0
        invariant
            n == lhs@.len(),
            lhs@.len() == old(lhs)@.len(),
            start <= i <= n,
            c <= borrow,
            i > start ==> c <= 1,
            limbs_val(lhs@) - c * pow_b(i as nat) == limbs_val(old(lhs)@) - borrow * pow_b(
                start as nat,
            ),
        decreases n - i,
    {
        let x = lhs[i];
        let lh = to_lo_hi(x as DoubleBigDigit + 0x1_0000_0000u64 - c as DoubleBigDigit);
        let ghost before = lhs@;
        lhs[i] = lh[0];
        proof {
            lemma_val_update(before, i as int, lh[0]);
            lemma_limb_step(
                limbs_val(lhs@),
                limbs_val(before),
                pow_b(i as nat),
                x as int,
                lh[0] as int,
                lh[1] - 1,
                -c,
            );
            lemma_pow_b_succ(i as nat);
            lemma_hi_le_one(lh[0] as int, lh[1] as int);
            let q = base() * pow_b(i as nat);
            assert((lh[1] - 1) * q == -((1 - lh[1]) * q)) by (nonlinear_arith);
            let p = pow_b(i as nat);
            assert((-c) * p == -(c * p)) by (nonlinear_arith);
        }
        c = 1 - lh[1] as u32;
        i = i + 1;
    }
    proof {
        if c == 0 {
            assert(c * pow_b(n as nat) == 0);
        }
    }
    c
}

/// Subtracts `rhs` from `lhs` limb by limb, then borrows through the rest of
/// `lhs`. Returns whether a borrow left the top limb, in which case `lhs`
/// holds the difference plus the radix to the power of its length.
pub(crate) fn ssub_borrow(lhs: &mut [BigDigit], rhs: &[BigDigit]) -> (borrow: bool)
    requires
        old(lhs)@.len() >= rhs@.len(),
    ensures
        final(lhs)@.len() == old(lhs)@.len(),
        limbs_val(final(lhs)@) == limbs_val(old(lhs)@) - limbs_val(rhs@) + if borrow {
            pow_b(old(lhs)@.len())
        } else {
            0
        },
        borrow == (limbs_val(old(lhs)@) < limbs_val(rhs@)),
{
    let n = rhs.len();
    let mut carry: BigDigit = 0;
    let mut i: usize = 0;
    while i < n
        invariant
            n == rhs@.len(),
            n <= lhs@.len(),
            lhs@.len() == old(lhs)@.len(),
            i <= n,
            carry <= 1,
            limbs_val(lhs@) - carry * pow_b(i as nat) == limbs_val(old(lhs)@) - limbs_val(
                rhs@.take(i as int),
            ),
        decreases n - i,
    {
        let x = lhs[i];
        let r = rhs[i];
        let lh = to_lo_hi(
            x as DoubleBigDigit + 0x1_0000_0000u64 - r as DoubleBigDigit - carry as DoubleBigDigit,
        );
        let ghost before = lhs@;
        lhs[i] = lh[0];
        proof {
            lemma_val_update(before, i as int, lh[0]);
            lemma_limb_step(
                limbs_val(lhs@),
                limbs_val(before),
                pow_b(i as nat),
                x as int,
                lh[0] as int,
                lh[1] - 1,
                -(r + carry),
            );
            lemma_pow_b_succ(i as nat);
            lemma_val_take_succ(rhs@, i as int);
            let p = pow_b(i as nat);
            assert((r + carry) * p == r * p + carry * p) by (nonlinear_arith);
            assert((-(r + carry)) * p == -((r + carry) * p)) by (nonlinear_arith);
            lemma_hi_le_one(lh[0] as int, lh[1] as int);
            let q = base() * p;
            assert((lh[1] - 1) * q == -((1 - lh[1]) * q)) by (nonlinear_arith);
        }
        carry = 1 - lh[1] as u32;
        i = i + 1;
    }
    proof {
        assert(rhs@.take(n as int) =~= rhs@);
    }
    let out = propagate_borrow(lhs, n, carry);
    proof {
        let m = pow_b(lhs@.len());
        lemma_val_bound(lhs@);
        lemma_val_bound(old(lhs)@);
        lemma_val_bound(rhs@);
        lemma_pow_b_mono(rhs@.len(), lhs@.len());
        assert(out * m == 0 || out * m == m) by (nonlinear_arith)
            requires
                out == 0 || out == 1,
        ;
    }
    out != 0
}

/// Subtracts `rhs` from `lhs` in place and returns the sign of the
/// difference. `lhs` ends holding the magnitude of the difference: on a
/// borrow out of the top limb its limbs are complemented and incremented.
pub fn ssub(lhs: &mut [BigDigit], rhs: &[BigDigit]) -> (r: Sign)
    requires
        old(lhs)@.len() >= rhs@.len(),
    ensures
        final(lhs)@.len() == old(lhs)@.len(),
        r == sign_of(limbs_val(old(lhs)@) - limbs_val(rhs@)),
        limbs_val(final(lhs)@) == abs(limbs_val(old(lhs)@) - limbs_val(rhs@)),
{
    let borrow = ssub_borrow(lhs, rhs);
    let n = lhs.len();
    if borrow {
        let ghost mid = lhs@;
        let mut i: usize = 0;
        while i < n
            invariant
                n == lhs@.len(),
                mid.len() == n,
                i <= n,
                lhs@.skip(i as int) == mid.skip(i as int),
                limbs_val(lhs@.take(i as int)) == pow_b(i as nat) - 1 - limbs_val(
                    mid.take(i as int),
                ),
            decreases n - i,
        {
            let x = lhs[i];
            let ghost before = lhs@;
            lhs[i] = DIGIT_MAX - x;
            proof {
                assert(lhs@.take(i as int) =~= before.take(i as int));
                assert(x == mid[i as int]) by {
                    assert(before.skip(i as int)[0] == mid.skip(i as int)[0]);
                }
                lemma_val_take_succ(lhs@, i as int);
                lemma_val_take_succ(mid, i as int);
                lemma_pow_b_succ(i as nat);
                let p = pow_b(i as nat);
                assert((DIGIT_MAX - x) * p == base() * p - p - x * p) by (nonlinear_arith);
                assert(lhs@.skip(i + 1) =~= before.skip(i + 1));
                assert(mid.skip(i + 1) =~= mid.skip(i as int).skip(1));
                assert(before.skip(i + 1) =~= before.skip(i as int).skip(1));
            }
            i = i + 1;
        }
        proof {
            assert(lhs@.take(n as int) =~= lhs@);
            assert(mid.take(n as int) =~= mid);
            assert(limbs_val(lhs@) == pow_b(n as nat) - 1 - limbs_val(mid));
            assert(limbs_val(mid) == limbs_val(old(lhs)@) - limbs_val(rhs@) + pow_b(n as nat));
        }
        let ghost comp = lhs@;
        let c = sadd_digit(lhs, 1);
        proof {
            lemma_val_bound(lhs@);
            lemma_val_bound(comp);
            lemma_val_bound(rhs@);
            lemma_val_bound(old(lhs)@);
            lemma_pow_b_mono(rhs@.len(), n as nat);
            if c != 0 {
                assert(c * pow_b(n as nat) >= pow_b(n as nat)) by (nonlinear_arith)
                    requires
                        c >= 1,
                        pow_b(n as nat) >= 0,
                ;
            }
            assert(c == 0);
            assert(c * pow_b(n as nat) == 0);
        }
        Sign::Negative
    } else if all_zero(lhs) {
        Sign::Zero
    } else {
        proof {
            lemma_val_bound(lhs@);
        }
        Sign::Positive
    }
}

/// Subtracts `rhs` from a copy of `lhs`; returns the sign of the difference
/// and its magnitude.
pub fn ssub_sign(lhs: &[BigDigit], rhs: &[BigDigit]) -> (r: (Sign, Vec<BigDigit>))
    requires
        lhs@.len() >= rhs@.len(),
    ensures
        r.1@.len() == lhs@.len(),
        r.0 == sign_of(limbs_val(lhs@) - limbs_val(rhs@)),
        limbs_val(r.1@) == abs(limbs_val(lhs@) - limbs_val(rhs@)),
{
    let mut output = crate::bigint::copy_limbs(lhs);
    let sign = ssub(output.as_mut_slice(), rhs);
    (sign, output)
}

/// Subtracts the single limb `rhs` from `lhs`, borrowing upward. Returns
/// whether a borrow left the top limb, that is whether `lhs` was below `rhs`.
pub fn dsub(lhs: &mut [BigDigit], rhs: BigDigit) -> (borrow: bool)
    ensures
        final(lhs)@.len() == old(lhs)@.len(),
        borrow == (limbs_val(old(lhs)@) < rhs),
        old(lhs)@.len() > 0 ==> limbs_val(final(lhs)@) == limbs_val(old(lhs)@) - rhs + if borrow {
            pow_b(old(lhs)@.len())
        } else {
            0
        },
{
    let out = propagate_borrow(lhs, 0, rhs);
    proof {
        let n = lhs@.len();
        lemma_val_bound(lhs@);
        lemma_val_bound(old(lhs)@);
        if n > 0 {
            lemma_pow_b_pos(n);
            assert(pow_b(n) == base() * pow_b((n - 1) as nat));
            lemma_pow_b_pos((n - 1) as nat);
            assert(out * pow_b(n) == 0 || out * pow_b(n) == pow_b(n)) by (nonlinear_arith)
                requires
                    out == 0 || out == 1,
            ;
        } else {
            assert(limbs_val(lhs@) == 0);
            assert(limbs_val(old(lhs)@) == 0);
        }
    }
    out != 0
}

/// Whether every limb is zero, that is whether the value is zero.
pub fn all_zero(s: &[BigDigit]) -> (r: bool)
    ensures
        r == (limbs_val(s@) == 0),
        r == (forall|i: int| 0 <= i < s@.len() ==> s@[i] == 0),
{
    proof {
        lemma_val_zero(s@);
    }
    let mut i: usize = 0;
    while i < s.len()
        invariant
            i <= s@.len(),
            forall|j: int| 0 <= j < i ==> s@[j] == 0,
        decreases s@.len() - i,
    {
        if s[i] != 0 {
            proof {
                lemma_val_zero(s@);
                assert(s@[i as int] != 0);
                assert(!(forall|j: int| 0 <= j < s@.len() ==> s@[j] == 0));
            }
            return false;
        }
        i = i + 1;
    }
    true
}

/// Multiplies `lhs` in place by the limb `rhs`. Returns the limb that
/// carries out of the top.
pub fn dmul(lhs: &mut [BigDigit], rhs: BigDigit) -> (carry: BigDigit)
    ensures
        final(lhs)@.len() == old(lhs)@.len(),
        limbs_val(final(lhs)@) + carry * pow_b(old(lhs)@.len()) == limbs_val(old(lhs)@) * rhs,
{
    let n = lhs.len();
    let mut carry: BigDigit = 0;
    let mut i: usize = 0;
    while i < n
        invariant
            n == lhs@.len(),
            lhs@.len() == old(lhs)@.len(),
            i <= n,
            forall|j: int| i <= j < n ==> lhs@[j] == old(lhs)@[j],
            limbs_val(lhs@) + carry * pow_b(i as nat) == limbs_val(old(lhs)@) + (rhs - 1)
                * limbs_val(old(lhs)@.take(i as int)),
        decreases n - i,
    {
        let x = lhs[i];
        assert(x as u64 * rhs as u64 + carry as u64 <= 0xffff_ffff_ffff_ffffu64) by (nonlinear_arith)
            requires
                x <= 0xffff_ffffu32,
                rhs <= 0xffff_ffffu32,
                carry <= 0xffff_ffffu32,
        ;
        let lh = to_lo_hi(x as DoubleBigDigit * rhs as DoubleBigDigit + carry as DoubleBigDigit);
        let ghost before = lhs@;
        lhs[i] = lh[0];
        proof {
            assert(x * rhs == x + x * (rhs - 1)) by (nonlinear_arith);
            lemma_val_update(before, i as int, lh[0]);
            lemma_limb_step(
                limbs_val(lhs@),
                limbs_val(before),
                pow_b(i as nat),
                x as int,
                lh[0] as int,
                lh[1] as int,
                x * (rhs - 1) + carry,
            );
            lemma_pow_b_succ(i as nat);
            lemma_val_take_succ(old(lhs)@, i as int);
            let p = pow_b(i as nat);
            let t = limbs_val(old(lhs)@.take(i as int));
            assert((x * (rhs - 1) + carry) * p + (rhs - 1) * t == (rhs - 1) * (t + x * p) + carry
                * p) by (nonlinear_arith);
        }
        carry = lh[1];
        i = i + 1;
    }
    proof {
        assert(old(lhs)@.take(n as int) =~= old(lhs)@);
        let v = limbs_val(old(lhs)@);
        assert(v + (rhs - 1) * v == v * rhs) by (nonlinear_arith);
    }
    carry
}

/// Adds `s` into `target` starting at limb `off`. Returns the carry out of
/// the top limb of `target`.
fn add_at(target: &mut [BigDigit], off: usize, s: &[BigDigit]) -> (carry: BigDigit)
    requires
        off + s@.len() <= old(target)@.len(),
    ensures
        final(target)@.len() == old(target)@.len(),
        carry <= 1,
        limbs_val(final(target)@) + carry * pow_b(old(target)@.len()) == limbs_val(old(target)@)
            + pow_b(off as nat) * limbs_val(s@),
{
    let ghost t0 = target@;
    let n = target.len();
    let (lo, hi) = target.split_at_mut(off);
    let ghost lo0 = lo@;
    let ghost hi0 = hi@;
    let carry = sadd(hi, s);
    proof {
        assert(t0 =~= lo0 + hi0);
        lemma_val_concat(lo0, hi0);
        lemma_val_concat(lo@, hi@);
        lemma_pow_b_add(off as nat, (n - off) as nat);
        let p = pow_b(off as nat);
        assert(p * (limbs_val(hi0) + limbs_val(s@) - carry * pow_b((n - off) as nat)) == p
            * limbs_val(hi0) + p * limbs_val(s@) - carry * (p * pow_b((n - off) as nat)))
            by (nonlinear_arith);
    }
    carry
}

/// Subtracts `s` from `target` starting at limb `off`, wrapping modulo the
/// radix to the length of `target`. Returns whether a borrow left the top limb.
fn sub_at(target: &mut [BigDigit], off: usize, s: &[BigDigit]) -> (borrow: bool)
    requires
        off + s@.len() <= old(target)@.len(),
    ensures
        final(target)@.len() == old(target)@.len(),
        limbs_val(final(target)@) == limbs_val(old(target)@) - pow_b(off as nat) * limbs_val(s@)
            + if borrow {
            pow_b(old(target)@.len())
        } else {
            0
        },
{
    let ghost t0 = target@;
    let n = target.len();
    let (lo, hi) = target.split_at_mut(off);
    let ghost lo0 = lo@;
    let ghost hi0 = hi@;
    let borrow = ssub_borrow(hi, s);
    proof {
        assert(t0 =~= lo0 + hi0);
        lemma_val_concat(lo0, hi0);
        lemma_val_concat(lo@, hi@);
        lemma_pow_b_add(off as nat, (n - off) as nat);
        let p = pow_b(off as nat);
        let e: int = if borrow {
            pow_b((n - off) as nat)
        } else {
            0
        };
        assert(p * (limbs_val(hi0) - limbs_val(s@) + e) == p * limbs_val(hi0) - p * limbs_val(s@)
            + p * e) by (nonlinear_arith);
    }
    borrow
}

/// The value that a multiply-accumulate leaves in a target of `n` limbs.
pub open spec fn mul_acc(t: Seq<u32>, a: Seq<u32>, b: Seq<u32>) -> int {
    (limbs_val(t) + limbs_val(a) * limbs_val(b)) % pow_b(t.len())
}

/// Schoolbook multiply-accumulate: `target += b * c`, modulo the radix to
/// the length of `target`. Each row of partial products carries into the
/// limbs above it.
pub fn n_mul3(target: &mut [BigDigit], b: &[BigDigit], c: &[BigDigit])
    requires
        old(target)@.len() >= b@.len() + c@.len(),
    ensures
        final(target)@.len() == old(target)@.len(),
        limbs_val(final(target)@) == mul_acc(old(target)@, b@, c@),
{
    let n = target.len();
    let ghost mut k: int = 0;
    let mut i: usize = 0;
    while i < b.len()
        invariant
            n == target@.len(),
            n == old(target)@.len(),
            b@.len() + c@.len() <= n,
            i <= b@.len(),
            limbs_val(target@) + k * pow_b(n as nat) == limbs_val(old(target)@) + limbs_val(
                b@.take(i as int),
            ) * limbs_val(c@),
        decreases b@.len() - i,
    {
        let l = b[i];
        proof {
            lemma_val_take_succ(b@, i as int);
        }
        if l != 0 {
            let mut carry: BigDigit = 0;
            let mut j: usize = 0;
            while j < c.len()
                invariant
                    n == target@.len(),
                    b@.len() + c@.len() <= n,
                    i < b@.len(),
                    j <= c@.len(),
                    l == b@[i as int],
                    limbs_val(target@) + k * pow_b(n as nat) + carry * pow_b((i + j) as nat)
                        == limbs_val(old(target)@) + limbs_val(b@.take(i as int)) * limbs_val(c@)
                        + l * limbs_val(c@.take(j as int)) * pow_b(i as nat),
                decreases c@.len() - j,
            {
                let r = c[j];
                let x = target[i + j];
                assert(l as u64 * r as u64 + x as u64 + carry as u64 <= 0xffff_ffff_ffff_ffffu64)
                    by (nonlinear_arith)
                    requires
                        l <= 0xffff_ffffu32,
                        r <= 0xffff_ffffu32,
                        x <= 0xffff_ffffu32,
                        carry <= 0xffff_ffffu32,
                ;
                let lh = to_lo_hi(
                    l as DoubleBigDigit * r as DoubleBigDigit + x as DoubleBigDigit
                        + carry as DoubleBigDigit,
                );
                let ghost before = target@;
                target[i + j] = lh[0];
                proof {
                    let p = pow_b((i + j) as nat);
                    let pi = pow_b(i as nat);
                    let pj = pow_b(j as nat);
                    lemma_val_update(before, (i + j) as int, lh[0]);
                    lemma_limb_step(
                        limbs_val(target@),
                        limbs_val(before),
                        p,
                        x as int,
                        lh[0] as int,
                        lh[1] as int,
                        l * r + carry,
                    );
                    lemma_pow_b_succ((i + j) as nat);
                    lemma_pow_b_add(i as nat, j as nat);
                    lemma_val_take_succ(c@, j as int);
                    let vc = limbs_val(c@.take(j as int));
                    assert(l * (vc + r * pj) * pi == l * vc * pi + l * r * (pi * pj))
                        by (nonlinear_arith);
                    assert((l * r + carry) * p == l * r * p + carry * p) by (nonlinear_arith);
                }
                carry = lh[1];
                j = j + 1;
            }
            let out = propagate_carry(target, i + c.len(), carry);
            proof {
                assert(c@.take(c@.len() as int) =~= c@);
                let vb = limbs_val(b@.take(i as int));
                let pi = pow_b(i as nat);
                assert(vb * limbs_val(c@) + l * limbs_val(c@) * pi == (vb + l * pi) * limbs_val(c@))
                    by (nonlinear_arith);
                assert(k * pow_b(n as nat) + out * pow_b(n as nat) == (k + out) * pow_b(n as nat))
                    by (nonlinear_arith);
                k = k + out;
            }
        } else {
            proof {
                let p = pow_b(i as nat);
                assert(l * p == 0) by (nonlinear_arith)
                    requires
                        l == 0,
                ;
            }
        }
        i = i + 1;
    }
    proof {
        assert(b@.take(b@.len() as int) =~= b@);
        lemma_val_bound(target@);
        lemma_val_mod(limbs_val(target@), k, pow_b(n as nat), limbs_val(old(target)@) + limbs_val(b@)
            * limbs_val(c@));
    }
}

/// Multiply-accumulate, `target += b * c` modulo the radix to the length of
/// `target`: schoolbook when the shorter operand has at most 16 limbs,
/// Karatsuba otherwise.
pub fn mul3(target: &mut [BigDigit], b: &[BigDigit], c: &[BigDigit])
    requires
        old(target)@.len() >= b@.len() + c@.len(),
    ensures
        final(target)@.len() == old(target)@.len(),
        limbs_val(final(target)@) == mul_acc(old(target)@, b@, c@),
    decreases b@.len() + c@.len(), 1int,
{
    proof {
        let x = limbs_val(b@);
        let y = limbs_val(c@);
        assert(x * y == y * x) by (nonlinear_arith);
    }
    if b.len() < c.len() {
        if b.len() <= 16 {
            n_mul3(target, b, c);
        } else {
            k_mul3(target, b, c);
        }
    } else {
        if c.len() <= 16 {
            n_mul3(target, c, b);
        } else {
            k_mul3(target, c, b);
        }
    }
}

/// Adds `s` into `target` at limbs `o1` and `o2`. Returns the sum of the
/// two carries out of the top limb.
fn add_twice(target: &mut [BigDigit], o1: usize, o2: usize, s: &[BigDigit]) -> (carry: BigDigit)
    requires
        o1 + s@.len() <= old(target)@.len(),
        o2 + s@.len() <= old(target)@.len(),
    ensures
        final(target)@.len() == old(target)@.len(),
        carry <= 2,
        limbs_val(final(target)@) + carry * pow_b(old(target)@.len()) == limbs_val(old(target)@)
            + (pow_b(o1 as nat) + pow_b(o2 as nat)) * limbs_val(s@),
{
    let c1 = add_at(target, o1, s);
    let c2 = add_at(target, o2, s);
    proof {
        lemma_dist(c1 as int, c2 as int, pow_b(target@.len()));
        lemma_dist(pow_b(o1 as nat), pow_b(o2 as nat), limbs_val(s@));
    }
    c1 + c2
}

/// The product of two limb slices, in a fresh vector of their combined length.
fn product(x: &[BigDigit], y: &[BigDigit]) -> (r: Vec<BigDigit>)
    requires
        x@.len() + y@.len() <= usize::MAX,
    ensures
        r@.len() == x@.len() + y@.len(),
        limbs_val(r@) == limbs_val(x@) * limbs_val(y@),
    decreases x@.len() + y@.len(), 2int,
{
    let mut r = crate::bigint::zero_limbs(x.len() + y.len());
    mul3(r.as_mut_slice(), x, y);
    proof {
        let p = limbs_val(x@) * limbs_val(y@);
        lemma_prod_bound(x@, y@);
        lemma_val_mod(p, 0, pow_b((x@.len() + y@.len()) as nat), p);
    }
    r
}

/// The Karatsuba step of `mul3`. With `x = x1 * B^h + x0` and
/// `y = y1 * B^h + y0`, where `h = |x| / 2`, it accumulates `x0 * y0` at
/// limbs 0 and `h`, `x1 * y1` at limbs `h` and `2h`, and the middle term
/// `-(x1 - x0) * (y1 - y0)` at limb `h`.
#[verifier::spinoff_prover]
pub fn k_mul3(target: &mut [BigDigit], x: &[BigDigit], y: &[BigDigit])
    requires
        old(target)@.len() >= x@.len() + y@.len(),
        2 <= x@.len(),
        2 * (x@.len() / 2) <= y@.len(),
    ensures
        final(target)@.len() == old(target)@.len(),
        limbs_val(final(target)@) == mul_acc(old(target)@, x@, y@),
    decreases x@.len() + y@.len(), 0int,
{
    let n = target.len();
    let h = x.len() / 2;
    let (x0, x1) = x.split_at(h);
    let (y0, y1) = y.split_at(h);
    let ghost nn = pow_b(n as nat);
    let ghost ph = pow_b(h as nat);
    let ghost v0 = limbs_val(target@);

    let hi_prod = product(x1, y1);
    let c1 = add_twice(target, h, 2 * h, hi_prod.as_slice());
    let ghost v1 = limbs_val(target@);
    let lo_prod = product(x0, y0);
    let c2 = add_twice(target, 0, h, lo_prod.as_slice());
    let ghost v2 = limbs_val(target@);

    let (j0_sign, j0) = ssub_sign(x1, x0);
    let (j1_sign, j1) = ssub_sign(y1, y0);
    let ghost m = (limbs_val(x1@) - limbs_val(x0@)) * (limbs_val(y1@) - limbs_val(y0@));
    let ghost mut e: int = 0;
    proof {
        lemma_abs_prod(
            limbs_val(x1@) - limbs_val(x0@),
            limbs_val(y1@) - limbs_val(y0@),
            j0_sign,
            j1_sign,
        );
    }
    match j0_sign.times(j1_sign) {
        Sign::Positive => {
            let mid = product(j0.as_slice(), j1.as_slice());
            let borrow = sub_at(target, h, mid.as_slice());
            proof {
                if borrow {
                    e = -1;
                }
                lemma_dist(-1, 0, nn);
                assert(limbs_val(target@) + e * nn == v2 - ph * m);
            }
        },
        Sign::Negative => {
            let ghost before = target@;
            let (lo, hi) = target.split_at_mut(h);
            let ghost lo0 = lo@;
            let ghost hi0 = hi@;
            mul3(hi, j0.as_slice(), j1.as_slice());
            proof {
                assert(before =~= lo0 + hi0);
                lemma_val_concat(lo0, hi0);
                lemma_val_concat(lo@, hi@);
                lemma_pow_b_add(h as nat, (n - h) as nat);
                let pr = pow_b((n - h) as nat);
                let w = limbs_val(hi0) + limbs_val(j0@) * limbs_val(j1@);
                let q = w / pr;
                lemma_pow_b_pos((n - h) as nat);
                vstd::arithmetic::div_mod::lemma_fundamental_div_mod(w, pr);
                assert(ph * (w - pr * q) == ph * w - q * (ph * pr)) by (nonlinear_arith);
                lemma_dist_left(ph, limbs_val(hi0), limbs_val(j0@) * limbs_val(j1@));
                assert(ph * (-m) == -(ph * m)) by (nonlinear_arith);
                e = q;
                assert(limbs_val(target@) == limbs_val(lo@) + ph * limbs_val(hi@));
                assert(limbs_val(target@) + e * nn == v2 - ph * m);
            }
        },
        Sign::Zero => {
            proof {
                assert(ph * m == 0) by (nonlinear_arith)
                    requires
                        m == 0,
                ;
            }
        },
    }
    proof {
        let v3 = limbs_val(target@);
        assert(v3 + e * nn == v2 - ph * m);
        assert(x0@ =~= x@.take(h as int));
        assert(x1@ =~= x@.skip(h as int));
        assert(y0@ =~= y@.take(h as int));
        assert(y1@ =~= y@.skip(h as int));
        lemma_val_split(x@, h as int);
        lemma_val_split(y@, h as int);
        lemma_pow_b_add(h as nat, h as nat);
        assert(pow_b(0) == 1);
        lemma_kmul_combine(
            v0,
            v1,
            v2,
            v3,
            c1 as int,
            c2 as int,
            e,
            nn,
            ph,
            limbs_val(x0@),
            limbs_val(x1@),
            limbs_val(y0@),
            limbs_val(y1@),
        );
        lemma_val_bound(target@);
        lemma_val_mod(v3, c1 + c2 + e, nn, v0 + limbs_val(x@) * limbs_val(y@));
    }
}

/// Puts the four accumulations of the Karatsuba step together.
proof fn lemma_kmul_combine(
    v0: int,
    v1: int,
    v2: int,
    v3: int,
    c1: int,
    c2: int,
    e: int,
    n: int,
    p: int,
    x0: int,
    x1: int,
    y0: int,
    y1: int,
)
    requires
        v1 + c1 * n == v0 + (p + p * p) * (x1 * y1),
        v2 + c2 * n == v1 + (1 + p) * (x0 * y0),
        v3 + e * n == v2 - p * ((x1 - x0) * (y1 - y0)),
    ensures
        v3 + (c1 + c2 + e) * n == v0 + (x0 + p * x1) * (y0 + p * y1),
{
    lemma_karatsuba_identity(x0, x1, y0, y1, p);
    lemma_dist(p, p * p, x1 * y1);
    lemma_dist(1, p, x0 * y0);
    lemma_dist(c1 + c2, e, n);
    lemma_dist(c1, c2, n);
}

/// The Karatsuba recombination: three half-size products give the whole one.
proof fn lemma_karatsuba_identity(x0: int, x1: int, y0: int, y1: int, p: int)
    ensures
        p * (x1 * y1) + (p * p) * (x1 * y1) + x0 * y0 + p * (x0 * y0) - p * ((x1 - x0) * (y1
            - y0)) == (x0 + p * x1) * (y0 + p * y1),
{
    broadcast use vstd::arithmetic::mul::group_mul_properties;

    let c = x0 * y1 + x1 * y0;
    assert((x0 + p * x1) * (y0 + p * y1) == x0 * (y0 + p * y1) + (p * x1) * (y0 + p * y1));
    assert(x0 * (y0 + p * y1) == x0 * y0 + x0 * (p * y1));
    assert((p * x1) * (y0 + p * y1) == (p * x1) * y0 + (p * x1) * (p * y1));
    assert(x0 * (p * y1) == p * (x0 * y1));
    assert((p * x1) * y0 == p * (x1 * y0));
    assert((p * x1) * (p * y1) == (p * p) * (x1 * y1)) by {
        vstd::arithmetic::mul::lemma_mul_is_associative(p * x1, p, y1);
        vstd::arithmetic::mul::lemma_mul_is_associative(p, x1, p);
        vstd::arithmetic::mul::lemma_mul_is_commutative(x1, p);
        vstd::arithmetic::mul::lemma_mul_is_associative(p, p, x1);
        vstd::arithmetic::mul::lemma_mul_is_associative(p * p, x1, y1);
    }
    assert(p * c == p * (x0 * y1) + p * (x1 * y0));
    assert((x1 - x0) * (y1 - y0) == x1 * y1 + x0 * y0 - c) by (nonlinear_arith)
        requires
            c == x0 * y1 + x1 * y0,
    ;
    let m = (x1 - x0) * (y1 - y0);
    assert(p * m == p * (x1 * y1) + p * (x0 * y0) - p * c) by (nonlinear_arith)
        requires
            m == x1 * y1 + x0 * y0 - c,
    ;
}

/// Distributes a product over a sum, from the left.
proof fn lemma_dist_left(n: int, k: int, c: int)
    ensures
        n * (k + c) == n * k + n * c,
{
    assert(n * (k + c) == n * k + n * c) by (nonlinear_arith);
}

/// Distributes a product over a sum.
proof fn lemma_dist(k: int, c: int, n: int)
    ensures
        (k + c) * n == k * n + c * n,
{
    assert((k + c) * n == k * n + c * n) by (nonlinear_arith);
}

/// The product of two magnitudes, by the product of the signs.
proof fn lemma_abs_prod(a: int, b: int, sa: Sign, sb: Sign)
    requires
        sa == sign_of(a),
        sb == sign_of(b),
    ensures
        sign_times(sa, sb) == Sign::Positive ==> abs(a) * abs(b) == a * b,
        sign_times(sa, sb) == Sign::Negative ==> abs(a) * abs(b) == -(a * b),
        sign_times(sa, sb) == Sign::Zero ==> a * b == 0,
{
    if a < 0 && b < 0 {
        assert(abs(a) * abs(b) == a * b) by (nonlinear_arith)
            requires
                abs(a) == -a,
                abs(b) == -b,
        ;
    } else if a < 0 && b > 0 {
        assert(abs(a) * abs(b) == -(a * b)) by (nonlinear_arith)
            requires
                abs(a) == -a,
                abs(b) == b,
        ;
    } else if a > 0 && b < 0 {
        assert(abs(a) * abs(b) == -(a * b)) by (nonlinear_arith)
            requires
                abs(a) == a,
                abs(b) == -b,
        ;
    } else if a == 0 || b == 0 {
        assert(a * b == 0) by (nonlinear_arith)
            requires
                a == 0 || b == 0,
        ;
    }
}

} // verus!
