//! Division: by a single limb, and long division of magnitudes by Knuth's
//! Algorithm D.

use vstd::prelude::*;
use crate::bigint::{BigInt, copy_limbs, zero_limbs, no_top_zero};
use crate::digit::{
    BigDigit, base, limbs_val, pow_b, pow2, lemma_val_cons, lemma_val_bound,
    lemma_val_push, lemma_val_split, lemma_pow_b_pos, lemma_val_concat,
};
use crate::sign::Sign;

verus! {

/// Divides the limbs `n` by the limb `d`, from the most significant limb
/// down, keeping a one-limb running remainder. Returns the quotient limbs,
/// as many as `n` has, and the remainder.
pub fn div_rem_digit(n: &[BigDigit], d: BigDigit) -> (r: (Vec<BigDigit>, BigDigit))
    requires
        d != 0,
    ensures
        r.0@.len() == n@.len(),
        limbs_val(n@) == limbs_val(r.0@) * d + r.1,
        r.1 < d,
{
    let len = n.len();
    let mut quo = zero_limbs(len);
    let mut rem: BigDigit = 0;
    let mut i: usize = len;
    while i > 0
        invariant
            len == n@.len(),
            quo@.len() == len,
            i <= len,
            rem < d,
            limbs_val(n@.skip(i as int)) == limbs_val(quo@.skip(i as int)) * d + rem,
        decreases i,
    {
        let k = i - 1;
        let x = n[k];
        let t: u64 = (rem as u64) * 0x1_0000_0000u64 + x as u64;
        proof {
            assert((rem as int) * base() + x < (d as int) * base()) by (nonlinear_arith)
                requires
                    rem + 1 <= d,
                    x < base(),
            ;
        }
        let q = t / (d as u64);
        let r2 = t % (d as u64);
        proof {
            vstd::arithmetic::div_mod::lemma_fundamental_div_mod(t as int, d as int);
            assert(q < base()) by (nonlinear_arith)
                requires
                    t == d * q + r2,
                    r2 >= 0,
                    t < d * base(),
                    d > 0,
            ;
        }
        let ghost qbefore = quo@;
        quo.set(k, q as u32);
        proof {
            lemma_val_cons(n@.skip(k as int));
            assert(n@.skip(k as int).skip(1) =~= n@.skip(i as int));
            assert(n@.skip(k as int)[0] == x);
            lemma_val_cons(quo@.skip(k as int));
            assert(quo@.skip(k as int).skip(1) =~= qbefore.skip(i as int));
            assert(quo@.skip(k as int)[0] == q);
            let vq = limbs_val(qbefore.skip(i as int));
            assert(x + base() * (vq * d + rem) == (q + base() * vq) * d + r2) by (nonlinear_arith)
                requires
                    t == d * q + r2,
                    t == rem * base() + x,
            ;
        }
        rem = r2 as u32;
        i = k;
    }
    proof {
        assert(n@.skip(0) =~= n@);
        assert(quo@.skip(0) =~= quo@);
    }
    (quo, rem)
}

/// Divides `dividend` by the limb `divisor`: the quotient has the sign of
/// the dividend and the quotient of the magnitudes; the remainder, when
/// asked for, is the remainder of the magnitudes.
pub fn short_divmod(dividend: &BigInt, divisor: BigDigit, return_remainder: bool) -> (r: (
    BigInt,
    Option<BigDigit>,
))
    requires
        dividend.wf(),
        divisor != 0,
    ensures
        r.0.wf(),
        r.0.value() == dividend.sign.factor() * (dividend.magnitude() / divisor as int),
        return_remainder ==> r.1 == Some((dividend.magnitude() % divisor as int) as BigDigit),
        !return_remainder ==> r.1.is_none(),
{
    proof {
        dividend.lemma_wf_sign();
    }
    if dividend.sign == Sign::Zero {
        proof {
            assert(dividend.magnitude() == 0);
            assert(0int / divisor as int == 0);
            assert(0int % divisor as int == 0);
        }
        if return_remainder {
            return (BigInt::zero(), Some(0));
        } else {
            return (BigInt::zero(), None);
        }
    }
    let (quo, rem) = div_rem_digit(dividend.digits.as_slice(), divisor);
    proof {
        lemma_val_bound(quo@);
        vstd::arithmetic::div_mod::lemma_fundamental_div_mod_converse(
            dividend.magnitude(),
            divisor as int,
            limbs_val(quo@),
            rem as int,
        );
    }
    let q = BigInt { sign: dividend.sign, digits: quo }.trimmed();
    proof {
        let f = dividend.sign.factor();
        if q.digits@.len() == 0 {
            assert(f * (dividend.magnitude() / divisor as int) == 0) by (nonlinear_arith)
                requires
                    dividend.magnitude() / divisor as int == 0,
            ;
        }
    }
    if return_remainder {
        (q, Some(rem))
    } else {
        (q, None)
    }
}

} // verus!

verus! {

/// Sets `dividend` to `dividend - q * divisor`; `divisor` is left holding
/// its product by `q`. Returns whether the difference borrowed out of the
/// top limb, in which case `dividend` holds it plus the radix to its length.
pub fn ssub_with_mul(dividend: &mut [BigDigit], divisor: &mut [BigDigit], q: BigDigit) -> (borrow:
    bool)
    requires
        old(dividend)@.len() == old(divisor)@.len(),
        limbs_val(old(divisor)@) * q < pow_b(old(divisor)@.len()),
    ensures
        final(dividend)@.len() == old(dividend)@.len(),
        final(divisor)@.len() == old(divisor)@.len(),
        limbs_val(final(divisor)@) == limbs_val(old(divisor)@) * q,
        limbs_val(final(dividend)@) == limbs_val(old(dividend)@) - limbs_val(old(divisor)@) * q
            + if borrow {
            pow_b(old(dividend)@.len())
        } else {
            0
        },
        borrow == (limbs_val(old(dividend)@) < limbs_val(old(divisor)@) * q),
{
    let carry = crate::kernel::dmul(divisor, q);
    proof {
        lemma_val_bound(divisor@);
        let p = pow_b(divisor@.len());
        lemma_pow_b_pos(divisor@.len());
        assert(carry * p == 0) by (nonlinear_arith)
            requires
                limbs_val(divisor@) + carry * p < p,
                limbs_val(divisor@) >= 0,
                carry >= 0,
                p >= 1,
        ;
    }
    crate::kernel::ssub_borrow(dividend, divisor)
}

/// The number of bits by which the top limb of a divisor is shifted so that
/// its highest bit is set: the leading zeros of that limb.
pub fn normalization_shift_size(input: &BigInt) -> (r: u32)
    requires
        input.wf(),
        input.sign != Sign::Zero,
    ensures
        r < 32,
        0x8000_0000 <= input.digits@.last() * pow2(r as nat) < 0x1_0000_0000,
{
    let top = input.digits[input.digits.len() - 1];
    let r = top.leading_zeros();
    proof {
        lemma_top_bit(top, r);
    }
    r
}

/// My power of two is the one of vstd.
proof fn lemma_pow2_same(n: nat)
    ensures
        pow2(n) == vstd::arithmetic::power2::pow2(n) as int,
    decreases n,
{
    if n > 0 {
        lemma_pow2_same((n - 1) as nat);
        vstd::arithmetic::power2::lemma_pow2_unfold(n);
    } else {
        vstd::arithmetic::power2::lemma2_to64();
    }
}

/// Shifting a non-zero limb left by its leading zeros sets its highest bit
/// and keeps it within the limb.
proof fn lemma_top_bit(top: u32, lz: u32)
    requires
        top != 0,
        lz == vstd::std_specs::bits::u32_leading_zeros(top),
    ensures
        lz < 32,
        0x8000_0000 <= top * pow2(lz as nat) < 0x1_0000_0000,
{
    vstd::std_specs::bits::axiom_u32_leading_zeros(top);
    let lo = (31 - lz) as u32;
    vstd::bits::lemma_u32_shr_is_div(top, lo);
    lemma_pow2_same(lo as nat);
    lemma_pow2_same(lz as nat);
    crate::digit::lemma_pow2_add(lo as nat, lz as nat);
    crate::digit::lemma_pow2_pos(lo as nat);
    crate::digit::lemma_pow2_pos(lz as nat);
    crate::digit::lemma_pow2_limb();
    assert(pow2(32) == 2 * pow2(31));
    assert(pow2(31) == 0x8000_0000);
    let p = pow2(lo as nat);
    let q = pow2(lz as nat);
    assert((top >> lo) & 1u32 != 0u32);
    assert(top >> lo >= 1) by (bit_vector)
        requires
            (top >> lo) & 1u32 != 0u32,
    ;
    assert(top as int / p >= 1);
    vstd::arithmetic::div_mod::lemma_fundamental_div_mod(top as int, p);
    vstd::arithmetic::div_mod::lemma_mod_bound(top as int, p);
    assert(top >= p) by (nonlinear_arith)
        requires
            top == p * (top as int / p) + top as int % p,
            top as int / p >= 1,
            top as int % p >= 0,
            p >= 1,
    ;
    assert(top * q >= p * q) by (nonlinear_arith)
        requires
            top >= p,
            q >= 1,
    ;
    if lz == 0 {
        assert(q == 1);
    } else {
        let hi = (32 - lz) as u32;
        vstd::bits::lemma_u32_shr_is_div(top, hi);
        lemma_pow2_same(hi as nat);
        crate::digit::lemma_pow2_add(hi as nat, lz as nat);
        crate::digit::lemma_pow2_pos(hi as nat);
        let h = pow2(hi as nat);
        assert(top as int / h == 0);
        vstd::arithmetic::div_mod::lemma_fundamental_div_mod(top as int, h);
        vstd::arithmetic::div_mod::lemma_mod_bound(top as int, h);
        assert(top < h);
        assert(top * q < h * q) by (nonlinear_arith)
            requires
                top < h,
                q >= 1,
        ;
    }
}

/// A trial quotient limb from the top three limbs of the window and the top
/// two limbs of the divisor: the two-limb estimate, refined while it is too
/// large against the next divisor limb.
fn estimate_qhat(w2: BigDigit, w1: BigDigit, w0: BigDigit, v1: BigDigit, v0: BigDigit) -> (q: u64)
    requires
        v1 != 0,
    ensures
        q < base(),
{
    let b: u64 = 0x1_0000_0000;
    let trial: u64 = (w2 as u64) * b + w1 as u64;
    let v1d = v1 as u64;
    let qt = trial / v1d;
    let mut rhat = trial % v1d;
    let mut qhat: u64 = if qt >= b {
        b
    } else {
        qt + 1
    };
    loop
        invariant
            qhat <= b,
            rhat < b,
            b == 0x1_0000_0000u64,
            v1d == v1,
        ensures
            qhat < b,
        decreases qhat,
    {
        assert(qhat * (v0 as u64) <= 0xffff_ffff_0000_0000u64) by (nonlinear_arith)
            requires
                qhat <= 0x1_0000_0000u64,
                v0 <= 0xffff_ffffu32,
        ;
        assert(rhat * b + (w0 as u64) <= 0xffff_ffff_ffff_ffffu64) by (nonlinear_arith)
            requires
                rhat < 0x1_0000_0000u64,
                b == 0x1_0000_0000u64,
                w0 <= 0xffff_ffffu32,
        ;
        if qhat > 0 && (qhat == b || qhat * (v0 as u64) > rhat * b + w0 as u64) {
            qhat = qhat - 1;
            let r2 = rhat + v1d;
            if r2 >= b {
                break;
            }
            rhat = r2;
        } else {
            break;
        }
    }
    qhat
}

/// Removes the zero limbs at the most significant end.
fn trim_limbs(v: &mut Vec<BigDigit>)
    ensures
        limbs_val(final(v)@) == limbs_val(old(v)@),
        no_top_zero(final(v)@),
        final(v)@.len() <= old(v)@.len(),
{
    let ghost d0 = v@;
    while v.len() > 0 && v[v.len() - 1] == 0
        invariant
            limbs_val(v@) == limbs_val(d0),
            v@.len() <= d0.len(),
            d0 == old(v)@,
        decreases v@.len(),
    {
        let ghost before = v@;
        assert(before.last() == 0);
        v.pop();
        proof {
            assert(before =~= v@.push(0u32));
            lemma_val_push(v@, 0u32);
            let p = pow_b(v@.len());
            assert(0 * p == 0) by (nonlinear_arith);
        }
    }
}

/// One step of long division: the window is the next dividend limb below
/// the running remainder.
proof fn lemma_div_step(x: int, vr: int, vq: int, d: int, w: int, qhat: int, rn: int)
    requires
        w == x + base() * vr,
        w == qhat * d + rn,
    ensures
        x + base() * (vq * d + vr) == (qhat + base() * vq) * d + rn,
{
    assert(x + base() * (vq * d + vr) == (qhat + base() * vq) * d + rn) by (nonlinear_arith)
        requires
            w == x + base() * vr,
            w == qhat * d + rn,
    ;
}

/// After normalization the divisor keeps its length and the top limbs of
/// the shifted dividend, as many as the divisor has, are below the shifted
/// divisor: the first window of the long division is a valid one.
proof fn lemma_first_window(u: Seq<u32>, v: Seq<u32>, un: Seq<u32>, vn: Seq<u32>, s: u32)
    requires
        v.len() >= 2,
        no_top_zero(v),
        u.len() >= v.len(),
        s < 32,
        0x8000_0000 <= v.last() * pow2(s as nat) < 0x1_0000_0000,
        limbs_val(vn) == limbs_val(v) * pow2(s as nat),
        no_top_zero(vn),
        un.len() == u.len() + 1,
        limbs_val(un) == limbs_val(u) * pow2(s as nat),
    ensures
        vn.len() == v.len(),
        0 <= limbs_val(un.skip(un.len() - vn.len())) < limbs_val(vn),
{
    let n = v.len();
    let top = v.last() as int;
    let two_s = pow2(s as nat);
    let bn1 = pow_b((n - 1) as nat);
    let vv = limbs_val(v);
    let dv = limbs_val(vn);
    crate::digit::lemma_pow2_pos(s as nat);
    crate::digit::lemma_pow2_pos((32 - s) as nat);
    crate::digit::lemma_pow2_add((32 - s) as nat, s as nat);
    crate::digit::lemma_pow2_limb();
    lemma_pow_b_pos((n - 1) as nat);
    lemma_val_split(v, (n - 1) as int);
    assert(v.skip((n - 1) as int) =~= seq![].push(v.last()));
    lemma_val_push(seq![], v.last());
    assert(pow_b(0) == 1);
    let low = limbs_val(v.take((n - 1) as int));
    lemma_val_bound(v.take((n - 1) as int));
    assert(vv == low + bn1 * top);
    // the top limb times 2^s stays below 2^32, so (top + 1) * 2^s <= 2^32
    let p32s = pow2((32 - s) as nat);
    assert(top < p32s) by (nonlinear_arith)
        requires
            top * two_s < p32s * two_s,
            two_s >= 1,
    ;
    assert(dv < bn1 * base()) by (nonlinear_arith)
        requires
            dv == vv * two_s,
            vv == low + bn1 * top,
            0 <= low < bn1,
            top + 1 <= p32s,
            p32s * two_s == base(),
            two_s >= 1,
            bn1 >= 1,
    ;
    assert(dv >= bn1 * 0x8000_0000) by (nonlinear_arith)
        requires
            dv == vv * two_s,
            vv == low + bn1 * top,
            low >= 0,
            top * two_s >= 0x8000_0000,
            two_s >= 1,
            bn1 >= 1,
    ;
    assert(pow_b(n as nat) == base() * bn1);
    lemma_val_bound(vn);
    if vn.len() > n {
        crate::digit::lemma_val_top_nonzero(vn);
        crate::digit::lemma_pow_b_mono(n as nat, (vn.len() - 1) as nat);
    }
    if vn.len() < n {
        crate::digit::lemma_pow_b_mono(vn.len(), (n - 1) as nat);
    }
    assert(vn.len() == n);
    let k = un.len() - n;
    let r0 = limbs_val(un.skip(k));
    lemma_val_split(un, k);
    lemma_val_bound(un.take(k));
    lemma_val_bound(u);
    lemma_val_bound(un.skip(k));
    crate::digit::lemma_pow_b_add(k as nat, (n - 1) as nat);
    assert(k + (n - 1) == u.len());
    let bk = pow_b(k as nat);
    lemma_pow_b_pos(k as nat);
    assert(bk * r0 < bk * (bn1 * two_s)) by (nonlinear_arith)
        requires
            limbs_val(un) == limbs_val(un.take(k)) + bk * r0,
            limbs_val(un.take(k)) >= 0,
            limbs_val(un) == limbs_val(u) * two_s,
            limbs_val(u) < pow_b(u.len()),
            pow_b(u.len()) == bk * bn1,
            two_s >= 1,
    ;
    assert(r0 < bn1 * two_s) by (nonlinear_arith)
        requires
            bk * r0 < bk * (bn1 * two_s),
            bk >= 1,
    ;
    crate::digit::lemma_pow2_add(s as nat, (31 - s) as nat);
    crate::digit::lemma_pow2_pos((31 - s) as nat);
    assert(pow2(32) == 2 * pow2(31));
    assert(two_s <= 0x8000_0000) by (nonlinear_arith)
        requires
            pow2(31) == two_s * pow2((31 - s) as nat),
            pow2((31 - s) as nat) >= 1,
            pow2(31) == 0x8000_0000,
            two_s >= 1,
    ;
    assert(bn1 * two_s <= bn1 * 0x8000_0000) by (nonlinear_arith)
        requires
            two_s <= 0x8000_0000,
            bn1 >= 1,
    ;
}

/// Long division of magnitudes by Knuth's Algorithm D. Both operands are
/// shifted so that the divisor's top limb has its highest bit set; each
/// quotient limb is estimated from the top of the window, the window is
/// reduced by that multiple of the divisor, and the estimate is corrected
/// by adding the divisor back while the difference is negative, and by
/// subtracting it again while it is not below the divisor. The remainder is
/// shifted back at the end.
#[verifier::rlimit(50)]
#[verifier::spinoff_prover]
pub fn divmod_limbs(u: &[BigDigit], v: &[BigDigit]) -> (r: (Vec<BigDigit>, Vec<BigDigit>))
    requires
        no_top_zero(v@),
        v@.len() >= 2,
        u@.len() >= v@.len(),
        u@.len() + 2 < usize::MAX,
        v@.len() + 2 < usize::MAX,
    ensures
        limbs_val(u@) == limbs_val(r.0@) * limbs_val(v@) + limbs_val(r.1@),
        0 <= limbs_val(r.1@) < limbs_val(v@),
{
    let n = v.len();
    let s = v[n - 1].leading_zeros();
    proof {
        lemma_top_bit(v@[n - 1], s);
    }
    let mut vn = crate::shift::shl_bits(v, s);
    trim_limbs(&mut vn);
    let un = crate::shift::shl_bits(u, s);
    let ghost dv = limbs_val(vn@);
    let ghost two_s = pow2(s as nat);
    let nn = vn.len();
    let len = un.len();
    let k0 = len - nn;
    proof {
        lemma_first_window(u@, v@, un@, vn@, s);
    }
    let mut q = zero_limbs(k0);
    let mut r = copy_limbs(&un.as_slice()[k0..len]);
    proof {
        assert(r@ =~= un@.skip(k0 as int));
        assert(q@.skip(k0 as int) =~= Seq::<u32>::empty());
        assert(0 * dv == 0);
    }
    let mut j: usize = k0;
    while j > 0
        invariant
            nn == vn@.len(),
            2 <= nn,
            nn < usize::MAX,
            no_top_zero(vn@),
            dv == limbs_val(vn@),
            dv > 0,
            len == un@.len(),
            q@.len() == k0,
            k0 <= len,
            r@.len() == nn,
            j <= k0,
            0 <= limbs_val(r@) < dv,
            limbs_val(un@.skip(j as int)) == limbs_val(q@.skip(j as int)) * dv + limbs_val(r@),
        decreases j,
    {
        let k = j - 1;
        let x = un[k];
        let mut win: Vec<BigDigit> = Vec::new();
        win.push(x);
        let ghost rv = limbs_val(r@);
        let mut rest = r;
        proof {
            lemma_val_push(seq![], x);
            assert(seq![].push(x) =~= seq![x]);
        }
        let ghost wlow = win@;
        let ghost whigh = rest@;
        win.append(&mut rest);
        let ghost w = limbs_val(win@);
        proof {
            lemma_val_concat(wlow, whigh);
            assert(wlow =~= seq![].push(x));
            assert(pow_b(0) == 1);
            assert(pow_b(1) == base() * pow_b(0));
            assert(w == x + base() * rv);
            assert(w < dv * base()) by (nonlinear_arith)
                requires
                    w == x + base() * rv,
                    x < base(),
                    rv + 1 <= dv,
            ;
        }
        let qe = estimate_qhat(win[nn], win[nn - 1], win[nn - 2], vn[nn - 1], vn[nn - 2]);
        let mut qhat: u32 = qe as u32;
        let mut scratch = copy_limbs(vn.as_slice());
        let ghost sbefore = scratch@;
        scratch.push(0);
        proof {
            lemma_val_push(sbefore, 0u32);
            lemma_val_bound(vn@);
            assert(dv * qhat < pow_b((nn + 1) as nat)) by (nonlinear_arith)
                requires
                    dv < pow_b(nn as nat),
                    qhat < base(),
                    pow_b((nn + 1) as nat) == base() * pow_b(nn as nat),
                    dv >= 0,
            ;
        }
        let mut borrow = ssub_with_mul(win.as_mut_slice(), scratch.as_mut_slice(), qhat);
        let ghost top = pow_b((nn + 1) as nat);
        while borrow
            invariant
                nn == vn@.len(),
                win@.len() == nn + 1,
                nn + 1 <= usize::MAX,
                dv == limbs_val(vn@),
                dv > 0,
                w >= 0,
                top == pow_b((nn + 1) as nat),
                borrow ==> limbs_val(win@) == w - qhat * dv + top && w < qhat * dv,
                !borrow ==> limbs_val(win@) == w - qhat * dv,
            decreases qhat,
        {
            proof {
                assert(qhat > 0) by (nonlinear_arith)
                    requires
                        w < qhat * dv,
                        w >= 0,
                        qhat >= 0,
                ;
            }
            qhat = qhat - 1;
            let ghost wb = limbs_val(win@);
            let c = crate::kernel::sadd(win.as_mut_slice(), vn.as_slice());
            proof {
                lemma_val_bound(win@);
                assert((qhat + 1) * dv == qhat * dv + dv) by (nonlinear_arith);
                if w >= qhat * dv {
                    assert(c != 0);
                }
                if c == 0 {
                    assert(w < qhat * dv);
                }
            }
            borrow = c == 0;
        }
        proof {
            lemma_val_bound(win@);
        }
        loop
            invariant
                nn == vn@.len(),
                win@.len() == nn + 1,
                dv == limbs_val(vn@),
                dv > 0,
                w < dv * base(),
                limbs_val(win@) == w - qhat * dv,
                limbs_val(win@) >= 0,
            ensures
                limbs_val(win@) == w - qhat * dv,
                0 <= limbs_val(win@) < dv,
            decreases limbs_val(win@),
        {
            let mut trial = copy_limbs(win.as_slice());
            let b = crate::kernel::ssub_borrow(trial.as_mut_slice(), vn.as_slice());
            if b {
                break;
            }
            proof {
                assert(qhat * dv + dv <= w);
                assert((qhat + 1) * dv == qhat * dv + dv) by (nonlinear_arith);
                assert(qhat + 1 < base()) by (nonlinear_arith)
                    requires
                        (qhat + 1) * dv <= w,
                        w < dv * base(),
                        dv > 0,
                ;
            }
            win = trial;
            qhat = qhat + 1;
        }
        let ghost rn = limbs_val(win@);
        proof {
            lemma_val_split(win@, nn as int);
            lemma_val_bound(win@.take(nn as int));
            lemma_val_bound(vn@);
            crate::digit::lemma_pow_b_pos(nn as nat);
            assert(win@.skip(nn as int) =~= seq![win@[nn as int]]);
            lemma_val_push(seq![], win@[nn as int]);
            assert(seq![].push(win@[nn as int]) =~= seq![win@[nn as int]]);
            if win@[nn as int] != 0 {
                assert(pow_b(nn as nat) * limbs_val(win@.skip(nn as int)) >= pow_b(nn as nat))
                    by (nonlinear_arith)
                    requires
                        limbs_val(win@.skip(nn as int)) >= 1,
                        pow_b(nn as nat) >= 1,
                ;
            }
            assert(win@[nn as int] == 0);
        }
        win.pop();
        proof {
            assert(win@ =~= win@.take(nn as int));
            assert(limbs_val(win@) == rn);
        }
        r = win;
        let ghost qbefore = q@;
        q.set(k, qhat);
        proof {
            lemma_val_cons(un@.skip(k as int));
            assert(un@.skip(k as int).skip(1) =~= un@.skip(j as int));
            lemma_val_cons(q@.skip(k as int));
            assert(q@.skip(k as int).skip(1) =~= qbefore.skip(j as int));
            assert(q@.skip(k as int)[0] == qhat);
            lemma_div_step(
                x as int,
                rv,
                limbs_val(qbefore.skip(j as int)),
                dv,
                w,
                qhat as int,
                rn,
            );
        }
        j = k;
    }
    proof {
        assert(un@.skip(0) =~= un@);
        assert(q@.skip(0) =~= q@);
    }
    let (rem, low) = div_rem_digit(r.as_slice(), crate::digit::pow2_digit(s));
    proof {
        let uu = limbs_val(u@);
        let vv = limbs_val(v@);
        let qq = limbs_val(q@);
        let rr = limbs_val(r@);
        let rm = limbs_val(rem@);
        lemma_val_bound(q@);
        lemma_val_bound(rem@);
        // un = uu * two_s, dv = vv * two_s, un = qq * dv + rr, rr = rm * two_s + low
        assert(rr == (uu - qq * vv) * two_s) by (nonlinear_arith)
            requires
                uu * two_s == qq * (vv * two_s) + rr,
        ;
        assert(low == 0 && rm == uu - qq * vv) by (nonlinear_arith)
            requires
                rr == (uu - qq * vv) * two_s,
                rr == rm * two_s + low,
                0 <= low < two_s,
                two_s >= 1,
        ;
        assert(rm < vv) by (nonlinear_arith)
            requires
                rr == rm * two_s,
                rr < vv * two_s,
                two_s >= 1,
        ;
    }
    (q, rem)
}

} // verus!

verus! {

/// Euclidean division from the division of magnitudes, for each sign of the
/// dividend: `q * y + r == x` with `0 <= r < |y|`.
proof fn lemma_euclid_signs(x: int, y: int, qm: int, rm: int, fy: int)
    requires
        y != 0,
        fy == 1 || fy == -1,
        y == fy * crate::kernel::abs(y),
        crate::kernel::abs(x) == qm * crate::kernel::abs(y) + rm,
        0 <= rm < crate::kernel::abs(y),
    ensures
        x >= 0 ==> (fy * qm) * y + rm == x,
        x < 0 && rm == 0 ==> (-fy * qm) * y == x,
        x < 0 && rm != 0 ==> (-fy * (qm + 1)) * y + (crate::kernel::abs(y) - rm) == x,
{
    let ay = crate::kernel::abs(y);
    assert(fy * fy == 1) by (nonlinear_arith)
        requires
            fy == 1 || fy == -1,
    ;
    assert((fy * qm) * y == qm * ay) by (nonlinear_arith)
        requires
            y == fy * ay,
            fy * fy == 1,
    ;
    assert((-fy * qm) * y == -(qm * ay)) by (nonlinear_arith)
        requires
            y == fy * ay,
            fy * fy == 1,
    ;
    assert((-fy * (qm + 1)) * y == -(qm * ay) - ay) by (nonlinear_arith)
        requires
            y == fy * ay,
            fy * fy == 1,
    ;
}

/// The quotient and remainder of two magnitudes: short division for a
/// one-limb divisor, the quick answers for a dividend not above the divisor,
/// Algorithm D otherwise.
pub fn divmod_mag(u: &[BigDigit], v: &[BigDigit]) -> (r: (Vec<BigDigit>, Vec<BigDigit>))
    requires
        no_top_zero(u@),
        no_top_zero(v@),
        v@.len() >= 1,
        u@.len() + 2 < usize::MAX,
        v@.len() + 2 < usize::MAX,
    ensures
        limbs_val(u@) == limbs_val(r.0@) * limbs_val(v@) + limbs_val(r.1@),
        0 <= limbs_val(r.1@) < limbs_val(v@),
{
    proof {
        lemma_val_bound(u@);
        crate::digit::lemma_val_top_nonzero(v@);
        lemma_pow_b_pos((v@.len() - 1) as nat);
    }
    if v.len() == 1 {
        let (q, r) = div_rem_digit(u, v[0]);
        let mut rv: Vec<BigDigit> = Vec::new();
        rv.push(r);
        proof {
            lemma_val_push(seq![], r);
            assert(rv@ =~= seq![].push(r));
            assert(v@ =~= seq![].push(v@[0]));
            lemma_val_push(seq![], v@[0]);
            assert(pow_b(0) == 1);
        }
        (q, rv)
    } else {
        match crate::bigint::cmp_limbs(u, v) {
            core::cmp::Ordering::Less => {
                proof {
                    assert(0 * limbs_val(v@) == 0);
                    assert(limbs_val(Seq::<u32>::empty()) == 0);
                }
                (zero_limbs(0), copy_limbs(u))
            },
            core::cmp::Ordering::Equal => {
                let one = BigInt::one();
                proof {
                    assert(1 * limbs_val(v@) == limbs_val(v@));
                }
                (one.digits, zero_limbs(0))
            },
            core::cmp::Ordering::Greater => {
                proof {
                    if u@.len() < v@.len() {
                        crate::digit::lemma_val_len_lt(u@, v@);
                    }
                }
                divmod_limbs(u, v)
            },
        }
    }
}

/// Divides `dividend` by `divisor`. The quotient and the remainder are
/// Euclidean: `q * divisor + r == dividend` and `0 <= r < |divisor|`. A
/// divisor of one limb is handled by short division; a dividend below the
/// divisor, or equal to it, returns at once; otherwise Algorithm D runs on
/// the magnitudes.
#[verifier::spinoff_prover]
pub fn divmod(dividend: BigInt, divisor: BigInt, return_remainder: bool) -> (r: (
    BigInt,
    Option<BigInt>,
))
    requires
        dividend.wf(),
        divisor.wf(),
        divisor.value() != 0,
        dividend.digits@.len() + 2 < usize::MAX,
        divisor.digits@.len() + 2 < usize::MAX,
    ensures
        r.0.wf(),
        return_remainder ==> r.1.is_some() && r.1.unwrap().wf() && r.0.value() * divisor.value()
            + r.1.unwrap().value() == dividend.value() && 0 <= r.1.unwrap().value()
            < crate::kernel::abs(divisor.value()),
        return_remainder ==> r.0.value() == dividend.value() / divisor.value(),
        !return_remainder ==> r.1.is_none(),
        !return_remainder ==> r.0.value() == dividend.value() / divisor.value(),
{
    proof {
        dividend.lemma_wf_sign();
        divisor.lemma_wf_sign();
    }
    let (qm, rm) = divmod_mag(dividend.digits.as_slice(), divisor.digits.as_slice());
    let ghost x = dividend.value();
    let ghost y = divisor.value();
    let ghost ay = divisor.magnitude();
    let ghost fy = divisor.sign.factor();
    proof {
        lemma_val_bound(qm@);
        lemma_val_bound(rm@);
        assert(crate::kernel::abs(x) == dividend.magnitude());
        assert(crate::kernel::abs(y) == ay);
        lemma_euclid_signs(x, y, limbs_val(qm@), limbs_val(rm@), fy);
    }
    let ghost qq = limbs_val(qm@);
    let ghost rr = limbs_val(rm@);
    let qtmp = BigInt { sign: Sign::Positive, digits: qm };
    let rtmp = BigInt { sign: Sign::Positive, digits: rm };
    proof {
        assert(qtmp.sign.factor() == 1 && rtmp.sign.factor() == 1);
        assert(qtmp.value() == qq && rtmp.value() == rr);
    }
    let qb = qtmp.trimmed();
    let rb = rtmp.trimmed();
    let neg_divisor = divisor.sign == Sign::Negative;
    proof {
        assert(qb.value() == qq && rb.value() == rr);
        rb.lemma_wf_sign();
    }
    let (q, r) = if dividend.sign != Sign::Negative {
        let q = if neg_divisor {
            qb.negated()
        } else {
            qb
        };
        proof {
            assert(q.value() == fy * qq);
            assert(q.value() * y + rb.value() == x && 0 <= rb.value() < ay);
        }
        (q, rb)
    } else if rb.sign == Sign::Zero {
        let q = if neg_divisor {
            qb
        } else {
            qb.negated()
        };
        proof {
            assert(q.value() == -fy * qq && rr == 0);
            assert(q.value() * y + rb.value() == x && 0 <= rb.value() < ay);
        }
        (q, rb)
    } else {
        let q1 = qb.plus_digit(1);
        let ymag = BigInt { sign: Sign::Positive, digits: divisor.digits };
        let q = if neg_divisor {
            q1
        } else {
            q1.negated()
        };
        let r = ymag.minus(rb);
        proof {
            assert(q.value() == -fy * (qq + 1) && r.value() == ay - rr && rr != 0);
            assert(q.value() * y + r.value() == x && 0 <= r.value() < ay);
        }
        (q, r)
    };
    proof {
        let qv = q.value();
        let rv = r.value();
        assert(qv * y + rv == x);
        assert(0 <= rv < crate::kernel::abs(y));
        vstd::arithmetic::mul::lemma_mul_is_commutative(qv, y);
        lemma_euclid_unique(x, y, qv, rv);
    }
    if return_remainder {
        (q, Some(r))
    } else {
        (q, None)
    }
}

/// The Euclidean quotient and remainder are the only pair that meets their
/// defining equation.
proof fn lemma_euclid_unique(x: int, y: int, q: int, r: int)
    requires
        y != 0,
        x == q * y + r,
        0 <= r < crate::kernel::abs(y),
    ensures
        q == x / y,
        r == x % y,
{
    if y > 0 {
        vstd::arithmetic::div_mod::lemma_fundamental_div_mod_converse(x, y, q, r);
    } else {
        vstd::arithmetic::div_mod::lemma_fundamental_div_mod(x, y);
        let q2 = x / y;
        let r2 = x % y;
        assert(0 <= r2 < -y);
        assert(q * y + r == q2 * y + r2);
        assert((q - q2) * y == r2 - r) by (nonlinear_arith)
            requires
                q * y + r == q2 * y + r2,
        ;
        if q != q2 {
            assert(crate::kernel::abs((q - q2) * y) >= -y) by (nonlinear_arith)
                requires
                    q != q2,
                    y < 0,
            ;
        }
    }
}

impl BigInt {
    /// The Euclidean quotient and remainder of `self` by `other`.
    pub fn div_mod(self, other: &BigInt) -> (r: (BigInt, BigInt))
        requires
            self.wf(),
            other.wf(),
            other.value() != 0,
            self.digits@.len() + 2 < usize::MAX,
            other.digits@.len() + 2 < usize::MAX,
        ensures
            r.0.wf(),
            r.1.wf(),
            r.0.value() == self.value() / other.value(),
            r.1.value() == self.value() % other.value(),
            r.0.value() * other.value() + r.1.value() == self.value(),
            0 <= r.1.value() < crate::kernel::abs(other.value()),
    {
        let (q, r) = divmod(self, other.duplicate(), true);
        let r = r.unwrap();
        proof {
            lemma_euclid_unique(self.value(), other.value(), q.value(), r.value());
        }
        (q, r)
    }

    /// The quotient of the magnitude by a limb, with the sign of `self`.
    pub fn div_digit(&self, rhs: BigDigit) -> (r: BigInt)
        requires
            self.wf(),
            rhs != 0,
        ensures
            r.wf(),
            r.value() == self.sign.factor() * (self.magnitude() / rhs as int),
    {
        short_divmod(self, rhs, false).0
    }

    /// The remainder of the magnitude by a limb.
    pub fn rem_digit(&self, rhs: BigDigit) -> (r: BigDigit)
        requires
            self.wf(),
            rhs != 0,
        ensures
            r as int == self.magnitude() % rhs as int,
    {
        short_divmod(self, rhs, true).1.unwrap()
    }
}

} // verus!
