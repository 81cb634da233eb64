//! Limbs: the 32-bit unit of storage, the 64-bit double limb, and the
//! mathematical value of a little-endian limb sequence.

use vstd::prelude::*;

verus! {

/// One limb of a magnitude.
pub type BigDigit = u32;

/// Twice the width of a limb: holds the product of two limbs.
pub type DoubleBigDigit = u64;

/// The largest limb.
pub const DIGIT_MAX: u32 = 0xffff_ffff;

/// The width of a limb in bits.
pub const DIGIT_SIZE: usize = 32;

/// Base-2 digits read into one limb at a time: the most that always fit in
/// a limb.
pub const BASE_2_PARSE_CHUNK_SIZE: usize = 32;

/// Base-8 digits read into one limb at a time.
pub const BASE_8_PARSE_CHUNK_SIZE: usize = 10;

/// Base-10 digits read into one limb at a time.
pub const BASE_10_PARSE_CHUNK_SIZE: usize = 9;

/// Base-16 digits read into one limb at a time.
pub const BASE_16_PARSE_CHUNK_SIZE: usize = 8;

/// The power of ten by which decimal output is produced, chunk by chunk.
pub const BASE_10_FORMAT_CHUNK_SIZE: u32 = 1_000_000_000;

/// The number of decimal digits in one output chunk.
pub const BASE_10_FORMAT_PAD_SIZE: usize = 9;

/// The radix of a limb, `2^32`.
pub open spec fn base() -> int {
    0x1_0000_0000
}

/// `base()` raised to the power `n`.
pub open spec fn pow_b(n: nat) -> int
    decreases n,
{
    if n == 0 {
        1
    } else {
        base() * pow_b((n - 1) as nat)
    }
}

/// The value of a little-endian sequence of limbs: `sum s[i] * 2^(32 i)`.
pub open spec fn limbs_val(s: Seq<u32>) -> int
    decreases s.len(),
{
    if s.len() == 0 {
        0
    } else {
        limbs_val(s.drop_last()) + s.last() * pow_b((s.len() - 1) as nat)
    }
}

/// The value of two limbs read as `[lo, hi]`.
pub open spec fn lo_hi_val(lo: u32, hi: u32) -> int {
    lo + hi * base()
}

pub proof fn lemma_pow_b_pos(n: nat)
    ensures
        pow_b(n) >= 1,
    decreases n,
{
    if n > 0 {
        lemma_pow_b_pos((n - 1) as nat);
        assert(base() * pow_b((n - 1) as nat) >= 1) by (nonlinear_arith)
            requires
                pow_b((n - 1) as nat) >= 1,
        ;
    }
}

pub proof fn lemma_pow_b_add(a: nat, b: nat)
    ensures
        pow_b(a + b) == pow_b(a) * pow_b(b),
    decreases b,
{
    if b > 0 {
        lemma_pow_b_add(a, (b - 1) as nat);
        assert(pow_b(a + b) == base() * pow_b((a + b - 1) as nat));
        assert(base() * (pow_b(a) * pow_b((b - 1) as nat)) == pow_b(a) * (base() * pow_b(
            (b - 1) as nat,
        ))) by (nonlinear_arith);
    }
}

pub proof fn lemma_pow_b_mono(a: nat, b: nat)
    requires
        a <= b,
    ensures
        pow_b(a) <= pow_b(b),
{
    lemma_pow_b_add(a, (b - a) as nat);
    lemma_pow_b_pos((b - a) as nat);
    lemma_pow_b_pos(a);
    assert(pow_b(a) * pow_b((b - a) as nat) >= pow_b(a)) by (nonlinear_arith)
        requires
            pow_b((b - a) as nat) >= 1,
            pow_b(a) >= 1,
    ;
}

/// Appending a limb adds it at the next power of the radix.
pub proof fn lemma_val_push(s: Seq<u32>, x: u32)
    ensures
        limbs_val(s.push(x)) == limbs_val(s) + x * pow_b(s.len()),
{
    assert(s.push(x).drop_last() =~= s);
}

/// The value of a concatenation.
pub proof fn lemma_val_concat(a: Seq<u32>, b: Seq<u32>)
    ensures
        limbs_val(a + b) == limbs_val(a) + pow_b(a.len()) * limbs_val(b),
    decreases b.len(),
{
    if b.len() == 0 {
        assert(a + b =~= a);
    } else {
        let b0 = b.drop_last();
        lemma_val_concat(a, b0);
        assert((a + b).drop_last() =~= a + b0);
        lemma_pow_b_add(a.len(), (b.len() - 1) as nat);
        let p = pow_b(a.len());
        let q = pow_b((b.len() - 1) as nat);
        assert(p * (limbs_val(b0) + b.last() * q) == p * limbs_val(b0) + b.last() * (p * q))
            by (nonlinear_arith);
    }
}

/// Every limb sequence is below the radix to the power of its length.
pub proof fn lemma_val_bound(s: Seq<u32>)
    ensures
        0 <= limbs_val(s) < pow_b(s.len()),
    decreases s.len(),
{
    if s.len() > 0 {
        let n = (s.len() - 1) as nat;
        lemma_val_bound(s.drop_last());
        lemma_pow_b_pos(n);
        let p = pow_b(n);
        let v = limbs_val(s.drop_last());
        let x = s.last();
        assert(v + x * p < base() * p && 0 <= v + x * p) by (nonlinear_arith)
            requires
                0 <= v < p,
                0 <= x < base(),
        ;
    }
}

/// A sequence whose last limb is non-zero is at least the radix to its length less one.
pub proof fn lemma_val_top_nonzero(s: Seq<u32>)
    requires
        s.len() > 0,
        s.last() != 0,
    ensures
        limbs_val(s) >= pow_b((s.len() - 1) as nat),
{
    lemma_val_bound(s.drop_last());
    let p = pow_b((s.len() - 1) as nat);
    let x = s.last();
    assert(x * p >= p) by (nonlinear_arith)
        requires
            x >= 1,
            p >= 0,
    ;
}

/// A sequence of zero limbs has value zero, and only such a sequence.
pub proof fn lemma_val_zero(s: Seq<u32>)
    ensures
        (limbs_val(s) == 0) <==> (forall|i: int| 0 <= i < s.len() ==> s[i] == 0),
    decreases s.len(),
{
    if s.len() > 0 {
        let n = (s.len() - 1) as nat;
        let d = s.drop_last();
        lemma_val_zero(d);
        lemma_val_bound(d);
        lemma_pow_b_pos(n);
        let p = pow_b(n);
        let x = s.last();
        assert(limbs_val(s) == limbs_val(d) + x * p);
        if forall|i: int| 0 <= i < s.len() ==> s[i] == 0 {
            assert forall|i: int| 0 <= i < d.len() implies d[i] == 0 by {
                assert(s[i] == 0);
            }
            assert(x == 0);
            assert(x * p == 0) by (nonlinear_arith)
                requires
                    x == 0,
            ;
        }
        if limbs_val(s) == 0 {
            assert(x * p >= 0) by (nonlinear_arith)
                requires
                    x >= 0,
                    p >= 0,
            ;
            if x != 0 {
                assert(x * p >= p) by (nonlinear_arith)
                    requires
                        x >= 1,
                        p >= 0,
                ;
            }
            assert(x == 0);
            assert forall|i: int| 0 <= i < s.len() implies s[i] == 0 by {
                if i < n {
                    assert(d[i] == s[i]);
                }
            }
        }
    }
}

/// Writing one limb changes the value by the difference at that position.
pub proof fn lemma_val_update(s: Seq<u32>, i: int, x: u32)
    requires
        0 <= i < s.len(),
    ensures
        limbs_val(s.update(i, x)) == limbs_val(s) + (x - s[i]) * pow_b(i as nat),
{
    let a = s.subrange(0, i);
    let c = s.subrange(i + 1, s.len() as int);
    let t = s.update(i, x);
    assert(s =~= a.push(s[i]) + c);
    assert(t =~= a.push(x) + c);
    lemma_val_concat(a.push(s[i]), c);
    lemma_val_concat(a.push(x), c);
    lemma_val_push(a, s[i]);
    lemma_val_push(a, x);
    lemma_pow_b_add(i as nat, 1);
    let p = pow_b(i as nat);
    assert(x * p - s[i] * p == (x - s[i]) * p) by (nonlinear_arith);
}

/// Splits a double limb into `[lo, hi]`.
pub fn to_lo_hi(d: DoubleBigDigit) -> (r: [BigDigit; 2])
    ensures
        r[0] as int == d as int % base(),
        r[1] as int == d as int / base(),
        lo_hi_val(r[0], r[1]) == d,
{
    let lo = #[verifier::truncate] (d as u32);
    let hi = (d >> 32u64) as u32;
    assert((#[verifier::truncate] (d as u32)) as u64 == d % 0x1_0000_0000u64) by (bit_vector);
    assert(d >> 32u64 == d / 0x1_0000_0000u64) by (bit_vector);
    [lo, hi]
}

/// Joins `[lo, hi]` into a double limb.
pub fn from_lo_hi(lh: [BigDigit; 2]) -> (r: DoubleBigDigit)
    ensures
        r as int == lo_hi_val(lh[0], lh[1]),
{
    let lo = lh[0];
    let hi = lh[1];
    assert((hi as u64) * 0x1_0000_0000u64 <= 0xffff_ffff_0000_0000u64) by (nonlinear_arith)
        requires
            hi <= 0xffff_ffffu32,
    ;
    (lo as u64) + (hi as u64) * 0x1_0000_0000u64
}

/// The number of digits of `radix` read into one limb at a time, for the
/// radices that a number may be written in.
pub fn chunk_size_from_radix(radix: u32) -> (r: Option<usize>)
    ensures
        r == chunk_size_spec(radix),
{
    match radix {
        2 => Some(BASE_2_PARSE_CHUNK_SIZE),
        8 => Some(BASE_8_PARSE_CHUNK_SIZE),
        10 => Some(BASE_10_PARSE_CHUNK_SIZE),
        16 => Some(BASE_16_PARSE_CHUNK_SIZE),
        _ => None,
    }
}

/// The chunk width for each supported radix; `None` for any other.
pub open spec fn chunk_size_spec(radix: u32) -> Option<usize> {
    if radix == 2 {
        Some(32usize)
    } else if radix == 8 {
        Some(10usize)
    } else if radix == 10 {
        Some(9usize)
    } else if radix == 16 {
        Some(8usize)
    } else {
        None
    }
}

} // verus!

verus! {

/// The value of a sequence split at `k`: the low part plus the high part
/// shifted by `k` limbs.
pub proof fn lemma_val_split(s: Seq<u32>, k: int)
    requires
        0 <= k <= s.len(),
    ensures
        limbs_val(s) == limbs_val(s.take(k)) + pow_b(k as nat) * limbs_val(s.skip(k)),
{
    assert(s =~= s.take(k) + s.skip(k));
    lemma_val_concat(s.take(k), s.skip(k));
}

/// The value of a non-empty sequence from its lowest limb.
pub proof fn lemma_val_cons(s: Seq<u32>)
    requires
        s.len() > 0,
    ensures
        limbs_val(s) == s[0] + base() * limbs_val(s.skip(1)),
{
    lemma_val_split(s, 1);
    assert(s.take(1) =~= seq![].push(s[0]));
    lemma_val_push(seq![], s[0]);
    assert(pow_b(1) == base() * pow_b(0));
}

/// Two sequences of one length that agree above `k` are ordered by their limb at `k`.
pub proof fn lemma_val_cmp_at(a: Seq<u32>, b: Seq<u32>, k: int)
    requires
        a.len() == b.len(),
        0 <= k < a.len(),
        a.skip(k + 1) == b.skip(k + 1),
        a[k] < b[k],
    ensures
        limbs_val(a) < limbs_val(b),
{
    lemma_val_split(a, k);
    lemma_val_split(b, k);
    lemma_val_cons(a.skip(k));
    lemma_val_cons(b.skip(k));
    assert(a.skip(k).skip(1) =~= a.skip(k + 1));
    assert(b.skip(k).skip(1) =~= b.skip(k + 1));
    lemma_val_bound(a.take(k));
    lemma_val_bound(b.take(k));
    let p = pow_b(k as nat);
    let r = limbs_val(a.skip(k + 1));
    let la = limbs_val(a.take(k));
    let lb = limbs_val(b.take(k));
    let x = a[k] as int;
    let y = b[k] as int;
    assert(la + p * (x + base() * r) < lb + p * (y + base() * r)) by (nonlinear_arith)
        requires
            0 <= la < p,
            0 <= lb,
            x + 1 <= y,
    ;
}

/// A sequence with no trailing zero is longer exactly when its value is larger
/// than every value of the shorter length.
pub proof fn lemma_val_len_lt(a: Seq<u32>, b: Seq<u32>)
    requires
        a.len() < b.len(),
        b.last() != 0,
    ensures
        limbs_val(a) < limbs_val(b),
{
    lemma_val_bound(a);
    lemma_val_top_nonzero(b);
    lemma_pow_b_mono(a.len(), (b.len() - 1) as nat);
}

} // verus!

verus! {

/// One step of a carry chain: the limb at position `p` changes from `x` to
/// `lo`, where `lo + hi * base() == x + t`.
pub proof fn lemma_limb_step(v_new: int, v_old: int, p: int, x: int, lo: int, hi: int, t: int)
    requires
        v_new == v_old + (lo - x) * p,
        lo + hi * base() == x + t,
    ensures
        v_new + hi * (base() * p) == v_old + t * p,
{
    assert(v_new + hi * (base() * p) == v_old + t * p) by (nonlinear_arith)
        requires
            v_new == v_old + (lo - x) * p,
            lo + hi * base() == x + t,
    ;
}

/// The power of the radix one position up.
pub proof fn lemma_pow_b_succ(n: nat)
    ensures
        pow_b(n + 1) == base() * pow_b(n),
{
}

/// A prefix one limb longer.
pub proof fn lemma_val_take_succ(s: Seq<u32>, i: int)
    requires
        0 <= i < s.len(),
    ensures
        limbs_val(s.take(i + 1)) == limbs_val(s.take(i)) + s[i] * pow_b(i as nat),
{
    assert(s.take(i + 1) =~= s.take(i).push(s[i]));
    lemma_val_push(s.take(i), s[i]);
}

/// A value `v` with `0 <= v < m` that differs from `x` by a multiple of `m` is `x % m`.
pub proof fn lemma_val_mod(v: int, k: int, m: int, x: int)
    requires
        0 <= v < m,
        v + k * m == x,
    ensures
        v == x % m,
{
    vstd::arithmetic::div_mod::lemma_fundamental_div_mod_converse(x, m, k, v);
}

/// The high limb of a value below twice the radix is 0 or 1.
pub proof fn lemma_hi_le_one(lo: int, hi: int)
    requires
        0 <= lo,
        0 <= hi,
        lo + hi * base() < 2 * base(),
    ensures
        hi <= 1,
{
    assert(hi <= 1) by (nonlinear_arith)
        requires
            0 <= lo,
            0 <= hi,
            lo + hi * base() < 2 * base(),
            base() > 0,
    ;
}

/// A product of two limb sequences fits in their combined length.
pub proof fn lemma_prod_bound(a: Seq<u32>, b: Seq<u32>)
    ensures
        0 <= limbs_val(a) * limbs_val(b) < pow_b(a.len() + b.len()),
{
    lemma_val_bound(a);
    lemma_val_bound(b);
    lemma_pow_b_add(a.len(), b.len());
    let x = limbs_val(a);
    let y = limbs_val(b);
    let p = pow_b(a.len());
    let q = pow_b(b.len());
    assert(0 <= x * y < p * q) by (nonlinear_arith)
        requires
            0 <= x < p,
            0 <= y < q,
    ;
}

/// A sequence whose value reaches the radix to its length less one has a
/// non-zero last limb.
pub proof fn lemma_val_top_from_bound(s: Seq<u32>)
    requires
        s.len() > 0,
        limbs_val(s) >= pow_b((s.len() - 1) as nat),
    ensures
        s.last() != 0,
{
    lemma_val_bound(s.drop_last());
    if s.last() == 0 {
        assert(limbs_val(s) == limbs_val(s.drop_last()));
    }
}

/// Two to the power `n`.
pub open spec fn pow2(n: nat) -> int
    decreases n,
{
    if n == 0 {
        1
    } else {
        2 * pow2((n - 1) as nat)
    }
}

pub proof fn lemma_pow2_pos(n: nat)
    ensures
        pow2(n) >= 1,
    decreases n,
{
    if n > 0 {
        lemma_pow2_pos((n - 1) as nat);
    }
}

pub proof fn lemma_pow2_add(a: nat, b: nat)
    ensures
        pow2(a + b) == pow2(a) * pow2(b),
    decreases b,
{
    if b > 0 {
        lemma_pow2_add(a, (b - 1) as nat);
        assert(pow2(a + b) == 2 * pow2((a + b - 1) as nat));
        assert(2 * (pow2(a) * pow2((b - 1) as nat)) == pow2(a) * (2 * pow2((b - 1) as nat)))
            by (nonlinear_arith);
    }
}

/// The radix is two to the width of a limb.
pub proof fn lemma_pow2_limb()
    ensures
        pow2(32) == base(),
{
    reveal_with_fuel(pow2, 33);
}

/// A power of the radix is a power of two.
pub proof fn lemma_pow_b_pow2(n: nat)
    ensures
        pow_b(n) == pow2(32 * n),
    decreases n,
{
    if n > 0 {
        lemma_pow_b_pow2((n - 1) as nat);
        lemma_pow2_add(32, (32 * (n - 1)) as nat);
        lemma_pow2_limb();
        assert(32 + 32 * (n - 1) == 32 * n);
    }
}

/// Two to the power `s`, for `s` below the width of a limb.
pub fn pow2_digit(s: u32) -> (r: BigDigit)
    requires
        s < 32,
    ensures
        r as int == pow2(s as nat),
{
    let mut r: u32 = 1;
    let mut i: u32 = 0;
    while i < s
        invariant
            i <= s < 32,
            r as int == pow2(i as nat),
        decreases s - i,
    {
        proof {
            lemma_pow2_add(i as nat, (s - i) as nat);
            lemma_pow2_pos((s - i) as nat);
            lemma_pow2_pos((32 - s) as nat);
            lemma_pow2_add(s as nat, (32 - s) as nat);
            lemma_pow2_limb();
            assert(pow2((i + 1) as nat) == 2 * pow2(i as nat));
            lemma_pow2_add((i + 1) as nat, (s - i - 1) as nat);
            lemma_pow2_pos((s - i - 1) as nat);
            assert(pow2((i + 1) as nat) <= pow2(s as nat)) by (nonlinear_arith)
                requires
                    pow2(s as nat) == pow2((i + 1) as nat) * pow2((s - i - 1) as nat),
                    pow2((s - i - 1) as nat) >= 1,
                    pow2((i + 1) as nat) >= 0,
            ;
            assert(pow2(s as nat) < base()) by (nonlinear_arith)
                requires
                    base() == pow2(s as nat) * pow2((32 - s) as nat),
                    pow2((32 - s) as nat) >= 2,
                    pow2(s as nat) >= 1,
            ;
        }
        r = r * 2;
        i = i + 1;
    }
    r
}

/// Limb sequences of one length with one value are the same sequence.
pub proof fn lemma_val_inj(s: Seq<u32>, t: Seq<u32>)
    requires
        s.len() == t.len(),
        limbs_val(s) == limbs_val(t),
    ensures
        s == t,
    decreases s.len(),
{
    if s.len() > 0 {
        lemma_val_cons(s);
        lemma_val_cons(t);
        lemma_val_bound(s.skip(1));
        lemma_val_bound(t.skip(1));
        let a = limbs_val(s.skip(1));
        let b = limbs_val(t.skip(1));
        vstd::arithmetic::div_mod::lemma_fundamental_div_mod_converse(limbs_val(s), base(), a, s[0] as int);
        vstd::arithmetic::div_mod::lemma_fundamental_div_mod_converse(limbs_val(t), base(), b, t[0] as int);
        vstd::arithmetic::mul::lemma_mul_is_commutative(a, base());
        vstd::arithmetic::mul::lemma_mul_is_commutative(b, base());
        lemma_val_inj(s.skip(1), t.skip(1));
        assert(s =~= seq![s[0]] + s.skip(1));
        assert(t =~= seq![t[0]] + t.skip(1));
    }
}

} // verus!
