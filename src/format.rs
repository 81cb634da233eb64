//! Formatting: decimal by repeated short division by a power of ten, and
//! binary limb by limb. Every chunk below the top one is zero-padded.

use vstd::prelude::*;
use vstd::string::StringExecFns;
use crate::bigint::BigInt;
use crate::digit::{
    BigDigit, BASE_10_FORMAT_CHUNK_SIZE, BASE_10_FORMAT_PAD_SIZE, DIGIT_SIZE, base, limbs_val,
    pow_b, lemma_val_cons,
};
use crate::div::short_divmod;
use crate::parse::rpow;
use crate::sign::Sign;

verus! {

/// The character of a digit below ten.
pub open spec fn digit_char(d: nat) -> char {
    if d == 0 {
        '0'
    } else if d == 1 {
        '1'
    } else if d == 2 {
        '2'
    } else if d == 3 {
        '3'
    } else if d == 4 {
        '4'
    } else if d == 5 {
        '5'
    } else if d == 6 {
        '6'
    } else if d == 7 {
        '7'
    } else if d == 8 {
        '8'
    } else {
        '9'
    }
}

/// The digits of `v` in base `b`, most significant first, with no leading
/// zero (zero itself is `"0"`).
pub open spec fn radix_digits(v: nat, b: nat) -> Seq<char>
    decreases v,
    via radix_digits_decreases
{
    if b < 2 || v < b {
        seq![digit_char(v)]
    } else {
        radix_digits(v / b, b).push(digit_char(v % b))
    }
}

#[via_fn]
proof fn radix_digits_decreases(v: nat, b: nat) {
    if !(b < 2 || v < b) {
        vstd::arithmetic::div_mod::lemma_div_decreases(v as int, b as int);
    }
}

/// The lowest `k` digits of `r` in base `b`, zero-padded to exactly `k`.
pub open spec fn padded(r: nat, k: nat, b: nat) -> Seq<char>
    decreases k,
{
    if k == 0 || b == 0 {
        seq![]
    } else {
        padded(r / b, (k - 1) as nat, b).push(digit_char(r % b))
    }
}

/// Chunks written high to low, each zero-padded to `k` digits; `c[0]` is
/// the lowest chunk.
pub open spec fn pads(c: Seq<u32>, k: nat, b: nat) -> Seq<char>
    decreases c.len(),
{
    if c.len() == 0 {
        seq![]
    } else {
        pads(c.skip(1), k, b) + padded(c[0] as nat, k, b)
    }
}

/// The value of chunks of radix `m`, lowest first.
pub open spec fn chunk_val(c: Seq<u32>, m: int) -> int
    decreases c.len(),
{
    if c.len() == 0 {
        0
    } else {
        c[0] + m * chunk_val(c.skip(1), m)
    }
}

/// How an integer is written in base `b`: `"0"` for zero; otherwise a
/// `-` for a negative value or a `+` when asked for, then `prefix`, then
/// the digits of the magnitude.
pub open spec fn written(x: int, b: nat, plus: bool, prefix: Seq<char>) -> Seq<char> {
    if x == 0 {
        seq!['0']
    } else {
        let sign = if x < 0 {
            seq!['-']
        } else if plus {
            seq!['+']
        } else {
            seq![]
        };
        sign + prefix + radix_digits(crate::kernel::abs(x) as nat, b)
    }
}

proof fn lemma_radix_split(q: nat, r: nat, k: nat, b: nat)
    requires
        b >= 2,
        q >= 1,
        r < rpow(b, k),
    ensures
        radix_digits((q * rpow(b, k) + r) as nat, b) == radix_digits(q, b) + padded(r, k, b),
    decreases k,
{
    if k == 0 {
        assert(q * 1 + r == q);
        assert(radix_digits(q, b) + seq![] =~= radix_digits(q, b));
    } else {
        let ri = r as int;
        let bi = b as int;
        let hi = ri / bi;
        let lo = ri % bi;
        let p = rpow(b, (k - 1) as nat);
        let v = q * rpow(b, k) + r;
        let v2 = q * p + hi;
        vstd::arithmetic::div_mod::lemma_fundamental_div_mod(ri, bi);
        vstd::arithmetic::div_mod::lemma_div_pos_is_pos(ri, bi);
        vstd::arithmetic::div_mod::lemma_mod_bound(ri, bi);
        assert(v == v2 * bi + lo) by (nonlinear_arith)
            requires
                rpow(b, k) == bi * p,
                ri == bi * hi + lo,
                v2 == q * p + hi,
                v == q * rpow(b, k) + ri,
        ;
        assert(hi < p) by (nonlinear_arith)
            requires
                ri < bi * p,
                ri == bi * hi + lo,
                lo >= 0,
                bi >= 2,
        ;
        lemma_radix_split(q, hi as nat, (k - 1) as nat, b);
        vstd::arithmetic::div_mod::lemma_fundamental_div_mod_converse(v, bi, v2, lo);
        crate::parse::lemma_rpow_mono(b, 0, (k - 1) as nat);
        assert(v2 >= 1) by (nonlinear_arith)
            requires
                q >= 1,
                p >= 1,
                hi >= 0,
                v2 == q * p + hi,
        ;
        assert(v >= bi) by (nonlinear_arith)
            requires
                v == v2 * bi + lo,
                v2 >= 1,
                lo >= 0,
                bi >= 2,
        ;
        assert(radix_digits(v as nat, b) == radix_digits(v2 as nat, b).push(digit_char(lo as nat)));
        assert(padded(r, k, b) == padded(hi as nat, (k - 1) as nat, b).push(digit_char(lo as nat)));
        assert(radix_digits(q, b) + padded(r, k, b) =~= (radix_digits(q, b) + padded(
            hi as nat,
            (k - 1) as nat,
            b,
        )).push(digit_char(lo as nat)));
    }
}

/// A top chunk followed by lower chunks, each of `k` digits, writes the
/// whole value.
proof fn lemma_chunks_written(top: nat, c: Seq<u32>, k: nat, b: nat)
    requires
        b >= 2,
        top >= 1,
        forall|i: int| 0 <= i < c.len() ==> (c[i] as int) < rpow(b, k),
    ensures
        radix_digits((top * pow_m(rpow(b, k), c.len()) + chunk_val(c, rpow(b, k))) as nat, b)
            == radix_digits(top, b) + pads(c, k, b),
    decreases c.len(),
{
    let m = rpow(b, k);
    if c.len() == 0 {
        assert(radix_digits(top, b) + seq![] =~= radix_digits(top, b));
        assert(top * 1 + 0 == top);
    } else {
        let c1 = c.skip(1);
        assert forall|i: int| 0 <= i < c1.len() implies (c1[i] as int) < rpow(b, k) by {
            assert(c1[i] == c[i + 1]);
        }
        lemma_chunks_written(top, c1, k, b);
        let pm = pow_m(m, c1.len());
        let qv = top * pm + chunk_val(c1, m);
        lemma_pow_m_pos(m, c1.len(), b, k);
        crate::parse::lemma_rpow_mono(b, 0, k);
        lemma_chunk_val_nonneg(c1, m);
        assert(qv >= 1) by (nonlinear_arith)
            requires
                qv == top * pm + chunk_val(c1, m),
                top >= 1,
                pm >= 1,
                chunk_val(c1, m) >= 0,
        ;
        lemma_radix_split(qv as nat, c[0] as nat, k, b);
        assert(top * pow_m(m, c.len()) + chunk_val(c, m) == qv * m + c[0]) by (nonlinear_arith)
            requires
                pow_m(m, c.len()) == m * pm,
                chunk_val(c, m) == c[0] + m * chunk_val(c1, m),
                qv == top * pm + chunk_val(c1, m),
        ;
        assert(radix_digits(top, b) + pads(c, k, b) =~= radix_digits(top, b) + pads(c1, k, b)
            + padded(c[0] as nat, k, b));
    }
}

/// `m` to the power `n`.
pub open spec fn pow_m(m: int, n: nat) -> int
    decreases n,
{
    if n == 0 {
        1
    } else {
        m * pow_m(m, (n - 1) as nat)
    }
}

proof fn lemma_pow_m_pos(m: int, n: nat, b: nat, k: nat)
    requires
        m == rpow(b, k),
        b >= 2,
    ensures
        pow_m(m, n) >= 1,
    decreases n,
{
    crate::parse::lemma_rpow_mono(b, 0, k);
    if n > 0 {
        lemma_pow_m_pos(m, (n - 1) as nat, b, k);
        assert(m * pow_m(m, (n - 1) as nat) >= 1) by (nonlinear_arith)
            requires
                m >= 1,
                pow_m(m, (n - 1) as nat) >= 1,
        ;
    }
}

proof fn lemma_chunk_val_nonneg(c: Seq<u32>, m: int)
    requires
        m >= 0,
    ensures
        chunk_val(c, m) >= 0,
    decreases c.len(),
{
    if c.len() > 0 {
        lemma_chunk_val_nonneg(c.skip(1), m);
        assert(m * chunk_val(c.skip(1), m) >= 0) by (nonlinear_arith)
            requires
                m >= 0,
                chunk_val(c.skip(1), m) >= 0,
        ;
    }
}

/// Appending a chunk at the top adds it at the next power of the radix.
proof fn lemma_chunk_val_push(c: Seq<u32>, x: u32, m: int)
    ensures
        chunk_val(c.push(x), m) == chunk_val(c, m) + x * pow_m(m, c.len()),
    decreases c.len(),
{
    if c.len() == 0 {
        assert(c.push(x).skip(1) =~= Seq::<u32>::empty());
        assert(c.push(x)[0] == x);
        assert(chunk_val(Seq::<u32>::empty(), m) == 0);
        assert(m * 0 == 0);
        assert(x * 1 == x);
        assert(chunk_val(c.push(x), m) == x + m * chunk_val(c.push(x).skip(1), m));
    } else {
        assert(c.push(x).skip(1) =~= c.skip(1).push(x));
        assert(c.push(x)[0] == c[0]);
        lemma_chunk_val_push(c.skip(1), x, m);
        let t = chunk_val(c.skip(1), m);
        let p = pow_m(m, (c.len() - 1) as nat);
        assert(m * (t + x * p) == m * t + x * (m * p)) by (nonlinear_arith);
        assert(chunk_val(c.push(x), m) == c[0] + m * chunk_val(c.push(x).skip(1), m));
    }
}

/// Limbs are chunks of the limb radix.
proof fn lemma_chunk_val_limbs(c: Seq<u32>)
    ensures
        chunk_val(c, base()) == limbs_val(c),
    decreases c.len(),
{
    if c.len() > 0 {
        lemma_chunk_val_limbs(c.skip(1));
        lemma_val_cons(c);
    }
}

proof fn lemma_pow_m_limbs(n: nat)
    ensures
        pow_m(base(), n) == pow_b(n),
    decreases n,
{
    if n > 0 {
        lemma_pow_m_limbs((n - 1) as nat);
    }
}

/// The string of one digit.
fn digit_str(d: u32) -> (r: &'static str)
    requires
        d < 10,
    ensures
        r@ == seq![digit_char(d as nat)],
{
    if d == 0 {
        proof {
            reveal_strlit("0");
        }
        "0"
    } else if d == 1 {
        proof {
            reveal_strlit("1");
        }
        "1"
    } else if d == 2 {
        proof {
            reveal_strlit("2");
        }
        "2"
    } else if d == 3 {
        proof {
            reveal_strlit("3");
        }
        "3"
    } else if d == 4 {
        proof {
            reveal_strlit("4");
        }
        "4"
    } else if d == 5 {
        proof {
            reveal_strlit("5");
        }
        "5"
    } else if d == 6 {
        proof {
            reveal_strlit("6");
        }
        "6"
    } else if d == 7 {
        proof {
            reveal_strlit("7");
        }
        "7"
    } else if d == 8 {
        proof {
            reveal_strlit("8");
        }
        "8"
    } else {
        proof {
            reveal_strlit("9");
        }
        "9"
    }
}

/// Appends the digits of `v` in base `b`, without padding.
fn push_radix(out: &mut String, v: u32, b: u32)
    requires
        2 <= b <= 10,
    ensures
        final(out)@ == old(out)@ + radix_digits(v as nat, b as nat),
    decreases v,
{
    if v < b {
        out.append(digit_str(v));
    } else {
        proof {
            vstd::arithmetic::div_mod::lemma_div_decreases(v as int, b as int);
        }
        push_radix(out, v / b, b);
        out.append(digit_str(v % b));
    }
}

/// Appends the lowest `k` digits of `r` in base `b`, zero-padded.
fn push_padded(out: &mut String, r: u32, k: usize, b: u32)
    requires
        2 <= b <= 10,
    ensures
        final(out)@ == old(out)@ + padded(r as nat, k as nat, b as nat),
    decreases k,
{
    if k == 0 {
        proof {
            assert(old(out)@ + seq![] =~= old(out)@);
        }
    } else {
        push_padded(out, r / b, k - 1, b);
        out.append(digit_str(r % b));
    }
}

/// Appends the sign, or nothing.
fn push_sign(out: &mut String, sign: Sign, sign_plus: bool)
    ensures
        final(out)@ == old(out)@ + if sign == Sign::Negative {
            seq!['-']
        } else if sign_plus {
            seq!['+']
        } else {
            seq![]
        },
{
    if sign == Sign::Negative {
        proof {
            reveal_strlit("-");
        }
        out.append("-");
    } else if sign_plus {
        proof {
            reveal_strlit("+");
        }
        out.append("+");
    } else {
        proof {
            assert(old(out)@ + seq![] =~= old(out)@);
        }
    }
}

impl BigInt {
    /// The value in decimal, with `+` in front of a positive value when
    /// `sign_plus` is set.
    pub fn fmt_decimal(&self, sign_plus: bool) -> (r: String)
        requires
            self.wf(),
        ensures
            r@ == written(self.value(), 10, sign_plus, seq![]),
    {
        proof {
            self.lemma_wf_sign();
        }
        let mut out = String::new();
        if self.sign == Sign::Zero {
            proof {
                reveal_strlit("0");
            }
            out.append("0");
            return out;
        }
        push_sign(&mut out, self.sign, sign_plus);
        let ghost m = rpow(10, 9);
        proof {
            reveal_with_fuel(rpow, 10);
        }
        let mut chunks: Vec<BigDigit> = Vec::new();
        let mut reduced = self.duplicate();
        reduced.sign = Sign::Positive;
        let top: u32;
        loop
            invariant
                reduced.wf(),
                reduced.sign == Sign::Positive,
                m == 1_000_000_000,
                self.magnitude() == reduced.magnitude() * pow_m(m, chunks@.len()) + chunk_val(
                    chunks@,
                    m,
                ),
                forall|i: int| 0 <= i < chunks@.len() ==> (chunks@[i] as int) < m,
            ensures
                self.magnitude() == top * pow_m(m, chunks@.len()) + chunk_val(chunks@, m),
                1 <= top < m,
                forall|i: int| 0 <= i < chunks@.len() ==> (chunks@[i] as int) < m,
            decreases reduced.magnitude(),
        {
            proof {
                reduced.lemma_wf_sign();
            }
            let (q, rem) = short_divmod(&reduced, BASE_10_FORMAT_CHUNK_SIZE, true);
            let r = rem.unwrap();
            let ghost rm = reduced.magnitude();
            proof {
                vstd::arithmetic::div_mod::lemma_fundamental_div_mod(rm, m);
                vstd::arithmetic::div_mod::lemma_mod_bound(rm, m);
                q.lemma_wf_sign();
                vstd::arithmetic::div_mod::lemma_div_pos_is_pos(rm, m);
            }
            if q.is_zero() {
                top = r;
                proof {
                    assert(rm == r);
                }
                break;
            }
            let ghost c0 = chunks@;
            chunks.push(r);
            proof {
                lemma_chunk_val_push(c0, r, m);
                let pm = pow_m(m, c0.len());
                let qv = rm / m;
                assert(rm * pm == qv * (m * pm) + r * pm) by (nonlinear_arith)
                    requires
                        rm == m * qv + r,
                ;
                assert(qv < rm) by (nonlinear_arith)
                    requires
                        rm == m * qv + r,
                        qv >= 1,
                        r >= 0,
                        m >= 2,
                ;
            }
            reduced = q;
        }
        push_radix(&mut out, top, 10);
        let mut i: usize = chunks.len();
        while i > 0
            invariant
                i <= chunks@.len(),
                forall|j: int| 0 <= j < chunks@.len() ==> (chunks@[j] as int) < m,
                out@ == old_prefix(sign_plus, self.sign) + radix_digits(top as nat, 10) + pads(
                    chunks@.skip(i as int),
                    9,
                    10,
                ),
            decreases i,
        {
            let ghost before = out@;
            push_padded(&mut out, chunks[i - 1], BASE_10_FORMAT_PAD_SIZE, 10);
            proof {
                assert(chunks@.skip(i - 1).skip(1) =~= chunks@.skip(i as int));
                assert(out@ =~= old_prefix(sign_plus, self.sign) + radix_digits(top as nat, 10)
                    + pads(chunks@.skip(i - 1), 9, 10));
            }
            i = i - 1;
        }
        proof {
            assert(chunks@.skip(0) =~= chunks@);
            lemma_chunks_written(top as nat, chunks@, 9, 10);
            assert(crate::kernel::abs(self.value()) == self.magnitude());
            assert(out@ =~= written(self.value(), 10, sign_plus, seq![]));
        }
        out
    }

    /// The value in decimal.
    pub fn to_string(&self) -> (r: String)
        requires
            self.wf(),
        ensures
            r@ == written(self.value(), 10, false, seq![]),
    {
        self.fmt_decimal(false)
    }

    /// The value in binary: the top limb without padding, each lower limb
    /// padded to the width of a limb. `sign_plus` puts `+` in front of a
    /// positive value; `alternate` puts `0b` after the sign.
    pub fn fmt_binary(&self, sign_plus: bool, alternate: bool) -> (r: String)
        requires
            self.wf(),
        ensures
            r@ == written(self.value(), 2, sign_plus, if alternate {
                seq!['0', 'b']
            } else {
                seq![]
            }),
    {
        proof {
            self.lemma_wf_sign();
        }
        let mut out = String::new();
        if self.sign == Sign::Zero {
            proof {
                reveal_strlit("0");
            }
            out.append("0");
            return out;
        }
        push_sign(&mut out, self.sign, sign_plus);
        let ghost pre: Seq<char> = if alternate {
            seq!['0', 'b']
        } else {
            seq![]
        };
        if alternate {
            proof {
                reveal_strlit("0b");
            }
            out.append("0b");
        } else {
            proof {
                assert(out@ + seq![] =~= out@);
            }
        }
        let n = self.digits.len();
        let top = self.digits[n - 1];
        push_radix(&mut out, top, 2);
        let ghost c = self.digits@.drop_last();
        let mut i: usize = n - 1;
        while i > 0
            invariant
                n == self.digits@.len(),
                c == self.digits@.drop_last(),
                i <= n - 1,
                out@ == old_prefix(sign_plus, self.sign) + pre + radix_digits(top as nat, 2)
                    + pads(c.skip(i as int), 32, 2),
            decreases i,
        {
            push_padded(&mut out, self.digits[i - 1], DIGIT_SIZE, 2);
            proof {
                assert(c.skip(i - 1).skip(1) =~= c.skip(i as int));
                assert(c.skip(i - 1)[0] == self.digits@[i - 1]);
                assert(out@ =~= old_prefix(sign_plus, self.sign) + pre + radix_digits(
                    top as nat,
                    2,
                ) + pads(c.skip(i - 1), 32, 2));
            }
            i = i - 1;
        }
        proof {
            assert(c.skip(0) =~= c);
            reveal_with_fuel(rpow, 33);
            assert(rpow(2, 32) == base());
            lemma_chunk_val_limbs(c);
            lemma_pow_m_limbs(c.len());
            crate::digit::lemma_val_split(self.digits@, (n - 1) as int);
            assert(self.digits@.take((n - 1) as int) =~= c);
            assert(self.digits@.skip((n - 1) as int) =~= seq![top]);
            crate::digit::lemma_val_push(seq![], top);
            assert(seq![].push(top) =~= seq![top]);
            assert(pow_b(0) == 1);
            assert forall|j: int| 0 <= j < c.len() implies (c[j] as int) < rpow(2, 32) by {}
            lemma_chunks_written(top as nat, c, 32, 2);
            assert(self.magnitude() == top * pow_b(c.len()) + limbs_val(c)) by (nonlinear_arith)
                requires
                    self.magnitude() == limbs_val(c) + pow_b(c.len()) * top,
            ;
            assert(crate::kernel::abs(self.value()) == self.magnitude());
            assert(out@ =~= written(self.value(), 2, sign_plus, pre));
        }
        out
    }
}

/// The sign that `written` puts in front of a non-zero value.
pub open spec fn old_prefix(plus: bool, sign: Sign) -> Seq<char> {
    if sign == Sign::Negative {
        seq!['-']
    } else if plus {
        seq!['+']
    } else {
        seq![]
    }
}

} // verus!
