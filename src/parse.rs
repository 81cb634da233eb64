//! Parsing: an optional sign, an optional radix prefix, then digits of the
//! radix, read in limb-sized chunks and put together by Horner's rule.

use vstd::prelude::*;
use crate::bigint::BigInt;
use crate::digit::{BigDigit, chunk_size_from_radix, chunk_size_spec};
use crate::errors::BigIntParseError;
use crate::sign::Sign;
use vstd::string::StringSliceAdditionalSpecFns;

verus! {

/// The value of an ASCII digit in `radix`, or `None` when the byte is not
/// one of its digits. Hexadecimal digits are lower case.
pub open spec fn digit_of(c: u8, radix: nat) -> Option<nat> {
    let d: int = if 48 <= c <= 57 {
        c - 48
    } else if 97 <= c <= 102 {
        c - 87
    } else {
        99
    };
    if d < radix {
        Some(d as nat)
    } else {
        None
    }
}

/// Every byte is a digit of `radix`.
pub open spec fn all_digits(s: Seq<u8>, radix: nat) -> bool {
    forall|i: int| 0 <= i < s.len() ==> (#[trigger] digit_of(s[i], radix)).is_some()
}

/// The number that a string of digits writes in `radix`, most significant
/// digit first.
pub open spec fn digits_val(s: Seq<u8>, radix: nat) -> int
    decreases s.len(),
{
    if s.len() == 0 {
        0
    } else {
        digits_val(s.drop_last(), radix) * radix + digit_of(s.last(), radix).unwrap_or(0)
    }
}

/// `radix` to the power `n`.
pub open spec fn rpow(radix: nat, n: nat) -> int
    decreases n,
{
    if n == 0 {
        1
    } else {
        radix * rpow(radix, (n - 1) as nat)
    }
}

/// The digits after a sign and a radix prefix: `(negative, radix, digits)`.
pub open spec fn split_prefix(s: Seq<u8>) -> (bool, nat, Seq<u8>) {
    let neg = s.len() > 0 && s[0] == 45u8;
    let rest = if s.len() > 0 && (s[0] == 45u8 || s[0] == 43u8) {
        s.skip(1)
    } else {
        s
    };
    if rest.len() >= 2 && rest[0] == 48u8 && rest[1] == 120u8 {
        (neg, 16, rest.skip(2))
    } else if rest.len() >= 2 && rest[0] == 48u8 && rest[1] == 111u8 {
        (neg, 8, rest.skip(2))
    } else if rest.len() >= 2 && rest[0] == 48u8 && rest[1] == 98u8 {
        (neg, 2, rest.skip(2))
    } else {
        (neg, 10, rest)
    }
}

/// What parsing `s` gives: the integer, or the error.
pub open spec fn parse_spec(s: Seq<u8>) -> Result<int, BigIntParseError> {
    let (neg, radix, body) = split_prefix(s);
    digits_result(neg, radix, body)
}

/// What a sign and a digit string give in `radix`.
pub open spec fn digits_result(neg: bool, radix: nat, body: Seq<u8>) -> Result<int, BigIntParseError> {
    if body.len() == 0 {
        Err(BigIntParseError::EmptyInput)
    } else if !all_digits(body, radix) {
        Err(BigIntParseError::InvalidCharacters)
    } else if neg {
        Ok(-digits_val(body, radix))
    } else {
        Ok(digits_val(body, radix))
    }
}

/// A parse result against its model.
pub open spec fn parsed_as(r: Result<BigInt, BigIntParseError>, m: Result<int, BigIntParseError>) -> bool {
    match m {
        Ok(v) => r.is_ok() && r.unwrap().wf() && r.unwrap().value() == v,
        Err(e) => r == Err::<BigInt, BigIntParseError>(e),
    }
}

pub proof fn lemma_digits_val_concat(a: Seq<u8>, b: Seq<u8>, radix: nat)
    ensures
        digits_val(a + b, radix) == digits_val(a, radix) * rpow(radix, b.len()) + digits_val(
            b,
            radix,
        ),
    decreases b.len(),
{
    if b.len() == 0 {
        assert(a + b =~= a);
    } else {
        lemma_digits_val_concat(a, b.drop_last(), radix);
        assert((a + b).drop_last() =~= a + b.drop_last());
        let x = digits_val(a, radix);
        let p = rpow(radix, (b.len() - 1) as nat);
        let y = digits_val(b.drop_last(), radix);
        assert((x * p + y) * radix == x * (radix * p) + y * radix) by (nonlinear_arith);
    }
}

pub proof fn lemma_digits_val_bound(s: Seq<u8>, radix: nat)
    requires
        all_digits(s, radix),
        radix >= 2,
    ensures
        0 <= digits_val(s, radix) < rpow(radix, s.len()),
    decreases s.len(),
{
    if s.len() > 0 {
        let d = s.drop_last();
        assert forall|i: int| 0 <= i < d.len() implies (#[trigger] digit_of(d[i], radix)).is_some() by {
            assert(d[i] == s[i]);
            assert(digit_of(s[i], radix).is_some());
        }
        lemma_digits_val_bound(d, radix);
        assert(digit_of(s[s.len() - 1], radix).is_some());
        let x = digits_val(d, radix);
        let p = rpow(radix, d.len());
        let c = digit_of(s.last(), radix).unwrap();
        assert(x * radix + c < radix * p) by (nonlinear_arith)
            requires
                0 <= x < p,
                c < radix,
        ;
        assert(x * radix + c >= 0) by (nonlinear_arith)
            requires
                0 <= x,
                0 <= c,
                radix >= 2,
        ;
    }
}

/// The digit value of one byte.
fn byte_digit(c: u8, radix: u32) -> (r: Option<u32>)
    ensures
        r.is_some() == digit_of(c, radix as nat).is_some(),
        r.is_some() ==> r.unwrap() as nat == digit_of(c, radix as nat).unwrap(),
{
    let d: u32 = if 48 <= c && c <= 57 {
        (c - 48) as u32
    } else if 97 <= c && c <= 102 {
        (c - 87) as u32
    } else {
        99
    };
    if d < radix {
        Some(d)
    } else {
        None
    }
}

/// `radix` to the power `n`, where it is at most the radix of a limb.
fn radix_pow(radix: u32, n: usize) -> (r: u64)
    requires
        rpow(radix as nat, n as nat) <= 0x1_0000_0000,
        radix >= 1,
    ensures
        r as int == rpow(radix as nat, n as nat),
{
    let mut r: u64 = 1;
    let mut i: usize = 0;
    while i < n
        invariant
            i <= n,
            r as int == rpow(radix as nat, i as nat),
            rpow(radix as nat, n as nat) <= 0x1_0000_0000,
            radix >= 1,
        decreases n - i,
    {
        proof {
            lemma_rpow_mono(radix as nat, (i + 1) as nat, n as nat);
            assert(rpow(radix as nat, (i + 1) as nat) == radix * rpow(radix as nat, i as nat));
            assert(r * radix == radix * r) by (nonlinear_arith);
        }
        r = r * radix as u64;
        i = i + 1;
    }
    r
}

/// `acc` times `radix^n`, where that power is at most the radix of a limb:
/// one limb multiplication, or two by `2^16` for the power `2^32`.
fn times_radix_pow(acc: BigInt, radix: u32, n: usize) -> (r: BigInt)
    requires
        acc.wf(),
        rpow(radix as nat, n as nat) <= 0x1_0000_0000,
        radix >= 1,
    ensures
        r.wf(),
        r.value() == acc.value() * rpow(radix as nat, n as nat),
{
    let m = radix_pow(radix, n);
    if m < 0x1_0000_0000u64 {
        acc.times_digit(m as u32)
    } else {
        let half = acc.times_digit(0x1_0000);
        let r = half.times_digit(0x1_0000);
        proof {
            let v = acc.value();
            assert(v * 0x1_0000 * 0x1_0000 == v * 0x1_0000_0000) by (nonlinear_arith);
        }
        r
    }
}

pub proof fn lemma_rpow_mono(radix: nat, a: nat, b: nat)
    requires
        radix >= 1,
        a <= b,
    ensures
        1 <= rpow(radix, a) <= rpow(radix, b),
    decreases b,
{
    if b > 0 {
        let c = if a == b {
            (b - 1) as nat
        } else {
            a
        };
        lemma_rpow_mono(radix, c, (b - 1) as nat);
        assert(radix * rpow(radix, (b - 1) as nat) >= rpow(radix, (b - 1) as nat)) by (nonlinear_arith)
            requires
                radix >= 1,
                rpow(radix, (b - 1) as nat) >= 1,
        ;
    }
}

/// The value of the digits `s[start..end]`, which fit in a limb.
fn parse_chunk(s: &[u8], start: usize, end: usize, radix: u32) -> (r: BigDigit)
    requires
        start <= end <= s@.len(),
        all_digits(s@.subrange(start as int, end as int), radix as nat),
        rpow(radix as nat, (end - start) as nat) <= 0x1_0000_0000,
        radix >= 2,
    ensures
        r as int == digits_val(s@.subrange(start as int, end as int), radix as nat),
{
    let mut v: u32 = 0;
    let mut i: usize = start;
    while i < end
        invariant
            start <= i <= end <= s@.len(),
            all_digits(s@.subrange(start as int, end as int), radix as nat),
            rpow(radix as nat, (end - start) as nat) <= 0x1_0000_0000,
            radix >= 2,
            v as int == digits_val(s@.subrange(start as int, i as int), radix as nat),
        decreases end - i,
    {
        let ghost pre = s@.subrange(start as int, i as int);
        let ghost next = s@.subrange(start as int, (i + 1) as int);
        proof {
            assert(next.drop_last() =~= pre);
            assert(s@.subrange(start as int, end as int)[i - start] == s@[i as int]);
            assert(digit_of(s@[i as int], radix as nat).is_some());
            assert forall|k: int| 0 <= k < next.len() implies (#[trigger] digit_of(next[k], radix as nat)).is_some() by {
                assert(next[k] == s@.subrange(start as int, end as int)[k]);
            }
            lemma_digits_val_bound(next, radix as nat);
            lemma_rpow_mono(radix as nat, next.len(), (end - start) as nat);
        }
        let d = byte_digit(s[i], radix).unwrap();
        v = v * radix + d;
        i = i + 1;
    }
    v
}

/// Checks that `body` is a non-empty string of digits of `radix`.
fn check_digits(body: &[u8], radix: u32) -> (r: Result<(), BigIntParseError>)
    ensures
        body@.len() == 0 ==> r == Err::<(), BigIntParseError>(BigIntParseError::EmptyInput),
        body@.len() > 0 && !all_digits(body@, radix as nat) ==> r == Err::<(), BigIntParseError>(
            BigIntParseError::InvalidCharacters,
        ),
        body@.len() > 0 && all_digits(body@, radix as nat) ==> r is Ok,
{
    let len = body.len();
    if len == 0 {
        return Err(BigIntParseError::EmptyInput);
    }
    let mut i: usize = 0;
    while i < len
        invariant
            len == body@.len(),
            i <= len,
            forall|k: int| 0 <= k < i ==> (#[trigger] digit_of(body@[k], radix as nat)).is_some(),
        decreases len - i,
    {
        if byte_digit(body[i], radix).is_none() {
            return Err(BigIntParseError::InvalidCharacters);
        }
        i = i + 1;
    }
    Ok(())
}

/// The value of a string of digits of `radix`: the string is cut into
/// limb-sized chunks from its end, so that only the first chunk may be
/// shorter, and the chunks are put together by Horner's rule,
/// `acc = acc * radix^chunk + piece`.
fn horner(body: &[u8], radix: u32) -> (acc: BigInt)
    requires
        radix == 2 || radix == 8 || radix == 10 || radix == 16,
        body@.len() > 0,
        all_digits(body@, radix as nat),
    ensures
        acc.wf(),
        acc.value() == digits_val(body@, radix as nat),
{
    let len = body.len();
    let chunk = chunk_size_from_radix(radix).unwrap();
    proof {
        reveal_with_fuel(rpow, 33);
    }
    let first = if len % chunk == 0 {
        chunk
    } else {
        len % chunk
    };
    let mut acc = BigInt::zero();
    let mut pos: usize = 0;
    let mut end: usize = first;
    while pos < len
        invariant
            len == body@.len(),
            all_digits(body@, radix as nat),
            radix == 2 || radix == 8 || radix == 10 || radix == 16,
            chunk_size_spec(radix) == Some(chunk),
            rpow(radix as nat, chunk as nat) <= 0x1_0000_0000,
            pos < end <= len || pos == len,
            end - pos <= chunk,
            pos < len ==> end - pos >= 1,
            end == len || end - pos == chunk || pos == 0,
            acc.wf(),
            acc.value() == digits_val(body@.take(pos as int), radix as nat),
            acc.value() >= 0,
        decreases len - pos,
    {
        let n = end - pos;
        proof {
            lemma_rpow_mono(radix as nat, n as nat, chunk as nat);
            let piece = body@.subrange(pos as int, end as int);
            assert forall|k: int| 0 <= k < piece.len() implies (#[trigger] digit_of(piece[k], radix as nat)).is_some() by {
                assert(piece[k] == body@[pos + k]);
            }
        }
        let piece = parse_chunk(body, pos, end, radix);
        acc = times_radix_pow(acc, radix, n).plus_digit(piece);
        proof {
            assert(body@.take(end as int) =~= body@.take(pos as int) + body@.subrange(pos as int, end as int));
            lemma_digits_val_concat(body@.take(pos as int), body@.subrange(pos as int, end as int), radix as nat);
            assert(acc.value() >= 0);
        }
        pos = end;
        end = if len - end >= chunk {
            end + chunk
        } else {
            len
        };
    }
    proof {
        assert(body@.take(len as int) =~= body@);
    }
    acc
}

/// A parsed but not yet assembled integer: its sign, its radix and its
/// digit string.
pub struct BigIntBuilder<'a> {
    sign: Sign,
    radix: u32,
    digit_str: &'a [u8],
}

impl<'a> BigIntBuilder<'a> {
    /// A sign, a supported radix and a non-empty string of its digits.
    pub open spec fn wf(&self) -> bool {
        &&& self.spec_sign() == Sign::Positive || self.spec_sign() == Sign::Negative
        &&& chunk_size_spec(self.spec_radix()).is_some()
        &&& self.spec_digits().len() > 0
        &&& all_digits(self.spec_digits(), self.spec_radix() as nat)
    }

    pub closed spec fn spec_sign(&self) -> Sign {
        self.sign
    }

    pub closed spec fn spec_radix(&self) -> u32 {
        self.radix
    }

    pub closed spec fn spec_digits(&self) -> Seq<u8> {
        self.digit_str@
    }

    /// The integer that the builder stands for.
    pub open spec fn value(&self) -> int {
        if self.spec_sign() == Sign::Negative {
            -digits_val(self.spec_digits(), self.spec_radix() as nat)
        } else {
            digits_val(self.spec_digits(), self.spec_radix() as nat)
        }
    }

    /// Reads `[+|-][0x|0o|0b]digits`: decimal unless a prefix names the
    /// radix; hexadecimal digits are lower case.
    pub fn parse_from_str(input: &'a str) -> (r: Result<BigIntBuilder<'a>, BigIntParseError>)
        ensures
            match parse_spec(input.spec_bytes()) {
                Ok(v) => r is Ok && r.unwrap().wf() && r.unwrap().value() == v,
                Err(e) => r == Err::<BigIntBuilder<'a>, BigIntParseError>(e),
            },
    {
        let b = input.as_bytes();
        let len = b.len();
        let neg = len > 0 && b[0] == 45u8;
        let start: usize = if len > 0 && (b[0] == 45u8 || b[0] == 43u8) {
            1
        } else {
            0
        };
        let (_, rest) = b.split_at(start);
        proof {
            assert(rest@ =~= (if len > 0 && (b@[0] == 45u8 || b@[0] == 43u8) {
                b@.skip(1)
            } else {
                b@
            }));
        }
        let rl = rest.len();
        let (radix, skip): (u32, usize) = if rl >= 2 && rest[0] == 48u8 && rest[1] == 120u8 {
            (16, 2)
        } else if rl >= 2 && rest[0] == 48u8 && rest[1] == 111u8 {
            (8, 2)
        } else if rl >= 2 && rest[0] == 48u8 && rest[1] == 98u8 {
            (2, 2)
        } else {
            (10, 0)
        };
        let (_, body) = rest.split_at(skip);
        proof {
            assert(body@ =~= rest@.skip(skip as int));
            assert(rest@.skip(0) =~= rest@);
        }
        match check_digits(body, radix) {
            Err(e) => Err(e),
            Ok(()) => Ok(
                BigIntBuilder {
                    sign: if neg {
                        Sign::Negative
                    } else {
                        Sign::Positive
                    },
                    radix,
                    digit_str: body,
                },
            ),
        }
    }

    /// Puts the digits together into a `BigInt` and applies the sign.
    pub fn into_bigint(self) -> (r: BigInt)
        requires
            self.wf(),
        ensures
            r.wf(),
            r.value() == self.value(),
    {
        let acc = horner(self.digit_str, self.radix);
        if self.sign == Sign::Negative {
            acc.negated()
        } else {
            acc
        }
    }
}

impl BigInt {
    /// Parses `[+|-][0x|0o|0b]digits`: decimal unless a prefix names the
    /// radix; hexadecimal digits are lower case.
    pub fn from_str(s: &str) -> (r: Result<BigInt, BigIntParseError>)
        ensures
            parsed_as(r, parse_spec(s.spec_bytes())),
    {
        match BigIntBuilder::parse_from_str(s) {
            Ok(builder) => Ok(builder.into_bigint()),
            Err(e) => Err(e),
        }
    }

    /// Parses `[+|-]digits` in `radix`, which is 2, 8, 10 or 16.
    pub fn from_str_radix(s: &str, radix: u32) -> (r: Result<BigInt, BigIntParseError>)
        ensures
            chunk_size_spec(radix).is_none() ==> r == Err::<BigInt, BigIntParseError>(
                BigIntParseError::InvalidRadix,
            ),
            chunk_size_spec(radix).is_some() ==> parsed_as(
                r,
                digits_result(
                    s.spec_bytes().len() > 0 && s.spec_bytes()[0] == 45u8,
                    radix as nat,
                    if s.spec_bytes().len() > 0 && (s.spec_bytes()[0] == 45u8 || s.spec_bytes()[0]
                        == 43u8) {
                        s.spec_bytes().skip(1)
                    } else {
                        s.spec_bytes()
                    },
                ),
            ),
    {
        if chunk_size_from_radix(radix).is_none() {
            return Err(BigIntParseError::InvalidRadix);
        }
        let b = s.as_bytes();
        let len = b.len();
        let neg = len > 0 && b[0] == 45u8;
        let start: usize = if len > 0 && (b[0] == 45u8 || b[0] == 43u8) {
            1
        } else {
            0
        };
        let (_, body) = b.split_at(start);
        proof {
            assert(body@ =~= (if len > 0 && (b@[0] == 45u8 || b@[0] == 43u8) {
                b@.skip(1)
            } else {
                b@
            }));
        }
        match check_digits(body, radix) {
            Err(e) => Err(e),
            Ok(()) => {
                let acc = horner(body, radix);
                if neg {
                    Ok(acc.negated())
                } else {
                    Ok(acc)
                }
            },
        }
    }
}

impl core::str::FromStr for BigInt {
    type Err = BigIntParseError;

    fn from_str(s: &str) -> (r: Result<BigInt, BigIntParseError>)
        ensures
            parsed_as(r, parse_spec(s.spec_bytes())),
    {
        BigInt::from_str(s)
    }
}

} // verus!
