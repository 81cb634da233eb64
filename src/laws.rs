//! Laws that tie the operations together, stated over the values that
//! their contracts speak of.

use vstd::prelude::*;
use crate::bigint::BigInt;
use crate::digit::{limbs_val, lemma_val_inj, lemma_val_len_lt};
use crate::format::{radix_digits, written, digit_char};
use crate::kernel::{abs, mul_acc};
use crate::parse::{digit_of, digits_val, parse_spec, all_digits};
use crate::sign::{Sign, cmp_int};
use core::cmp::Ordering;
use vstd::string::StringSliceAdditionalSpecFns;

verus! {

/// A well-formed value has exactly one representation: two well-formed
/// values that stand for the same integer have the same sign and the same
/// limbs.
pub proof fn law_canonical(x: BigInt, y: BigInt)
    requires
        x.wf(),
        y.wf(),
        x.value() == y.value(),
    ensures
        x.sign == y.sign,
        x.digits@ == y.digits@,
{
    x.lemma_wf_sign();
    y.lemma_wf_sign();
    if x.sign != Sign::Zero {
        assert(x.magnitude() == y.magnitude()) by (nonlinear_arith)
            requires
                x.value() == y.value(),
                x.sign == y.sign,
                x.sign == Sign::Positive ==> x.value() == x.magnitude() && y.value()
                    == y.magnitude(),
                x.sign == Sign::Negative ==> x.value() == -x.magnitude() && y.value()
                    == -y.magnitude(),
                x.sign != Sign::Zero,
        ;
        if x.digits@.len() < y.digits@.len() {
            lemma_val_len_lt(x.digits@, y.digits@);
        }
        if y.digits@.len() < x.digits@.len() {
            lemma_val_len_lt(y.digits@, x.digits@);
        }
        lemma_val_inj(x.digits@, y.digits@);
    }
}

/// Adding a value and then its negation gives back the first value; a
/// difference is a sum with the negation.
pub proof fn law_add_sub(x: BigInt, y: BigInt)
    requires
        x.wf(),
        y.wf(),
    ensures
        (x.value() + y.value()) + (-y.value()) == x.value(),
        x.value() - y.value() == x.value() + (-y.value()),
{
}

/// One is neutral for multiplication and zero absorbs it.
pub proof fn law_mul_identities(x: BigInt)
    requires
        x.wf(),
    ensures
        x.value() * 1 == x.value(),
        x.value() * 0 == 0,
{
}

/// Addition and multiplication are commutative.
pub proof fn law_commutative(x: BigInt, y: BigInt)
    requires
        x.wf(),
        y.wf(),
    ensures
        x.value() + y.value() == y.value() + x.value(),
        x.value() * y.value() == y.value() * x.value(),
{
    assert(x.value() * y.value() == y.value() * x.value()) by (nonlinear_arith);
}

/// Addition and multiplication are associative.
pub proof fn law_associative(x: BigInt, y: BigInt, z: BigInt)
    requires
        x.wf(),
        y.wf(),
        z.wf(),
    ensures
        (x.value() + y.value()) + z.value() == x.value() + (y.value() + z.value()),
        (x.value() * y.value()) * z.value() == x.value() * (y.value() * z.value()),
{
    assert((x.value() * y.value()) * z.value() == x.value() * (y.value() * z.value()))
        by (nonlinear_arith);
}

/// Division by a non-zero value: the quotient times the divisor plus the
/// remainder is the dividend, and the remainder lies in `[0, |y|)`.
pub proof fn law_division(x: BigInt, y: BigInt)
    requires
        x.wf(),
        y.wf(),
        y.value() != 0,
    ensures
        (x.value() / y.value()) * y.value() + x.value() % y.value() == x.value(),
        0 <= x.value() % y.value() < abs(y.value()),
{
    let a = x.value();
    let b = y.value();
    vstd::arithmetic::div_mod::lemma_fundamental_div_mod(a, b);
    vstd::arithmetic::mul::lemma_mul_is_commutative(b, a / b);
    if b > 0 {
        vstd::arithmetic::div_mod::lemma_mod_bound(a, b);
    } else {
        assert(0 <= a % b < -b);
    }
}

/// The signs are ordered `Negative < Zero < Positive`.
pub proof fn law_sign_order()
    ensures
        Sign::Negative.rank() < Sign::Zero.rank() < Sign::Positive.rank(),
        cmp_int(Sign::Negative.rank(), Sign::Zero.rank()) == Ordering::Less,
        cmp_int(Sign::Zero.rank(), Sign::Positive.rank()) == Ordering::Less,
        cmp_int(Sign::Negative.rank(), Sign::Positive.rank()) == Ordering::Less,
{
}

/// The schoolbook and the Karatsuba multiply-accumulate leave the same limbs:
/// both leave a target of one length holding one value.
pub proof fn law_karatsuba_coherence(
    a: Seq<u32>,
    b: Seq<u32>,
    target: Seq<u32>,
    n_out: Seq<u32>,
    k_out: Seq<u32>,
)
    requires
        n_out.len() == target.len(),
        k_out.len() == target.len(),
        limbs_val(n_out) == mul_acc(target, a, b),
        limbs_val(k_out) == mul_acc(target, a, b),
    ensures
        n_out == k_out,
{
    lemma_val_inj(n_out, k_out);
}

/// Shifting left by `k` bits multiplies by `2^k`: by the radix once for
/// each whole limb of the shift and by `2^(k % 32)` for the bits left over.
pub proof fn law_shift_is_mul(x: BigInt, k: nat)
    requires
        x.wf(),
    ensures
        x.value() * crate::digit::pow2(k) == (x.value() * crate::digit::pow2(k % 32))
            * crate::digit::pow_b(k / 32),
{
    crate::digit::lemma_pow_b_pow2(k / 32);
    crate::digit::lemma_pow2_add(32 * (k / 32), k % 32);
    let v = x.value();
    let a = crate::digit::pow2(k % 32);
    let b = crate::digit::pow_b(k / 32);
    assert(v * (b * a) == (v * a) * b) by (nonlinear_arith);
}

/// A digit character of radix `b`, for `b` up to ten.
pub open spec fn is_radix_char(c: char, b: nat) -> bool {
    48 <= (c as int) < 48 + b
}

/// A decimal numeral in canonical form: an optional `-`, then digits with
/// no leading zero unless the numeral is `0`, and no `-0`.
pub open spec fn canonical_decimal(s: Seq<char>) -> bool {
    let neg = s.len() > 0 && s[0] == '-';
    let body = numeral_body(s);
    &&& body.len() > 0
    &&& forall|i: int| 0 <= i < body.len() ==> is_radix_char(#[trigger] body[i], 10)
    &&& (body.len() == 1 || body[0] != '0')
    &&& !(neg && body.len() == 1 && body[0] == '0')
}

/// A numeral without its leading `-`, if any.
pub open spec fn numeral_body(s: Seq<char>) -> Seq<char> {
    if s.len() > 0 && s[0] == '-' {
        s.skip(1)
    } else {
        s
    }
}

/// The bytes of an ASCII string.
pub open spec fn ascii_bytes(s: Seq<char>) -> Seq<u8> {
    Seq::new(s.len(), |i: int| s[i] as u8)
}

proof fn lemma_radix_char(c: char, b: nat)
    requires
        is_radix_char(c, b),
        b == 2 || b == 10,
    ensures
        digit_of(c as u8, b) == Some((c as u8 - 48) as nat),
        digit_char((c as u8 - 48) as nat) == c,
{
    assert((c as u8) as int == c as int);
}

proof fn lemma_radix_round_trip(body: Seq<char>, b: nat)
    requires
        b == 2 || b == 10,
        body.len() > 0,
        forall|i: int| 0 <= i < body.len() ==> is_radix_char(#[trigger] body[i], b),
        body.len() == 1 || body[0] != '0',
    ensures
        radix_digits(digits_val(ascii_bytes(body), b) as nat, b) == body,
        all_digits(ascii_bytes(body), b),
        body.len() > 1 ==> digits_val(ascii_bytes(body), b) >= b,
        body[0] != '0' ==> digits_val(ascii_bytes(body), b) >= 1,
    decreases body.len(),
{
    let bs = ascii_bytes(body);
    let c = body.last();
    assert(is_radix_char(body[body.len() - 1], b));
    lemma_radix_char(c, b);
    assert(bs.last() == c as u8);
    let d = (c as u8 - 48) as nat;
    assert forall|i: int| 0 <= i < bs.len() implies (#[trigger] digit_of(bs[i], b)).is_some() by {
        assert(is_radix_char(body[i], b));
        lemma_radix_char(body[i], b);
    }
    if body.len() == 1 {
        assert(bs.drop_last() =~= Seq::<u8>::empty());
        assert(digit_of(bs.last(), b) == Some(d));
        assert(digits_val(bs.drop_last(), b) == 0);
        assert(digits_val(bs, b) == d);
        assert(radix_digits(d, b) =~= body);
    } else {
        let front = body.drop_last();
        assert(ascii_bytes(front) =~= bs.drop_last());
        assert(front[0] == body[0]);
        assert forall|i: int| 0 <= i < front.len() implies is_radix_char(#[trigger] front[i], b) by {
            assert(front[i] == body[i]);
        }
        lemma_radix_round_trip(front, b);
        let vf = digits_val(ascii_bytes(front), b);
        let v = digits_val(bs, b);
        assert(v == vf * b + d);
        vstd::arithmetic::div_mod::lemma_fundamental_div_mod_converse(v, b as int, vf, d as int);
        assert(v >= b) by (nonlinear_arith)
            requires
                v == vf * b + d,
                vf >= 1,
                d >= 0,
                b >= 2,
        ;
        assert(radix_digits(v as nat, b) == radix_digits(vf as nat, b).push(digit_char(d)));
        assert(body =~= front.push(c));
    }
}

/// Formatting what a canonical decimal numeral parses to gives back the
/// numeral.
pub proof fn law_decimal_round_trip(s: Seq<char>)
    requires
        canonical_decimal(s),
    ensures
        parse_spec(ascii_bytes(s)).is_ok(),
        written(parse_spec(ascii_bytes(s)).unwrap(), 10, false, seq![]) == s,
{
    let neg = s.len() > 0 && s[0] == '-';
    let body = numeral_body(s);
    let bs = ascii_bytes(s);
    let bb = ascii_bytes(body);
    lemma_radix_round_trip(body, 10);
    assert(is_radix_char(body[0], 10));
    if neg {
        assert(bs.skip(1) =~= bb);
        assert(bs[0] == 45u8);
    } else {
        assert(bs =~= bb);
        assert(bs[0] != 45u8 && bs[0] != 43u8);
    }
    if body.len() >= 2 {
        assert(is_radix_char(body[1], 10));
    }
    let v = digits_val(bb, 10);
    if body.len() == 1 && body[0] == '0' {
        assert(bb.drop_last() =~= Seq::<u8>::empty());
        assert(bb.last() == 48u8);
        assert(digits_val(bb.drop_last(), 10) == 0);
        assert(v == 0);
    } else {
        assert(v >= 1);
    }
    if neg {
        assert(s =~= seq!['-'] + body);
    }
}

/// The round trip through `BigInt::from_str` and `BigInt::to_string`: on a
/// canonical decimal numeral, the integer that parsing yields is written
/// back as the same numeral.
pub proof fn law_decimal_str_round_trip(s: &str)
    requires
        vstd::string::is_ascii(s),
        canonical_decimal(s@),
    ensures
        parse_spec(s.spec_bytes()).is_ok(),
        written(parse_spec(s.spec_bytes()).unwrap(), 10, false, seq![]) == s@,
{
    vstd::string::is_ascii_spec_bytes(s);
    assert(s.spec_bytes() =~= ascii_bytes(s@));
    law_decimal_round_trip(s@);
}

/// A binary numeral as the alternate binary form writes a non-zero value:
/// an optional `-`, then `0b`, then binary digits starting with `1`.
pub open spec fn canonical_binary(s: Seq<char>) -> bool {
    let rest = numeral_body(s);
    &&& rest.len() > 2
    &&& rest[0] == '0'
    &&& rest[1] == 'b'
    &&& forall|i: int| 2 <= i < rest.len() ==> is_radix_char(#[trigger] rest[i], 2)
    &&& rest[2] == '1'
}

/// Formatting in the alternate binary form what a canonical binary numeral
/// parses to gives back the numeral.
pub proof fn law_binary_round_trip(s: Seq<char>)
    requires
        canonical_binary(s),
    ensures
        parse_spec(ascii_bytes(s)).is_ok(),
        written(parse_spec(ascii_bytes(s)).unwrap(), 2, false, seq!['0', 'b']) == s,
{
    let neg = s.len() > 0 && s[0] == '-';
    let rest = numeral_body(s);
    let body = rest.skip(2);
    assert forall|i: int| 0 <= i < body.len() implies is_radix_char(#[trigger] body[i], 2) by {
        assert(body[i] == rest[i + 2]);
        assert(is_radix_char(rest[i + 2], 2));
    }
    assert(body[0] == rest[2]);
    lemma_radix_round_trip(body, 2);
    let bs = ascii_bytes(s);
    let br = ascii_bytes(rest);
    assert(br.skip(2) =~= ascii_bytes(body));
    assert(br[0] == 48u8);
    assert(br[1] == 98u8);
    if neg {
        assert(bs.skip(1) =~= br);
        assert(bs[0] == 45u8);
        assert(s =~= seq!['-'] + seq!['0', 'b'] + body);
    } else {
        assert(bs =~= br);
        assert(s =~= seq!['0', 'b'] + body);
    }
}

/// The results of the operations are well-formed and their contracts give
/// their values, so a law on values is a law on results: `(x + y) + (-y)`
/// is `x` itself, limb for limb, and `x - y` is `x + (-y)`.
pub proof fn law_add_sub_results(x: BigInt, y: BigInt, back: BigInt, diff: BigInt, sum_neg: BigInt)
    requires
        x.wf(),
        y.wf(),
        back.wf(),
        diff.wf(),
        sum_neg.wf(),
        back.value() == (x.value() + y.value()) + (-y.value()),
        diff.value() == x.value() - y.value(),
        sum_neg.value() == x.value() + (-y.value()),
    ensures
        back.sign == x.sign && back.digits@ == x.digits@,
        diff.sign == sum_neg.sign && diff.digits@ == sum_neg.digits@,
{
    law_canonical(back, x);
    law_canonical(diff, sum_neg);
}

/// `x * 1` is `x` itself and `x * 0` is zero, limb for limb.
pub proof fn law_mul_identity_results(x: BigInt, one: BigInt, zero: BigInt)
    requires
        x.wf(),
        one.wf(),
        zero.wf(),
        one.value() == x.value() * 1,
        zero.value() == x.value() * 0,
    ensures
        one.sign == x.sign && one.digits@ == x.digits@,
        zero.sign == Sign::Zero && zero.digits@.len() == 0,
{
    law_canonical(one, x);
    zero.lemma_wf_sign();
}

/// `x + y` and `y + x` are the same limbs, and so are `x * y` and `y * x`.
pub proof fn law_commutative_results(
    x: BigInt,
    y: BigInt,
    xy_sum: BigInt,
    yx_sum: BigInt,
    xy_prod: BigInt,
    yx_prod: BigInt,
)
    requires
        xy_sum.wf() && yx_sum.wf() && xy_prod.wf() && yx_prod.wf(),
        xy_sum.value() == x.value() + y.value(),
        yx_sum.value() == y.value() + x.value(),
        xy_prod.value() == x.value() * y.value(),
        yx_prod.value() == y.value() * x.value(),
    ensures
        xy_sum.sign == yx_sum.sign && xy_sum.digits@ == yx_sum.digits@,
        xy_prod.sign == yx_prod.sign && xy_prod.digits@ == yx_prod.digits@,
{
    assert(x.value() * y.value() == y.value() * x.value()) by (nonlinear_arith);
    law_canonical(xy_sum, yx_sum);
    law_canonical(xy_prod, yx_prod);
}

/// `(x + y) + z` and `x + (y + z)` are the same limbs, and so are
/// `(x * y) * z` and `x * (y * z)`.
pub proof fn law_associative_results(
    x: BigInt,
    y: BigInt,
    z: BigInt,
    left_sum: BigInt,
    right_sum: BigInt,
    left_prod: BigInt,
    right_prod: BigInt,
)
    requires
        left_sum.wf() && right_sum.wf() && left_prod.wf() && right_prod.wf(),
        left_sum.value() == (x.value() + y.value()) + z.value(),
        right_sum.value() == x.value() + (y.value() + z.value()),
        left_prod.value() == (x.value() * y.value()) * z.value(),
        right_prod.value() == x.value() * (y.value() * z.value()),
    ensures
        left_sum.sign == right_sum.sign && left_sum.digits@ == right_sum.digits@,
        left_prod.sign == right_prod.sign && left_prod.digits@ == right_prod.digits@,
{
    assert((x.value() * y.value()) * z.value() == x.value() * (y.value() * z.value()))
        by (nonlinear_arith);
    law_canonical(left_sum, right_sum);
    law_canonical(left_prod, right_prod);
}

/// The quotient and the remainder of a division are the only well-formed
/// pair with `q * y + r == x` and `0 <= r < |y|`.
pub proof fn law_division_results(x: BigInt, y: BigInt, q: BigInt, r: BigInt)
    requires
        x.wf(),
        y.wf(),
        q.wf(),
        r.wf(),
        y.value() != 0,
        q.value() * y.value() + r.value() == x.value(),
        0 <= r.value() < abs(y.value()),
    ensures
        q.value() == x.value() / y.value(),
        r.value() == x.value() % y.value(),
{
    let (a, b, qv, rv) = (x.value(), y.value(), q.value(), r.value());
    law_division(x, y);
    vstd::arithmetic::div_mod::lemma_fundamental_div_mod(a, b);
    let q2 = a / b;
    let r2 = a % b;
    assert(q2 * b + r2 == a) by {
        vstd::arithmetic::mul::lemma_mul_is_commutative(b, q2);
    }
    assert((qv - q2) * b == r2 - rv) by (nonlinear_arith)
        requires
            qv * b + rv == a,
            q2 * b + r2 == a,
    ;
    if qv != q2 {
        assert(abs((qv - q2) * b) >= abs(b)) by (nonlinear_arith)
            requires
                qv != q2,
                b != 0,
        ;
    }
}

/// `x << k` and `x * 2^k` are the same limbs.
pub proof fn law_shift_results(x: BigInt, k: nat, shifted: BigInt, product: BigInt)
    requires
        shifted.wf(),
        product.wf(),
        shifted.value() == x.value() * crate::digit::pow2(k),
        product.value() == x.value() * crate::digit::pow2(k),
    ensures
        shifted.sign == product.sign && shifted.digits@ == product.digits@,
{
    law_canonical(shifted, product);
}

} // verus!
