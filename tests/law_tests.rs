use numerics::bigint::BigInt;
use numerics::digit::chunk_size_from_radix;
use numerics::div::divmod;
use numerics::errors::BigIntParseError;
use numerics::kernel::{sadd, ssub};
use numerics::ops::naive_add;
use numerics::sign::Sign;
use rand::Rng;

fn big(s: &str) -> BigInt {
    BigInt::from_str(s).unwrap()
}

fn canonical(x: &BigInt) -> bool {
    match x.sign {
        Sign::Zero => x.digits.is_empty(),
        _ => !x.digits.is_empty() && *x.digits.last().unwrap() != 0,
    }
}

fn random_big(rng: &mut impl Rng) -> BigInt {
    let n: usize = rng.gen_range(0..40);
    let digits: Vec<u32> = (0..n).map(|_| rng.gen::<u32>()).collect();
    let sign = if rng.gen::<bool>() { Sign::Positive } else { Sign::Negative };
    let mut x = BigInt { sign, digits };
    x.trim();
    x
}

#[test]
fn results_are_canonical() {
    let a = big("340282366920938463463374607431768211456");
    let b = big("-340282366920938463463374607431768211455");
    assert!(canonical(&(a.clone() + b.clone())));
    assert!(canonical(&(a.clone() - a.clone())));
    assert!(canonical(&(a.clone() * BigInt::zero())));
    assert!(canonical(&(b.clone() >> 200)));
    assert!(canonical(&(a.clone() + BigInt::from(0u8))));
    assert_eq!(a.clone() - a.clone(), BigInt::zero());
    assert_eq!((a.clone() + b.clone()), BigInt::one());
}

#[test]
fn add_then_negate_cancels() {
    let mut rng = rand::thread_rng();
    for _ in 0..50 {
        let x = random_big(&mut rng);
        let y = random_big(&mut rng);
        assert_eq!((x.clone() + y.clone()) + (-y.clone()), x.clone());
        assert_eq!(x.clone() - y.clone(), x.clone() + (-y.clone()));
        assert_eq!(x.clone() * BigInt::one(), x.clone());
        assert_eq!(x.clone() * BigInt::zero(), BigInt::zero());
    }
}

#[test]
fn commutative_and_associative() {
    let mut rng = rand::thread_rng();
    for _ in 0..30 {
        let x = random_big(&mut rng);
        let y = random_big(&mut rng);
        let z = random_big(&mut rng);
        assert_eq!(x.clone() + y.clone(), y.clone() + x.clone());
        assert_eq!(x.clone() * y.clone(), y.clone() * x.clone());
        assert_eq!((x.clone() + y.clone()) + z.clone(), x.clone() + (y.clone() + z.clone()));
        assert_eq!((x.clone() * y.clone()) * z.clone(), x.clone() * (y.clone() * z.clone()));
    }
}

#[test]
fn division_identity_holds() {
    let mut rng = rand::thread_rng();
    for _ in 0..50 {
        let x = random_big(&mut rng);
        let y = random_big(&mut rng);
        if y.is_zero() {
            continue;
        }
        let (q, r) = x.clone().div_mod(&y);
        assert!(canonical(&q) && canonical(&r));
        assert_eq!(q * y.clone() + r.clone(), x);
        assert!(!r.is_negative());
        let abs_y = if y.is_negative() { -y.clone() } else { y.clone() };
        assert!(r < abs_y);
    }
}

#[test]
fn divmod_quick_answers() {
    let x = big("123456789012345678901234567890");
    let (q, r) = divmod(x.clone(), x.clone(), true);
    assert_eq!(q, BigInt::one());
    assert_eq!(r, Some(BigInt::zero()));
    let y = big("1234567890123456789012345678901");
    let (q, r) = divmod(x.clone(), y.clone(), true);
    assert_eq!(q, BigInt::zero());
    assert_eq!(r, Some(x.clone()));
    let (q, r) = divmod(BigInt::zero(), y, false);
    assert_eq!(q, BigInt::zero());
    assert_eq!(r, None);
}

#[test]
fn negative_division_is_euclidean() {
    let (q, r) = big("-7").div_mod(&big("2"));
    assert_eq!((q, r), (big("-4"), big("1")));
    let (q, r) = big("7").div_mod(&big("-2"));
    assert_eq!((q, r), (big("-3"), big("1")));
    let (q, r) = big("-7").div_mod(&big("-2"));
    assert_eq!((q, r), (big("4"), big("1")));
    let (q, r) = big("-6").div_mod(&big("3"));
    assert_eq!((q, r), (big("-2"), big("0")));
}

#[test]
fn shift_is_multiplication_by_power_of_two() {
    let x = big("1000000000000000000000000000007");
    assert_eq!(
        x.clone() << 100,
        big("1267650600228229401496703205384873554201597605810476922437632")
    );
    let mut p = BigInt::one();
    for k in 0..120usize {
        assert_eq!(x.clone() << k, x.clone() * p.clone());
        assert_eq!((x.clone() << k) >> k, x.clone());
        p = p * 2u32;
    }
    assert_eq!(-x.clone() << 3, -(x.clone() * 8u32));
}

#[test]
fn shift_right_rounds_magnitude_down() {
    assert_eq!(big("-7") >> 1, big("-3"));
    assert_eq!(big("12345678901234567890") >> 64, BigInt::zero());
    assert_eq!(big("18446744073709551616") >> 64, BigInt::one());
}

#[test]
fn decimal_round_trip() {
    for s in ["0", "7", "-1", "4294967295", "4294967296", "-1000000000", "1000000000000000000",
        "-98023470923847029384720938472348209234870000000001"] {
        assert_eq!(big(s).to_string(), s);
    }
    assert_eq!(big("42").fmt_decimal(true), "+42");
    assert_eq!(BigInt::zero().fmt_decimal(true), "0");
}

#[test]
fn binary_round_trip() {
    for s in ["0b1", "0b101", "-0b1000100111010001011001011111101001111000",
        "0b100000000000000000000000000000000"] {
        assert_eq!(big(s).fmt_binary(false, true), s);
    }
    assert_eq!(big("5").fmt_binary(false, false), "101");
    assert_eq!(big("5").fmt_binary(true, true), "+0b101");
    assert_eq!(BigInt::zero().fmt_binary(false, true), "0");
}

#[test]
fn sign_order() {
    assert!(Sign::Negative < Sign::Zero);
    assert!(Sign::Zero < Sign::Positive);
    assert!(Sign::Negative < Sign::Positive);
    assert_eq!(Sign::Negative * Sign::Negative, Sign::Positive);
    assert_eq!(Sign::Positive * Sign::Zero, Sign::Zero);
    assert_eq!(-Sign::Positive, Sign::Negative);
}

#[test]
fn parse_prefixes() {
    assert_eq!(big("0xff"), BigInt::from(255u32));
    assert_eq!(big("0o17"), BigInt::from(15u32));
    assert_eq!(big("-0b101"), -BigInt::from(5u32));
    assert_eq!(big("+42"), BigInt::from(42u32));
    assert_eq!(big("0xffffffffffffffff"), BigInt::from(u64::MAX));
    assert_eq!(BigInt::from_str_radix("-777", 8).unwrap(), -BigInt::from(511u32));
    assert_eq!(BigInt::from_str_radix("ff", 16).unwrap(), BigInt::from(255u32));
}

#[test]
fn parse_errors() {
    assert_eq!(BigInt::from_str(""), Err(BigIntParseError::EmptyInput));
    assert_eq!(BigInt::from_str("-"), Err(BigIntParseError::EmptyInput));
    assert_eq!(BigInt::from_str("0x"), Err(BigIntParseError::EmptyInput));
    assert_eq!(BigInt::from_str("12a3"), Err(BigIntParseError::InvalidCharacters));
    assert_eq!(BigInt::from_str("0xFF"), Err(BigIntParseError::InvalidCharacters));
    assert_eq!(BigInt::from_str("0b102"), Err(BigIntParseError::InvalidCharacters));
    assert_eq!(BigInt::from_str_radix("101", 3), Err(BigIntParseError::InvalidRadix));
}

#[test]
fn chunk_sizes() {
    assert_eq!(chunk_size_from_radix(2), Some(32));
    assert_eq!(chunk_size_from_radix(8), Some(10));
    assert_eq!(chunk_size_from_radix(10), Some(9));
    assert_eq!(chunk_size_from_radix(16), Some(8));
    assert_eq!(chunk_size_from_radix(7), None);
}

#[test]
fn conversions_from_unsigned() {
    assert!(BigInt::from(0u8).is_zero());
    assert!(BigInt::from(0u64).is_zero());
    assert_eq!(BigInt::from(u64::MAX).digits, vec![u32::MAX, u32::MAX]);
    assert_eq!(BigInt::from(7u64).digits, vec![7]);
    assert_eq!(BigInt::from(65535u16), big("65535"));
    assert_eq!(
        BigInt::from(u64::MAX) * BigInt::from(u64::MAX),
        big("340282366920938463426481119284349108225")
    );
}

#[test]
fn slice_kernels() {
    let mut a = vec![u32::MAX, u32::MAX, 0];
    assert_eq!(sadd(&mut a, &[1]), 0);
    assert_eq!(a, vec![0, 0, 1]);
    let mut b = vec![u32::MAX, u32::MAX];
    assert_eq!(sadd(&mut b, &[1]), 1);
    assert_eq!(b, vec![0, 0]);
    let mut c = vec![1, 0];
    assert_eq!(ssub(&mut c, &[3]), Sign::Negative);
    assert_eq!(c, vec![2, 0]);
    let mut d = vec![0, 1];
    assert_eq!(ssub(&mut d, &[1]), Sign::Positive);
    assert_eq!(d, vec![u32::MAX, 0]);
    let mut e = vec![5];
    assert_eq!(ssub(&mut e, &[5]), Sign::Zero);
}

#[test]
fn ordering_by_value() {
    assert!(big("-5") < big("3"));
    assert!(big("-5") < big("-3"));
    assert!(big("18446744073709551616") > big("18446744073709551615"));
    assert_eq!(big("12").cmp(&big("12")), std::cmp::Ordering::Equal);
}

#[test]
fn limb_division_and_remainder() {
    let x = big("-159227301757406318958308608461596464563224530763743");
    assert_eq!(x.clone() / 74495u32, big("-2137422669406085226636802583550526405305383324"));
    assert_eq!(&x % 74495u32, 42363);
}

#[test]
fn full_chunks_parse() {
    assert_eq!(big("0x100000000"), big("4294967296"));
    assert_eq!(big("0xffffffff"), BigInt::from(u32::MAX));
    assert_eq!(big("0x123456789abcdef0123456789abcdef"), big("1512366075204170929049582354406559215"));
    assert_eq!(big("0b100000000000000000000000000000000000000001111111111111111111111111"), big("36893488147452657663"));
    assert_eq!(big("0b11111111111111111111111111111111"), BigInt::from(u32::MAX));
}

#[test]
fn naive_add_adds_magnitudes() {
    let mut a = big("5");
    naive_add(&mut a, &big("-3"));
    assert_eq!(a, big("8"));
    let mut b = big("-18446744073709551615");
    naive_add(&mut b, &big("1"));
    assert_eq!(b, big("-18446744073709551616"));
    let mut c = BigInt::zero();
    naive_add(&mut c, &big("-7"));
    assert_eq!(c, big("-7"));
}
