use std::cmp::Ordering;
use std::convert::{TryFrom, TryInto};

use fixnum::errors::ArithmeticError;
use fixnum::fixed_point_128::i256::I256 as I256For128;
use fixnum::i256::I256;
use fixnum::i256_polyfill::i256;

#[test]
fn test_u0() {
    assert_eq!(I256For128::u0().try_into(), Ok(0i128));
}

#[test]
fn test_p1() {
    assert_eq!(I256For128::p1().try_into(), Ok(1i128));
}

#[test]
fn test_p10() {
    assert_eq!(I256For128::p10().try_into(), Ok(10i128));
}

#[test]
fn i256_test_i128_min() {
    assert_eq!(I256::i128_min().try_into(), Ok(i128::MIN));
    assert_eq!(I256For128::i128_min().try_into(), Ok(i128::MIN));
}

#[test]
fn i256_test_i128_max() {
    assert_eq!(I256::i128_max().try_into(), Ok(i128::MAX));
    assert_eq!(I256For128::i128_max().try_into(), Ok(i128::MAX));
}

#[test]
fn i256_test_mul() {
    let n5: I256 = 5.into();
    let n7: I256 = 7.into();
    assert_eq!(n5.mul(n7), Ok(35.into()));

    let m5: I256For128 = 5.into();
    let m7: I256For128 = 7.into();
    assert_eq!(m5.mul(m7), Ok(35.into()));
}

#[test]
fn i256_test_i256_from_i128() {
    fn test_i128(x: i128) {
        assert_eq!(i128::try_from(I256::from(x)), Ok(x));
        assert_eq!(i128::try_from(I256For128::from(x)), Ok(x));
    }
    test_i128(0);
    test_i128(1);
    test_i128(-1);
    test_i128(i128::MAX);
    test_i128(i128::MAX - 1);
    test_i128(i128::MIN);
    test_i128(i128::MIN + 1);
}

#[test]
fn i256_from_u64_and_mul_overflow() {
    let big = I256::from(i128::MAX);
    assert_eq!(big.mul(big).map(|_| ()), Ok(()));
    let product = big.mul(big).unwrap();
    assert_eq!(product.mul(big), Err(ArithmeticError::Overflow));
    assert_eq!(i128::try_from(I256::from_u64(u64::MAX)), Ok(18446744073709551615i128));
    assert_eq!(i128::try_from(product), Err(ArithmeticError::Overflow));
}

#[test]
fn i256_negative_mul_and_i128_edges() {
    let a: I256 = (-6).into();
    let b: I256 = 7.into();
    assert_eq!(a.mul(b), Ok((-42).into()));
    assert_eq!(a.mul(a), Ok(36.into()));
    let zero: I256 = 0.into();
    assert_eq!(zero.mul(a), Ok(0.into()));
    assert_eq!(a.mul(zero), Ok(0.into()));
    // `-2^126 * 2` is `i128::MIN`; one less is out of range.
    let half: I256 = (-(1i128 << 126)).into();
    let min = half.mul(2.into()).unwrap();
    assert_eq!(min, I256::i128_min());
    assert_eq!(i128::try_from(min), Ok(i128::MIN));
    assert_eq!(i128::try_from(min.sub(1.into())), Err(ArithmeticError::Overflow));
    assert_eq!(i128::try_from(I256::i128_max().sub((-1).into())), Err(ArithmeticError::Overflow));
    let m: I256 = (-i128::MAX).into();
    assert_eq!(i128::try_from(m.sub(1.into())), Ok(i128::MIN));
}

#[test]
fn i256_mul_reports_signed_overflow() {
    // 2^127 * 2^127 = 2^254 fits; 2^254 * 2 = 2^255 does not, but -2^255 does.
    let p127 = I256::i128_max().sub((-1).into());
    let p254 = p127.mul(p127).unwrap();
    let two: I256 = 2.into();
    let minus_two: I256 = (-2).into();
    assert_eq!(p254.mul(two), Err(ArithmeticError::Overflow));
    let least = p254.mul(minus_two).unwrap();
    assert_eq!(least.mul(1.into()), Ok(least));
    assert_eq!(least.mul((-1).into()), Err(ArithmeticError::Overflow));
    assert_eq!(p254.mul(p254), Err(ArithmeticError::Overflow));
}

#[test]
fn i256_div_and_sub() {
    let a: I256 = (-35).into();
    let b: I256 = 5.into();
    assert_eq!(i128::try_from(a.div(b)), Ok(-7));
    assert_eq!(i128::try_from(b.div(2.into())), Ok(2));
    let c: I256 = (-5).into();
    let seven: I256 = 7.into();
    assert_eq!(i128::try_from(c.div(seven)), Ok(0));
    let zero: I256 = 0.into();
    assert_eq!(i128::try_from(zero.div((-1).into())), Ok(0));
    let d: I256 = (-3).into();
    assert_eq!(i128::try_from(c.sub(d)), Ok(-2));
    let e: I256 = 3.into();
    assert_eq!(i128::try_from(c.sub(e)), Ok(-8));
    let five: I256 = 5.into();
    assert_eq!(i128::try_from(five.sub(d)), Ok(8));
    assert_eq!(i128::try_from(I256::from(4321).sub((-1111).into())), Ok(5432));
    assert_eq!(zero.neg(), zero);
    assert_eq!(five.neg().neg(), five);
}

#[test]
fn bounds_i128() {
    assert_eq!(i128::try_from(i256::from(i128::MIN)).unwrap(), i128::MIN);
    assert_eq!(i128::try_from(i256::from(i128::MAX)).unwrap(), i128::MAX);
}

#[test]
fn cmp() {
    fn t(a: i128, b: i128, ord: Ordering) {
        let a = i256::from(a);
        let b = i256::from(b);
        assert_eq!(a.cmp(&b), ord);
        assert_eq!(b.cmp(&a), ord.reverse());
    }
    t(5, 3, Ordering::Greater);
    t(-5, -5, Ordering::Equal);
    t(0, -5, Ordering::Greater);
}

#[test]
fn from_i128() {
    fn t(x: i128) {
        assert_eq!(i128::try_from(i256::from(x)).unwrap(), x);
    }
    t(0);
    t(1);
    t(-1);
    t(i128::MAX);
    t(i128::MAX - 1);
    t(i128::MIN);
    t(i128::MIN + 1);
}

#[test]
fn neg_i128() {
    fn t(x: i128) {
        assert_eq!(i128::try_from(i256::from(x).neg()).unwrap(), -x);
        assert_eq!(i128::try_from(i256::from(-x).neg()).unwrap(), x);
    }
    t(0);
    t(1);
    t(1234);
    t(123_456_789_987);
}

#[test]
fn neg_i256() {
    fn t(value: i256, expected: i256) {
        let actual: i256 = value.neg();
        assert_eq!(actual, expected);
        assert_eq!(actual.neg(), value);
    }
    t(i256::new(u128::MAX, i128::MAX), i256::new(1, i128::MIN));
    t(
        i256::new(u128::MAX / 2, i128::MAX / 2),
        i256::new(u128::MAX / 2 + 2, i128::MIN / 2),
    );
}

#[test]
fn add() {
    fn t(a: i128, b: i128, expected: i128) {
        let a = i256::from(a);
        let b = i256::from(b);
        assert_eq!(i128::try_from(a.add(b)).unwrap(), expected);
        assert_eq!(i128::try_from(b.add(a)).unwrap(), expected);
        assert_eq!(i128::try_from(a.neg().add(b.neg())).unwrap(), -expected);
        assert_eq!(i128::try_from(b.neg().add(a.neg())).unwrap(), -expected);
    }
    t(0, 0, 0);
    t(1111, 3210, 4321);
    t(-1111, 5432, 4321);
    t(-4321, 5432, 1111);
}

#[test]
fn sub() {
    fn t(a: i128, b: i128, expected: i128) {
        let a = i256::from(a);
        let b = i256::from(b);
        assert_eq!(i128::try_from(a.sub(b)).unwrap(), expected);
        assert_eq!(i128::try_from(b.sub(a)).unwrap(), -expected);
        assert_eq!(i128::try_from(a.neg().sub(b.neg())).unwrap(), -expected);
        assert_eq!(i128::try_from(b.neg().sub(a.neg())).unwrap(), expected);
    }
    t(0, 0, 0);
    t(4321, 1111, 3210);
    t(4321, -1111, 5432);
    t(1111, -4321, 5432);
}

#[test]
fn mul() {
    fn t(a: i128, b: i128, expected: i128) {
        let a = i256::from(a);
        let b = i256::from(b);
        assert_eq!(i128::try_from(a.mul(b)).unwrap(), expected);
        assert_eq!(i128::try_from(b.mul(a)).unwrap(), expected);
        assert_eq!(i128::try_from(a.neg().mul(b.neg())).unwrap(), expected);
        assert_eq!(i128::try_from(b.neg().mul(a.neg())).unwrap(), expected);
    }
    t(0, 0, 0);
    t(7, 5, 35);
    t(-7, 5, -35);
}

#[test]
fn div() {
    fn t(a: i128, b: i128, expected: i128) {
        let a = i256::from(a);
        let b = i256::from(b);
        assert_eq!(i128::try_from(a.div(b)).unwrap(), expected);
        assert_eq!(i128::try_from(a.neg().div(b.neg())).unwrap(), expected);
    }
    t(0, 1, 0);
    t(35, 5, 7);
    t(-35, 5, -7);
}

#[test]
fn polyfill_to_i64_range() {
    assert_eq!(i64::try_from(i256::from(i64::MIN)), Ok(i64::MIN));
    assert!(i64::try_from(i256::from(i128::from(i64::MAX) + 1)).is_err());
    assert!(i128::try_from(i256::new(0, 1)).is_err());
}

#[test]
fn i256_mul_operator_wraps() {
    let a: I256 = 5.into();
    let b: I256 = (-7).into();
    assert_eq!(a * b, I256::from(-35));
    let zero: I256 = 0.into();
    assert_eq!(b * zero, zero);
    // 2^254 * 2 = 2^255 wraps to -2^255, where the checked `mul` reports overflow.
    let p127 = I256::i128_max().sub((-1).into());
    let p254 = p127 * p127;
    let two: I256 = 2.into();
    let minus_two: I256 = (-2).into();
    assert_eq!(p254 * two, p254 * minus_two);
    assert_eq!(p254.mul(two), Err(ArithmeticError::Overflow));
}
