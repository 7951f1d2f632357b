use std::convert::TryFrom;

use fixnum::i256_polyfill::i256;
use fixnum::ops::{Bounded, CheckedAdd, CheckedSub, One, RoundMode, RoundingDiv, Zero};
use fixnum::{ArithmeticError, FixedPoint, U18, U9};

type Fp64 = FixedPoint<i64, U9>;
type Fp128 = FixedPoint<i128, U18>;

#[test]
fn arithmetic_error_messages() {
    assert_eq!(ArithmeticError::Overflow.as_str(), "overflow");
    assert_eq!(ArithmeticError::DivisionByZero.as_str(), "division by zero");
    assert_eq!(ArithmeticError::DomainViolation.as_str(), "domain violation");
}

#[test]
fn from_decimal_errors() {
    assert_eq!(
        Fp64::from_decimal(1, -10).unwrap_err().as_str(),
        "unsupported exponent"
    );
    assert_eq!(
        Fp64::from_decimal(1, 11).unwrap_err().as_str(),
        "unsupported exponent"
    );
    assert_eq!(
        Fp64::from_decimal(i64::MAX, 0).unwrap_err().as_str(),
        "too big mantissa"
    );
    assert_eq!(Fp64::from_decimal(-25, -1), Ok(Fp64::from_bits(-2_500_000_000)));
}

#[test]
fn try_from_integers() {
    assert_eq!(Fp64::try_from(7i8), Ok(Fp64::from_bits(7_000_000_000)));
    assert_eq!(Fp64::try_from(-7i64), Ok(Fp64::from_bits(-7_000_000_000)));
    assert_eq!(Fp64::try_from(9_223_372_036u64), Ok(Fp64::from_bits(9_223_372_036_000_000_000)));
    assert_eq!(
        Fp64::try_from(9_223_372_037u64).unwrap_err().as_str(),
        "too big number"
    );
    assert_eq!(Fp64::try_from(u128::MAX).unwrap_err().as_str(), "too big number");
    assert_eq!(Fp128::try_from(i128::MIN).unwrap_err().as_str(), "too big number");
    assert_eq!(Fp128::try_from(5usize), Ok(Fp128::from_bits(5_000_000_000_000_000_000)));
}

#[test]
fn checked_operations() {
    let max = Fp64::max_value();
    let eps = Fp64::epsilon();
    assert_eq!(max.cadd(eps), Err(ArithmeticError::Overflow));
    assert_eq!(Fp64::min_value().csub(eps), Err(ArithmeticError::Overflow));
    assert_eq!(Fp64::min_value().cneg(), Err(ArithmeticError::Overflow));
    assert_eq!(Fp64::min_value().abs(), Err(ArithmeticError::Overflow));
    assert_eq!(Fp64::one().cadd(Fp64::one()), Ok(Fp64::from_bits(2_000_000_000)));
    assert_eq!(Fp64::zero().csub(Fp64::one()), Ok(Fp64::from_bits(-1_000_000_000)));
    assert_eq!(Fp64::from_bits(-5).abs(), Ok(Fp64::from_bits(5)));
    assert_eq!(Fp64::from_bits(-5).signum(), -1);
    assert_eq!(Fp64::from_bits(0).signum(), 0);
    assert_eq!(Fp64::from_bits(3).signum(), 1);
    assert_eq!(Fp64::precision(), 9);
    assert_eq!(Fp128::precision(), 18);
    assert_eq!(i64::MIN.rdiv(-1, RoundMode::Floor), Err(ArithmeticError::Overflow));
    assert_eq!(7i64.rdiv(0, RoundMode::Ceil), Err(ArithmeticError::DivisionByZero));
}

#[test]
fn reciprocal_and_rounding_to_integers() {
    let three: Fp64 = "3".parse().unwrap();
    assert_eq!(three.recip(RoundMode::Floor), Ok(Fp64::from_bits(333_333_333)));
    assert_eq!(three.recip(RoundMode::Ceil), Ok(Fp64::from_bits(333_333_334)));
    assert_eq!(Fp64::zero().recip(RoundMode::Ceil), Err(ArithmeticError::DivisionByZero));
    let x: Fp64 = "-2.5".parse().unwrap();
    assert_eq!(x.floor(), "-3".parse().unwrap());
    assert_eq!(x.ceil(), "-2".parse().unwrap());
    assert_eq!(x.round(), "-3".parse().unwrap());
    let y: Fp64 = "2.4".parse().unwrap();
    assert_eq!(y.round(), "2".parse().unwrap());
}

#[test]
fn polyfill_shifts_and_range() {
    let x = i256::from(5i128);
    assert_eq!(i128::try_from(x.shl(3)), Ok(40));
    assert_eq!(i128::try_from(i256::from(-41i128).shr(3)), Ok(-6));
    assert_eq!(i128::try_from(i256::min_value()).unwrap_err().as_str(), "not in range");
    assert_eq!(i64::try_from(i256::from(-3i8)), Ok(-3));
}
