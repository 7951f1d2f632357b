use std::convert::TryFrom;

use fixnum::ops::{Bounded, CheckedAdd, RoundMode, RoundingDiv, RoundingMul};
use fixnum::{ArithmeticError, FixedPoint, U2, U4, U9};

type Fp16 = FixedPoint<i16, U4>;
type Fp16Cents = FixedPoint<i16, U2>;
type Fp32 = FixedPoint<i32, U9>;

fn fp16(s: &str) -> Fp16 {
    s.parse().unwrap()
}

fn fp32(s: &str) -> Fp32 {
    s.parse().unwrap()
}

#[test]
fn i16_layout_parses_and_prints() {
    assert_eq!(fp16("1.5").into_bits(), 15000);
    assert_eq!(fp16("-3.2767").into_bits(), -32767);
    assert_eq!(fp16("3.2767").to_string(), "3.2767");
    assert_eq!(fp16("-0.0001").to_string(), "-0.0001");
    assert_eq!(Fp16::max_value().to_string(), "3.2767");
    assert_eq!(Fp16::min_value().to_string(), "-3.2768");
    assert!(Fp16::from_str_exact("3.2768").is_err());
    assert_eq!(fp16("0.00005").into_bits(), 1);
    assert_eq!(Fp16Cents::from_str_exact("327.67").unwrap().into_bits(), 32767);
}

#[test]
fn i16_layout_arithmetic() {
    let a = fp16("1.5");
    let b = fp16("2");
    assert_eq!(a.rmul(b, RoundMode::Floor), Ok(fp16("3")));
    assert_eq!(b.rmul(b, RoundMode::Floor), Err(ArithmeticError::Overflow));
    assert_eq!(fp16("1").rdiv(fp16("3"), RoundMode::Floor), Ok(fp16("0.3333")));
    assert_eq!(fp16("1").rdiv(fp16("3"), RoundMode::Ceil), Ok(fp16("0.3334")));
    assert_eq!(fp16("1").rdiv(fp16("0"), RoundMode::Ceil), Err(ArithmeticError::DivisionByZero));
    assert_eq!(fp16("3").cadd(fp16("0.2767")), Ok(Fp16::max_value()));
    assert_eq!(fp16("3").cadd(fp16("0.2768")), Err(ArithmeticError::Overflow));
    assert_eq!(fp16("2").rsqrt(RoundMode::Floor), Ok(fp16("1.4142")));
    assert_eq!(fp16("2").rsqrt(RoundMode::Ceil), Ok(fp16("1.4143")));
    assert_eq!(Fp16::try_from(3i64), Ok(fp16("3")));
    assert!(Fp16::try_from(4i64).is_err());
}

#[test]
fn i32_layout_arithmetic() {
    assert_eq!(fp32("2.147483647").into_bits(), i32::MAX);
    assert_eq!(fp32("-1.5").to_string(), "-1.5");
    let a = fp32("1.5");
    assert_eq!(a.rmul(fp32("0.5"), RoundMode::Floor), Ok(fp32("0.75")));
    assert_eq!(a.rmul(a, RoundMode::Floor), Err(ArithmeticError::Overflow));
    assert_eq!(fp32("0.1").rdiv(fp32("0.3"), RoundMode::Nearest), Ok(fp32("0.333333333")));
    assert!("3".parse::<Fp32>().is_err());
    assert_eq!(fp32("2").rsqrt(RoundMode::Nearest), Ok(fp32("1.414213562")));
    assert_eq!(Fp32::from_decimal(15, -1), Ok(a));
    assert_eq!(a.to_decimal(0), (15, -1));
}
