use std::fmt::Debug;

use fixnum::layout::Layout;
use fixnum::{ConvertError, FixedPoint, FitsIn, U18, U9};

fn exact_and_inexact<I, P>(input: &str, expected: I)
where
    I: Layout + Debug + PartialEq,
    P: FitsIn<I> + Debug + PartialEq,
{
    let expected = FixedPoint::<I, P>::from_bits(expected);
    let exact = FixedPoint::<I, P>::from_str_exact(input);
    assert_eq!(exact, Ok(expected), "exact '{}'", input);
    // A rounding version must return same result.
    let inexact: Result<FixedPoint<I, P>, ConvertError> = input.parse();
    assert_eq!(inexact, Ok(expected), "inexact '{}'", input);
    // The text of the number is read back as the number.
    let text = expected.to_string();
    assert_eq!(FixedPoint::<I, P>::from_str_exact(&text), Ok(expected));
}

#[test]
#[allow(overflowing_literals)]
fn from_good_str_exact() {
    let c = exact_and_inexact::<i64, U9>;
    c("1", 1000000000);
    c("1.1", 1100000000);
    c("1.02", 1020000000);
    c("-1.02", -1020000000);
    c("+1.02", 1020000000);
    c("0.1234", 123400000);
    c("-0.1234", -123400000);
    c("123456789.123456789", 123456789123456789);
    c("9223372036.854775807", 9223372036854775807);
    c("-9223372036.854775808", -9223372036854775808);
    let c = exact_and_inexact::<i128, U18>;
    c("1", 1000000000000000000);
    c("1.1", 1100000000000000000);
    c("1.02", 1020000000000000000);
    c("-1.02", -1020000000000000000);
    c("+1.02", 1020000000000000000);
    c("0.1234", 123400000000000000);
    c("-0.1234", -123400000000000000);
    c("123456789.123456789", 123456789123456789000000000);
    c("9223372036.854775807", 9223372036854775807000000000);
    c("-9223372036.854775808", -9223372036854775808000000000);
    c(
        "170141183460469231731.687303715884105727",
        170141183460469231731687303715884105727,
    );
    c(
        "-170141183460469231731.687303715884105728",
        -170141183460469231731687303715884105728,
    );
}

fn check_inexact<I, P>(input: &str, expected: I)
where
    I: Layout + Debug + PartialEq,
    P: FitsIn<I> + Debug + PartialEq,
{
    let expected = FixedPoint::<I, P>::from_bits(expected);
    let inexact: Result<FixedPoint<I, P>, ConvertError> = input.parse();
    assert_eq!(inexact, Ok(expected), "inexact '{}'", input);
    // An exact version must fail.
    let exact = FixedPoint::<I, P>::from_str_exact(input);
    assert!(exact.is_err(), "exact must not parse '{}'", input);
}

fn inexact_both_signs<I, P>(input: &str, expected: I)
where
    I: Layout + Debug + PartialEq + std::ops::Neg<Output = I> + Copy,
    P: FitsIn<I> + Debug + PartialEq,
{
    check_inexact::<I, P>(input, expected);
    check_inexact::<I, P>(&format!("-{}", input), -expected);
}

#[test]
fn from_good_str_inexact() {
    let c = inexact_both_signs::<i64, U9>;
    c("13.0000000000000000001", 13000000000);
    c("13.0000000000000000005", 13000000000);
    c("13.0000000001", 13000000000);
    c("13.0000000005", 13000000001);
    c("13.0000000009", 13000000001);
    c("13.1000000001", 13100000000);
    c("13.1000000005", 13100000001);
    c("13.1000000009", 13100000001);
    c(
        "13.9999999999999999999999999999999999999999999999999999999999999",
        14000000000,
    );
    c("9223372036.8547758071", 9223372036854775807);
    let c = inexact_both_signs::<i128, U18>;
    c("13.0000000000000000001", 13000000000000000000);
    c("13.0000000000000000005", 13000000000000000001);
    c("13.0000000000000000009", 13000000000000000001);
    c(
        "13.9999999999999999999999999999999999999999999999999999999999999",
        14000000000000000000,
    );
    c(
        "170141183460469231731.6873037158841057271",
        170141183460469231731687303715884105727,
    );
}

fn check_bad<I, P>(bad_str: &str)
where
    I: Layout + Debug + PartialEq,
    P: FitsIn<I> + Debug + PartialEq,
{
    let exact = FixedPoint::<I, P>::from_str_exact(bad_str);
    let inexact: Result<FixedPoint<I, P>, ConvertError> = bad_str.parse();
    assert!(exact.is_err(), "exact must not parse '{}'", bad_str);
    assert!(inexact.is_err(), "inexact must not parse '{}'", bad_str);
}

#[test]
fn from_bad_str() {
    let all = [
        "",
        "7.02e5",
        "a.12",
        "12.a",
        "100000000000000000000000",
        "170141183460469231731687303715.884105728",
        "170141183460469231731.687303715884105728",
        "170141183460469231731.6873037158841057275",
        "-170141183460469231731.687303715884105729",
        "-170141183460469231731.6873037158841057285",
    ];
    for s in all.iter() {
        check_bad::<i64, U9>(s);
        check_bad::<i128, U18>(s);
    }
    for s in [
        "9223372036.854775808",
        "9223372036.8547758075",
        "-9223372036.854775809",
        "-9223372036.8547758085",
    ]
    .iter()
    {
        check_bad::<i64, U9>(s);
    }
}

fn check_display<I, P>(x: &str, expected: &str)
where
    I: Layout + Debug + PartialEq,
    P: FitsIn<I> + Debug + PartialEq,
{
    let x: FixedPoint<I, P> = match x.parse() {
        Ok(v) => v,
        Err(_) => panic!("cannot parse {}", x),
    };
    assert_eq!(x.to_string(), expected);
}

#[test]
fn test_convert_string_display_and_serde() {
    let all = [
        ("0", "0.0"),
        ("42", "42.0"),
        ("10.042", "10.042"),
        ("-10.042", "-10.042"),
        ("0.000000001", "0.000000001"),
        ("-0.000000001", "-0.000000001"),
        ("9223372036.854775807", "9223372036.854775807"),
        ("-9223372036.854775808", "-9223372036.854775808"),
    ];
    for (x, e) in all.iter() {
        check_display::<i64, U9>(x, e);
        check_display::<i128, U18>(x, e);
    }
    let c = check_display::<i128, U18>;
    c("0.000000000000000001", "0.000000000000000001");
    c("-0.000000000000000001", "-0.000000000000000001");
    c(
        "170141183460469231731.687303715884105727",
        "170141183460469231731.687303715884105727",
    );
    c(
        "-170141183460469231731.687303715884105728",
        "-170141183460469231731.687303715884105728",
    );
}

#[test]
fn parse_trims_whitespace_and_reports_reasons() {
    type Fp64 = FixedPoint<i64, U9>;
    assert_eq!(Fp64::from_str_exact("  1.5\t\n"), Ok(Fp64::from_bits(1_500_000_000)));
    let reason = |s: &str| Fp64::from_str_exact(s).unwrap_err().as_str();
    assert_eq!(reason("x"), "can't parse integer");
    assert_eq!(reason("1x.5"), "can't parse integral part");
    assert_eq!(reason("1.5x"), "can't parse fractional part: must contain digits only");
    assert_eq!(reason("1.0000000001"), "requested precision is too high");
    assert_eq!(reason("1."), "can't parse fractional part");
    assert_eq!(reason("9300000000.5"), "too big integral");
    assert_eq!(reason("9300000000"), "too big number");
    let rounded: Fp64 = "1.00000000049".parse().unwrap();
    assert_eq!(rounded, Fp64::from_bits(1_000_000_000));
    let rounded: Fp64 = "-1.0000000005".parse().unwrap();
    assert_eq!(rounded, Fp64::from_bits(-1_000_000_001));
}

#[test]
fn display_of_integral_precision() {
    type Fp0 = FixedPoint<i64, fixnum::U0>;
    assert_eq!(Fp0::from_bits(-42).to_string(), "-42.0");
    assert_eq!(Fp0::from_bits(i64::MIN).to_string(), "-9223372036854775808.0");
    type Fp128P0 = FixedPoint<i128, fixnum::U0>;
    assert_eq!(
        Fp128P0::from_bits(i128::MIN).to_string(),
        "-170141183460469231731687303715884105728.0"
    );
    // With no decimal places the text is not read back exactly.
    assert!(Fp0::from_str_exact("-42.0").is_err());
}

#[test]
fn to_string_parse_round_trip() {
    type Fp64 = FixedPoint<i64, U9>;
    type Fp128 = FixedPoint<i128, U18>;
    for bits in [0i64, 1, -1, 1_500_000_000, -123_456_789_012, i64::MAX, i64::MIN] {
        let x = Fp64::from_bits(bits);
        let text = x.to_string();
        assert_eq!(text.parse::<Fp64>(), Ok(x));
        assert_eq!(Fp64::from_str_exact(&text), Ok(x));
    }
    for bits in [0i128, 7, -7, i128::MAX, i128::MIN] {
        let x = Fp128::from_bits(bits);
        let text = x.to_string();
        assert_eq!(text.parse::<Fp128>(), Ok(x));
        assert_eq!(Fp128::from_str_exact(&text), Ok(x));
    }
}
