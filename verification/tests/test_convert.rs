use std::fmt::Debug;

use fixnum::layout::Layout;
use fixnum::ops::Bounded;
use fixnum::{FixedPoint, FitsIn, Precision, U18, U9};

fn fp<I, P>(s: &str) -> FixedPoint<I, P>
where
    I: Layout,
    P: FitsIn<I>,
{
    match s.parse() {
        Ok(v) => v,
        Err(_) => panic!("cannot parse {}", s),
    }
}

fn check_from_decimal<I, P>(mantissa: I, exponent: i32, expected: &str)
where
    I: Layout + Debug + PartialEq + std::ops::Neg<Output = I>,
    P: FitsIn<I> + Debug + PartialEq,
{
    let expected: FixedPoint<I, P> = fp(expected);
    assert_eq!(FixedPoint::<I, P>::from_decimal(mantissa, exponent), Ok(expected));
    assert_eq!(FixedPoint::<I, P>::from_decimal(-mantissa, exponent), expected.cneg().map_err(|_| unreachable!()));
}

#[test]
fn from_decimal() {
    check_from_decimal::<i64, U9>(5_000_000_000, -9, "5");
    check_from_decimal::<i64, U9>(1, 0, "1");
    check_from_decimal::<i64, U9>(1, 1, "10");
    check_from_decimal::<i128, U18>(5_000_000_000, -9, "5");
    check_from_decimal::<i128, U18>(1, 0, "1");
    check_from_decimal::<i128, U18>(1, 1, "10");
    check_from_decimal::<i128, U18>(5_000_000_000_000_000_000, -18, "5");
}

fn check_to_decimal<I, P>(x: FixedPoint<I, P>, max_exponent: i32, expected: (I, i32))
where
    I: Layout + Debug + PartialEq + std::ops::Neg<Output = I> + Copy,
    P: FitsIn<I> + Debug + PartialEq,
{
    let (mantissa, exponent) = x.to_decimal(max_exponent);
    assert!(exponent <= max_exponent);
    assert_eq!((mantissa, exponent), expected);

    let (mantissa, exponent) = x.cneg().unwrap().to_decimal(max_exponent);
    assert!(exponent <= max_exponent);
    assert_eq!((mantissa, exponent), (-expected.0, expected.1));
}

fn to_decimal_all<I, P>(small: fn(i64) -> I)
where
    I: Layout + Debug + PartialEq + std::ops::Neg<Output = I> + Copy,
    P: FitsIn<I> + Debug + PartialEq,
{
    let f = fp::<I, P>;
    let c = check_to_decimal::<I, P>;
    c(f("0"), 0, (small(0), 0));
    c(f("0"), -5, (small(0), -5));
    c(f("0"), 5, (small(0), 0));
    c(f("50"), 0, (small(50), 0));
    c(f("50"), 1, (small(5), 1));
    c(f("50"), 5, (small(5), 1));
    c(f("50"), i32::MAX, (small(5), 1));
    c(f("50"), -2, (small(5000), -2));
    c(f("5.5"), 0, (small(55), -1));
    c(f("5.5"), 1, (small(55), -1));
    c(f("5.5"), 5, (small(55), -1));
    c(f("5.5"), -1, (small(55), -1));
    c(f("5.5"), -2, (small(550), -2));
    let max = FixedPoint::<I, P>::max_value();
    c(max, 0, (max.into_bits(), -FixedPoint::<I, P>::precision()));
}

#[test]
fn to_decimal() {
    to_decimal_all::<i64, U9>(|x| x);
    to_decimal_all::<i128, U18>(|x| i128::from(x));
}

#[test]
fn decimal_round_trip_examples() {
    type Fp128 = FixedPoint<i128, U18>;
    for bits in [0i128, 1, -1, 123_450_000, -987_600_000_000_000_000, i128::MAX / 1000 * 1000].iter() {
        let expected = Fp128::from_bits(*bits);
        for max_exponent in -18..=5 {
            let (mantissa, exponent) = expected.to_decimal(max_exponent);
            assert!(-18 <= exponent && exponent <= max_exponent);
            assert_eq!(Fp128::from_decimal(mantissa, exponent), Ok(expected));
            if mantissa != 0 && exponent != max_exponent {
                assert_ne!(mantissa % 10, 0);
            }
        }
    }
}
