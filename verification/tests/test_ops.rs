use std::convert::TryInto;
use std::fmt::Debug;

use fixnum::layout::Layout;
use fixnum::ops::{
    Bounded, CheckedAdd, CheckedMul, CheckedSub, One, RoundMode, RoundingDiv, RoundingMul, Zero,
};
use fixnum::{ArithmeticError, FixedPoint, FitsIn, U18, U9};

type Fp64 = FixedPoint<i64, U9>;
type Fp128 = FixedPoint<i128, U18>;

const FLOOR: RoundMode = RoundMode::Floor;
const NEAREST: RoundMode = RoundMode::Nearest;
const CEIL: RoundMode = RoundMode::Ceil;

fn fp<I, P>(s: &str) -> FixedPoint<I, P>
where
    I: Layout,
    P: FitsIn<I>,
{
    match s.parse() {
        Ok(v) => v,
        Err(_) => panic!("cannot parse {}", s),
    }
}

fn neg<I, P>(x: FixedPoint<I, P>) -> FixedPoint<I, P>
where
    I: Layout,
    P: FitsIn<I>,
{
    match x.cneg() {
        Ok(v) => v,
        Err(_) => panic!("cannot negate"),
    }
}

fn check_rmul_exact<I, P>(a: FixedPoint<I, P>, b: FixedPoint<I, P>, expected: FixedPoint<I, P>)
where
    I: Layout + Debug + PartialEq,
    P: FitsIn<I> + Debug + PartialEq,
{
    assert_eq!(a.rmul(b, FLOOR), Ok(expected), "Floor");
    assert_eq!(a.rmul(b, NEAREST), Ok(expected), "Nearest");
    assert_eq!(a.rmul(b, CEIL), Ok(expected), "Ceil");
    assert_eq!(b.rmul(a, FLOOR), Ok(expected), "Floor, commutative");
    assert_eq!(b.rmul(a, NEAREST), Ok(expected), "Nearest, commutative");
    assert_eq!(b.rmul(a, CEIL), Ok(expected), "Ceil, commutative");
}

#[test]
fn cmul_overflow() {
    assert_eq!(Fp64::max_value().cmul(i64::MAX), Err(ArithmeticError::Overflow));
    assert_eq!(Fp64::max_value().cmul(i64::MIN), Err(ArithmeticError::Overflow));
    assert_eq!(Fp128::max_value().cmul(i128::MAX), Err(ArithmeticError::Overflow));
    assert_eq!(Fp128::max_value().cmul(i128::MIN), Err(ArithmeticError::Overflow));
}

fn rmul_exact_all<I, P>()
where
    I: Layout + Debug + PartialEq,
    P: FitsIn<I> + Debug + PartialEq,
{
    let f = fp::<I, P>;
    check_rmul_exact(f("525"), f("10"), f("5250"));
    check_rmul_exact(f("-525"), f("10"), f("-5250"));
    check_rmul_exact(f("-525"), f("-10"), f("5250"));
    check_rmul_exact(f("525"), f("-10"), f("-5250"));
    check_rmul_exact(f("525"), f("0.0001"), f("0.0525"));
    check_rmul_exact(f("-525"), f("0.0001"), f("-0.0525"));
    check_rmul_exact(f("-525"), f("-0.0001"), f("0.0525"));
    let max = FixedPoint::<I, P>::max_value();
    let min = FixedPoint::<I, P>::min_value();
    let one = FixedPoint::<I, P>::one();
    check_rmul_exact(max, one, max);
    check_rmul_exact(min, one, min);
    check_rmul_exact(one, f("0.000000001"), f("0.000000001"));
    check_rmul_exact(f("-1"), f("-0.000000001"), f("0.000000001"));
}

#[test]
fn rmul_exact() {
    rmul_exact_all::<i64, U9>();
    rmul_exact_all::<i128, U18>();
    check_rmul_exact(
        Fp64::from_bits(i64::MAX / 10 * 10),
        fp("0.1"),
        Fp64::from_bits(i64::MAX / 10),
    );
    check_rmul_exact(
        Fp64::from_bits(i64::MIN / 10 * 10),
        fp("0.1"),
        Fp64::from_bits(i64::MIN / 10),
    );
    check_rmul_exact(
        Fp128::from_bits(i128::MAX / 10 * 10),
        fp("0.1"),
        Fp128::from_bits(i128::MAX / 10),
    );
    check_rmul_exact(
        Fp128::from_bits(i128::MIN / 10 * 10),
        fp("0.1"),
        Fp128::from_bits(i128::MIN / 10),
    );
    check_rmul_exact::<i128, U18>(
        fp("13043817825.332782"),
        fp("13043817825.332782"),
        fp("170141183460469226191.989043859524"),
    );
}

fn check_rmul_round<I, P>(a: &str, b: &str, floor: &str, nearest: &str, ceil: &str)
where
    I: Layout + Debug + PartialEq,
    P: FitsIn<I> + Debug + PartialEq,
{
    let a: FixedPoint<I, P> = fp(a);
    let b: FixedPoint<I, P> = fp(b);
    let (floor, nearest, ceil) = (fp(floor), fp(nearest), fp(ceil));
    assert_eq!(a.rmul(b, FLOOR), Ok(floor), "Floor");
    assert_eq!(a.rmul(b, NEAREST), Ok(nearest), "Nearest");
    assert_eq!(a.rmul(b, CEIL), Ok(ceil), "Ceil");
    assert_eq!(b.rmul(a, FLOOR), Ok(floor), "Floor, commutative");
    assert_eq!(b.rmul(a, NEAREST), Ok(nearest), "Nearest, commutative");
    assert_eq!(b.rmul(a, CEIL), Ok(ceil), "Ceil, commutative");
    assert_eq!(neg(b).rmul(neg(a), FLOOR), Ok(floor), "Floor, negation");
    assert_eq!(neg(b).rmul(neg(a), NEAREST), Ok(nearest), "Nearest, negation");
    assert_eq!(neg(b).rmul(neg(a), CEIL), Ok(ceil), "Ceil, negation");
}

#[test]
fn rmul_round() {
    let c = check_rmul_round::<i64, U9>;
    c("0.1", "0.000000001", "0", "0", "0.000000001");
    c("0.5", "0.000000001", "0", "0.000000001", "0.000000001");
    c("0.9", "0.000000001", "0", "0.000000001", "0.000000001");
    c("-0.1", "0.000000001", "-0.000000001", "0", "0");
    c("-0.5", "0.000000001", "-0.000000001", "-0.000000001", "0");
    c("-0.9", "0.000000001", "-0.000000001", "-0.000000001", "0");
    c("0.000000001", "0.000000001", "0", "0", "0.000000001");
    c("0.000000009", "0.000000001", "0", "0", "0.000000001");
    c("-0.000000001", "0.000000001", "-0.000000001", "0", "0");
    c("-0.000000009", "0.000000001", "-0.000000001", "0", "0");
    let c = check_rmul_round::<i128, U18>;
    let e = "0.000000000000000001";
    let me = "-0.000000000000000001";
    c("0.1", e, "0", "0", e);
    c("0.5", e, "0", e, e);
    c("0.9", e, "0", e, e);
    c("-0.1", e, me, "0", "0");
    c("-0.5", e, me, me, "0");
    c("-0.9", e, me, me, "0");
    c(e, e, "0", "0", e);
    c("0.000000000000000009", e, "0", "0", e);
    c(me, e, me, "0", "0");
    c("-0.000000000000000009", e, me, "0", "0");
}

#[test]
fn rmul_overflow() {
    assert_eq!(
        Fp64::max_value().rmul(fp("1.000000001"), CEIL),
        Err(ArithmeticError::Overflow)
    );
    assert_eq!(
        Fp128::max_value().rmul(fp("1.000000001"), CEIL),
        Err(ArithmeticError::Overflow)
    );
    let a: Fp64 = fp("96038.388349945");
    assert_eq!(a.rmul(a, CEIL), Err(ArithmeticError::Overflow));
    let a: Fp64 = fp("-97000");
    assert_eq!(a.rmul(fp("96100"), CEIL), Err(ArithmeticError::Overflow));
    assert_eq!(
        Fp128::max_value().rmul(fp("1.000000000000000001"), CEIL),
        Err(ArithmeticError::Overflow)
    );
    let a: Fp128 = fp("13043817825.332783");
    assert_eq!(a.rmul(a, CEIL), Err(ArithmeticError::Overflow));
    let a: Fp128 = fp("-13043817826");
    assert_eq!(a.rmul(fp("13043817826"), CEIL), Err(ArithmeticError::Overflow));
}

fn check_rdiv_exact<I, P>(n: FixedPoint<I, P>, d: FixedPoint<I, P>, expected: FixedPoint<I, P>)
where
    I: Layout + Debug + PartialEq,
    P: FitsIn<I> + Debug + PartialEq,
{
    assert_eq!(n.rdiv(d, CEIL), Ok(expected), "Ceil");
    assert_eq!(n.rdiv(d, NEAREST), Ok(expected), "Nearest");
    assert_eq!(n.rdiv(d, FLOOR), Ok(expected), "Floor");
}

fn rdiv_exact_all<I, P>()
where
    I: Layout + Debug + PartialEq,
    P: FitsIn<I> + Debug + PartialEq,
{
    let f = fp::<I, P>;
    let max = FixedPoint::<I, P>::max_value();
    check_rdiv_exact(max, max, FixedPoint::one());
    check_rdiv_exact(f("5"), f("2"), f("2.5"));
    check_rdiv_exact(f("-5"), f("2"), f("-2.5"));
    check_rdiv_exact(f("5"), f("-2"), f("-2.5"));
    check_rdiv_exact(f("-5"), f("-2"), f("2.5"));
    check_rdiv_exact(f("5"), f("0.2"), f("25"));
    check_rdiv_exact(f("0.00000001"), f("10"), f("0.000000001"));
    check_rdiv_exact(f("0.000000001"), f("0.1"), f("0.00000001"));
}

#[test]
fn rdiv_exact() {
    rdiv_exact_all::<i64, U9>();
    rdiv_exact_all::<i128, U18>();
    check_rdiv_exact::<i128, U18>(
        fp("0.00000000000000001"),
        fp("10"),
        fp("0.000000000000000001"),
    );
    check_rdiv_exact::<i128, U18>(
        fp("0.000000000000000001"),
        fp("0.1"),
        fp("0.00000000000000001"),
    );
}

fn check_rdiv_by_layout<I, P>(a: &str, b: I, floor: &str, nearest: &str, ceil: &str)
where
    I: Layout + Debug + PartialEq,
    P: FitsIn<I> + Debug + PartialEq,
{
    let a: FixedPoint<I, P> = fp(a);
    assert_eq!(a.rdiv(b, FLOOR), Ok(fp(floor)), "Floor");
    assert_eq!(a.rdiv(b, NEAREST), Ok(fp(nearest)), "Nearest");
    assert_eq!(a.rdiv(b, CEIL), Ok(fp(ceil)), "Ceil");
}

#[test]
fn rdiv_by_layout() {
    let c = check_rdiv_by_layout::<i64, U9>;
    c("2.4", 2, "1.2", "1.2", "1.2");
    c("0", 5, "0", "0", "0");
    c("7", 3, "2.333333333", "2.333333333", "2.333333334");
    c("-7", 3, "-2.333333334", "-2.333333333", "-2.333333333");
    c("-7", -3, "2.333333333", "2.333333333", "2.333333334");
    c("7", -3, "-2.333333334", "-2.333333333", "-2.333333333");
    c("0.000000003", 7, "0", "0", "0.000000001");
    c("0.000000001", 7, "0", "0", "0.000000001");
    c("14", 3, "4.666666666", "4.666666667", "4.666666667");
    c("-14", 3, "-4.666666667", "-4.666666667", "-4.666666666");
    c("-14", -3, "4.666666666", "4.666666667", "4.666666667");
    c("14", -3, "-4.666666667", "-4.666666667", "-4.666666666");
    c("0.000000003", 2, "0.000000001", "0.000000002", "0.000000002");
    c("-0.000000003", -2, "0.000000001", "0.000000002", "0.000000002");
    c("-0.000000003", 2, "-0.000000002", "-0.000000002", "-0.000000001");
    c("0.000000003", -2, "-0.000000002", "-0.000000002", "-0.000000001");
    let c = check_rdiv_by_layout::<i128, U18>;
    c("2.4", 2, "1.2", "1.2", "1.2");
    c("0", 5, "0", "0", "0");
    c("7", 3, "2.333333333333333333", "2.333333333333333333", "2.333333333333333334");
    c("-7", 3, "-2.333333333333333334", "-2.333333333333333333", "-2.333333333333333333");
    c("-7", -3, "2.333333333333333333", "2.333333333333333333", "2.333333333333333334");
    c("7", -3, "-2.333333333333333334", "-2.333333333333333333", "-2.333333333333333333");
    c("0.000000000000000003", 7, "0", "0", "0.000000000000000001");
    c("0.000000000000000001", 7, "0", "0", "0.000000000000000001");
    c("14", 3, "4.666666666666666666", "4.666666666666666667", "4.666666666666666667");
    c("-14", 3, "-4.666666666666666667", "-4.666666666666666667", "-4.666666666666666666");
    c("-14", -3, "4.666666666666666666", "4.666666666666666667", "4.666666666666666667");
    c("14", -3, "-4.666666666666666667", "-4.666666666666666667", "-4.666666666666666666");
    c(
        "0.000000000000000003",
        2,
        "0.000000000000000001",
        "0.000000000000000002",
        "0.000000000000000002",
    );
    c(
        "-0.000000000000000003",
        -2,
        "0.000000000000000001",
        "0.000000000000000002",
        "0.000000000000000002",
    );
    c(
        "-0.000000000000000003",
        2,
        "-0.000000000000000002",
        "-0.000000000000000002",
        "-0.000000000000000001",
    );
    c(
        "0.000000000000000003",
        -2,
        "-0.000000000000000002",
        "-0.000000000000000002",
        "-0.000000000000000001",
    );
}

fn check_rdiv_round<I, P>(n: &str, d: &str, ceil: &str, nearest: &str, floor: &str)
where
    I: Layout + Debug + PartialEq,
    P: FitsIn<I> + Debug + PartialEq,
{
    let n: FixedPoint<I, P> = fp(n);
    let d: FixedPoint<I, P> = fp(d);
    assert_eq!(n.rdiv(d, CEIL), Ok(fp(ceil)), "Ceil");
    assert_eq!(n.rdiv(d, NEAREST), Ok(fp(nearest)), "Nearest");
    assert_eq!(n.rdiv(d, FLOOR), Ok(fp(floor)), "Floor");
}

#[test]
fn rdiv_round() {
    check_rdiv_round::<i64, U9>("0", "42", "0", "0", "0");
    check_rdiv_round::<i128, U18>("0", "42", "0", "0", "0");
    let c = check_rdiv_round::<i64, U9>;
    c("100", "3", "33.333333334", "33.333333333", "33.333333333");
    c("-100", "-3", "33.333333334", "33.333333333", "33.333333333");
    c("-100", "3", "-33.333333333", "-33.333333333", "-33.333333334");
    c("100", "-3", "-33.333333333", "-33.333333333", "-33.333333334");
    c("200", "3", "66.666666667", "66.666666667", "66.666666666");
    c("-200", "-3", "66.666666667", "66.666666667", "66.666666666");
    c("-200", "3", "-66.666666666", "-66.666666667", "-66.666666667");
    c("200", "-3", "-66.666666666", "-66.666666667", "-66.666666667");
    c("0.000000003", "2", "0.000000002", "0.000000002", "0.000000001");
    c("-0.000000003", "-2", "0.000000002", "0.000000002", "0.000000001");
    c("-0.000000003", "2", "-0.000000001", "-0.000000002", "-0.000000002");
    c("0.000000003", "-2", "-0.000000001", "-0.000000002", "-0.000000002");
    let c = check_rdiv_round::<i128, U18>;
    c("100", "3", "33.333333333333333334", "33.333333333333333333", "33.333333333333333333");
    c("-100", "-3", "33.333333333333333334", "33.333333333333333333", "33.333333333333333333");
    c("-100", "3", "-33.333333333333333333", "-33.333333333333333333", "-33.333333333333333334");
    c("100", "-3", "-33.333333333333333333", "-33.333333333333333333", "-33.333333333333333334");
    c("200", "3", "66.666666666666666667", "66.666666666666666667", "66.666666666666666666");
    c("-200", "-3", "66.666666666666666667", "66.666666666666666667", "66.666666666666666666");
    c("-200", "3", "-66.666666666666666666", "-66.666666666666666667", "-66.666666666666666667");
    c("200", "-3", "-66.666666666666666666", "-66.666666666666666667", "-66.666666666666666667");
    c(
        "0.000000000000000003",
        "2",
        "0.000000000000000002",
        "0.000000000000000002",
        "0.000000000000000001",
    );
    c(
        "-0.000000000000000003",
        "-2",
        "0.000000000000000002",
        "0.000000000000000002",
        "0.000000000000000001",
    );
    c(
        "-0.000000000000000003",
        "2",
        "-0.000000000000000001",
        "-0.000000000000000002",
        "-0.000000000000000002",
    );
    c(
        "0.000000000000000003",
        "-2",
        "-0.000000000000000001",
        "-0.000000000000000002",
        "-0.000000000000000002",
    );
}

#[test]
fn rdiv_layout() {
    fn t64(a: i64, b: i64, floor: i64, ceil: i64) {
        assert_eq!(a.rdiv(b, FLOOR), Ok(floor));
        assert_eq!(a.rdiv(b, CEIL), Ok(ceil));
        assert_eq!(a.rdiv(-b, FLOOR), Ok(-ceil));
        assert_eq!((-a).rdiv(b, FLOOR), Ok(-ceil));
        assert_eq!(a.rdiv(-b, CEIL), Ok(-floor));
        assert_eq!((-a).rdiv(b, CEIL), Ok(-floor));
        assert_eq!((-a).rdiv(-b, FLOOR), Ok(floor));
        assert_eq!((-a).rdiv(-b, CEIL), Ok(ceil));
    }
    fn t128(a: i128, b: i128, floor: i128, ceil: i128) {
        assert_eq!(a.rdiv(b, FLOOR), Ok(floor));
        assert_eq!(a.rdiv(b, CEIL), Ok(ceil));
        assert_eq!(a.rdiv(-b, FLOOR), Ok(-ceil));
        assert_eq!((-a).rdiv(b, FLOOR), Ok(-ceil));
        assert_eq!(a.rdiv(-b, CEIL), Ok(-floor));
        assert_eq!((-a).rdiv(b, CEIL), Ok(-floor));
        assert_eq!((-a).rdiv(-b, FLOOR), Ok(floor));
        assert_eq!((-a).rdiv(-b, CEIL), Ok(ceil));
    }
    t64(5, 2, 2, 3);
    t64(0, 5, 0, 0);
    t128(5, 2, 2, 3);
    t128(0, 5, 0, 0);
}

fn rdiv_division_by_zero_all<I, P>()
where
    I: Layout + Debug + PartialEq,
    P: FitsIn<I> + Debug + PartialEq,
{
    let f = fp::<I, P>;
    let zero = FixedPoint::<I, P>::zero();
    let cases = [
        f("0"),
        f("1"),
        f("-1"),
        FixedPoint::<I, P>::max_value(),
        FixedPoint::<I, P>::min_value(),
    ];
    for x in cases.iter() {
        let expected = Err(ArithmeticError::DivisionByZero);
        assert_eq!(x.rdiv(zero, FLOOR), expected);
        assert_eq!(x.rdiv(zero, CEIL), expected);
    }
}

#[test]
fn rdiv_division_by_zero() {
    rdiv_division_by_zero_all::<i64, U9>();
    rdiv_division_by_zero_all::<i128, U18>();
}

#[test]
fn rdiv_overflow() {
    assert_eq!(
        Fp64::max_value().rdiv(fp("0.999999999"), CEIL),
        Err(ArithmeticError::Overflow)
    );
    assert_eq!(
        Fp128::max_value().rdiv(fp("0.999999999"), CEIL),
        Err(ArithmeticError::Overflow)
    );
    assert_eq!(
        Fp128::max_value().rdiv(fp("0.999999999999999999"), CEIL),
        Err(ArithmeticError::Overflow)
    );
}

fn float_mul_all<I, P>()
where
    I: Layout + Debug + PartialEq,
    P: FitsIn<I> + Debug + PartialEq,
{
    let f = fp::<I, P>;
    let max = FixedPoint::<I, P>::max_value();
    assert_eq!(f("525").rmul(f("10"), CEIL), Ok(f("5250")));
    assert_eq!(f("525").rmul(f("0.0001"), CEIL), Ok(f("0.0525")));
    assert_eq!(max.rmul(FixedPoint::one(), CEIL), Ok(max));
}

#[test]
fn float_mul() {
    float_mul_all::<i64, U9>();
    float_mul_all::<i128, U18>();
    assert_eq!(
        Fp64::from_bits(i64::MAX / 10 * 10).rmul(fp("0.1"), CEIL),
        Ok(Fp64::from_bits(i64::MAX / 10))
    );
    assert_eq!(
        Fp128::from_bits(i128::MAX / 10 * 10).rmul(fp("0.1"), CEIL),
        Ok(Fp128::from_bits(i128::MAX / 10))
    );
}

#[test]
fn float_mul_overflow() {
    let a: Fp64 = fp("140000");
    assert!(a.rmul(fp("140000"), CEIL).is_err());
    let a: Fp64 = fp("-140000");
    assert!(a.rmul(fp("140000"), CEIL).is_err());
    let a: Fp128 = fp("13043817826");
    assert!(a.rmul(fp("13043817825"), CEIL).is_err());
    let a: Fp128 = fp("-13043817826");
    assert!(a.rmul(fp("13043817825"), CEIL).is_err());
}

fn check_half_sum<I, P>(a: FixedPoint<I, P>, b: FixedPoint<I, P>, floor: FixedPoint<I, P>, ceil: FixedPoint<I, P>)
where
    I: Layout + Debug + PartialEq,
    P: FitsIn<I> + Debug + PartialEq,
{
    assert_eq!(FixedPoint::half_sum(a, b, FLOOR), floor);
    assert_eq!(FixedPoint::half_sum(b, a, FLOOR), floor);
    assert_eq!(FixedPoint::half_sum(a, b, CEIL), ceil);
    assert_eq!(FixedPoint::half_sum(b, a, CEIL), ceil);
}

fn half_sum_exact_all<I, P>()
where
    I: Layout + Debug + PartialEq,
    P: FitsIn<I> + Debug + PartialEq,
{
    let f = fp::<I, P>;
    let max = FixedPoint::<I, P>::max_value();
    let min = FixedPoint::<I, P>::min_value();
    for x in [f("0"), f("1"), f("-1"), max, min].iter() {
        assert_eq!(FixedPoint::half_sum(*x, *x, FLOOR), *x);
        assert_eq!(FixedPoint::half_sum(*x, *x, CEIL), *x);
    }
    let cases = [
        ("1", "3", "2"),
        ("1", "2", "1.5"),
        ("7.123456789", "7.123456783", "7.123456786"),
        ("9000", "9050", "9025"),
        ("9000", "-9000", "0"),
        ("9000000000", "9000000002", "9000000001"),
        ("9000000000.000000001", "-9000000000.000000005", "-0.000000002"),
    ];
    for (a, b, e) in cases.iter() {
        check_half_sum(f(a), f(b), f(e), f(e));
    }
    let above_min = match min.cadd(FixedPoint::epsilon()) {
        Ok(v) => v,
        Err(_) => panic!("MIN + EPSILON"),
    };
    check_half_sum(max, above_min, f("0"), f("0"));
}

#[test]
fn half_sum_exact() {
    half_sum_exact_all::<i64, U9>();
    half_sum_exact_all::<i128, U18>();
    let e: Fp128 = fp("7.123456789123456786");
    check_half_sum(fp("7.123456789123456789"), fp("7.123456789123456783"), e, e);
}

#[test]
fn half_sum_rounded() {
    check_half_sum(
        Fp64::min_value(),
        Fp64::max_value(),
        neg(Fp64::epsilon()),
        fp("0"),
    );
    check_half_sum(
        Fp128::min_value(),
        Fp128::max_value(),
        neg(Fp128::epsilon()),
        fp("0"),
    );
    check_half_sum::<i64, U9>(
        fp("9000000000.000000394"),
        fp("9000000001.000000397"),
        fp("9000000000.500000395"),
        fp("9000000000.500000396"),
    );
    check_half_sum::<i64, U9>(
        fp("9000000000.000000001"),
        fp("-9000000000.000000006"),
        fp("-0.000000003"),
        fp("-0.000000002"),
    );
    check_half_sum::<i64, U9>(
        fp("7.123456789"),
        fp("7.123456788"),
        fp("7.123456788"),
        fp("7.123456789"),
    );
    check_half_sum::<i128, U18>(
        fp("7.123456789123456789"),
        fp("7.123456789123456788"),
        fp("7.123456789123456788"),
        fp("7.123456789123456789"),
    );
}

fn integral_all<I, P>(small: fn(i64) -> I)
where
    I: Layout + Debug + PartialEq,
    P: FitsIn<I> + Debug + PartialEq,
{
    let cases: [(&str, i64, i64, i64); 13] = [
        ("0", 0, 0, 0),
        ("0.0001", 0, 1, 0),
        ("0.5", 0, 1, 1),
        ("0.9", 0, 1, 1),
        ("-0.0001", -1, 0, 0),
        ("-0.5", -1, 0, -1),
        ("-0.9", -1, 0, -1),
        ("2.0001", 2, 3, 2),
        ("2.5", 2, 3, 3),
        ("2.9", 2, 3, 3),
        ("-2.0001", -3, -2, -2),
        ("-2.5", -3, -2, -3),
        ("-2.9", -3, -2, -3),
    ];
    for (a, floor, ceil, nearest) in cases.iter() {
        let a: FixedPoint<I, P> = fp(a);
        assert_eq!(a.integral(FLOOR), small(*floor), "Floor");
        assert_eq!(a.integral(NEAREST), small(*nearest), "Nearest");
        assert_eq!(a.integral(CEIL), small(*ceil), "Ceil");
    }
}

#[test]
fn integral() {
    integral_all::<i64, U9>(|x| x);
    integral_all::<i128, U18>(|x| i128::from(x));
}

fn check_round_towards_zero_by<I, P>(x: &str, rounder: &str, expected: &str)
where
    I: Layout + Debug + PartialEq,
    P: FitsIn<I> + Debug + PartialEq,
{
    let x: FixedPoint<I, P> = fp(x);
    let rounder: FixedPoint<I, P> = fp(rounder);
    let expected: FixedPoint<I, P> = fp(expected);
    assert_eq!(x.round_towards_zero_by(rounder), expected);
    assert_eq!(neg(x).round_towards_zero_by(rounder), neg(expected));
}

fn round_towards_zero_by_all<I, P>()
where
    I: Layout + Debug + PartialEq,
    P: FitsIn<I> + Debug + PartialEq,
{
    let c = check_round_towards_zero_by::<I, P>;
    c("1234.56789", "100", "1200");
    c("1234.56789", "10", "1230");
    c("1234.56789", "1", "1234");
    c("1234.56789", "0.1", "1234.5");
    c("1234.56789", "0.01", "1234.56");
    c("1234.56789", "0.001", "1234.567");
    c("1234.56789", "0.0001", "1234.5678");
    c("1234.56789", "0.00001", "1234.56789");
}

#[test]
fn round_towards_zero_by() {
    round_towards_zero_by_all::<i64, U9>();
    round_towards_zero_by_all::<i128, U18>();
    let c = check_round_towards_zero_by::<i128, U18>;
    c("1234.56789123456789", "0.0000000000001", "1234.5678912345678");
    c("1234.56789123456789", "0.00000000000001", "1234.56789123456789");
}

fn check_next_power_of_ten<I, P>(x: &str, expected: &str)
where
    I: Layout + Debug + PartialEq,
    P: FitsIn<I> + Debug + PartialEq,
{
    let x: FixedPoint<I, P> = fp(x);
    let expected: FixedPoint<I, P> = fp(expected);
    assert_eq!(x.next_power_of_ten(), Ok(expected));
    assert_eq!(neg(x).next_power_of_ten(), Ok(neg(expected)));
}

fn next_power_of_ten_all<I, P>()
where
    I: Layout + Debug + PartialEq,
    P: FitsIn<I> + Debug + PartialEq,
{
    let c = check_next_power_of_ten::<I, P>;
    c("0.000000001", "0.000000001");
    c("0.000000002", "0.00000001");
    c("0.000000009", "0.00000001");
    c("0.0000001", "0.0000001");
    c("0.0000002", "0.000001");
    c("0.1", "0.1");
    c("0.100000001", "1");
    c("1", "1");
    c("2", "10");
    c("1234567", "10000000");
    c("923372036.654775807", "1000000000");
    c("-0.000000001", "-0.000000001");
    c("-0.000000002", "-0.00000001");
    c("-0.000000009", "-0.00000001");
    c("-0.00000001", "-0.00000001");
    c("-0.00000002", "-0.0000001");
    c("-0.100000001", "-1");
    c("-923372021.854775808", "-1000000000");
    let max = FixedPoint::<I, P>::max_value();
    let min = FixedPoint::<I, P>::min_value();
    assert_eq!(max.next_power_of_ten(), Err(ArithmeticError::Overflow));
    assert_eq!(min.next_power_of_ten(), Err(ArithmeticError::Overflow));
}

#[test]
fn next_power_of_ten() {
    next_power_of_ten_all::<i64, U9>();
    next_power_of_ten_all::<i128, U18>();
    let c = check_next_power_of_ten::<i128, U18>;
    c("0.000000000000000001", "0.000000000000000001");
    c("0.000000000000000002", "0.00000000000000001");
    c("0.000000000000000009", "0.00000000000000001");
    c("0.00000000000000001", "0.00000000000000001");
    c("0.00000000000000002", "0.0000000000000001");
    c("0.100000000000000001", "1");
    c("1234567891234567", "10000000000000000");
    c("923372036987654321.854775807", "1000000000000000000");
    c("-0.000000000000000001", "-0.000000000000000001");
    c("-0.000000000000000002", "-0.00000000000000001");
    c("-0.000000000000000009", "-0.00000000000000001");
    c("-0.00000000000000001", "-0.00000000000000001");
    c("-0.00000000000000002", "-0.0000000000000001");
    c("-0.100000000000000001", "-1");
    c("-923372036987654321.854775808", "-1000000000000000000");
    assert_eq!(fp::<i64, U9>("0").next_power_of_ten(), Ok(fp("0.000000001")));
    assert_eq!(
        fp::<i128, U18>("0").next_power_of_ten(),
        Ok(fp("0.000000000000000001"))
    );
    let x: Fp64 = fp("9223372036.654775807");
    assert_eq!(x.next_power_of_ten(), Err(ArithmeticError::Overflow));
    let x: Fp64 = fp("-9223372036.654775807");
    assert_eq!(x.next_power_of_ten(), Err(ArithmeticError::Overflow));
    let x: Fp128 = fp("150000000000000000000.0");
    assert_eq!(x.next_power_of_ten(), Err(ArithmeticError::Overflow));
    let x: Fp128 = fp("-150000000000000000000.854775807");
    assert_eq!(x.next_power_of_ten(), Err(ArithmeticError::Overflow));
}

fn check_saturating_add<I, P>(a: &str, b: &str, expected: &str)
where
    I: Layout + Debug + PartialEq,
    P: FitsIn<I> + Debug + PartialEq,
{
    let a: FixedPoint<I, P> = fp(a);
    let b: FixedPoint<I, P> = fp(b);
    let expected: FixedPoint<I, P> = fp(expected);
    assert_eq!(a.saturating_add(b), expected);
    assert_eq!(b.saturating_add(a), expected);
    assert_eq!(neg(a).saturating_add(neg(b)), neg(expected));
}

fn saturating_add_all<I, P>()
where
    I: Layout + Debug + PartialEq,
    P: FitsIn<I> + Debug + PartialEq,
{
    let c = check_saturating_add::<I, P>;
    c("0", "0", "0");
    c("0", "3000.0000006", "3000.0000006");
    c("-1000.0000002", "0", "-1000.0000002");
    c("-1000.0000002", "3000.0000006", "2000.0000004");
    c("-1000.0000002", "-3000.0000006", "-4000.0000008");
    c("4611686018.427387903", "4611686018.427387903", "9223372036.854775806");
}

#[test]
fn saturating_add() {
    saturating_add_all::<i64, U9>();
    saturating_add_all::<i128, U18>();
    let c = check_saturating_add::<i128, U18>;
    c("0", "3000000000000.0000000000000006", "3000000000000.0000000000000006");
    c("-1000000000000.0000000000000002", "0", "-1000000000000.0000000000000002");
    c(
        "-1000000000000.0000000000000002",
        "3000000000000.0000000000000006",
        "2000000000000.0000000000000004",
    );
    c(
        "-1000000000000.0000000000000002",
        "-3000000000000.0000000000000006",
        "-4000000000000.0000000000000008",
    );
    c(
        "4611686018000000000.000000000427387903",
        "4611686018000000000.000000000427387903",
        "9223372036000000000.000000000854775806",
    );
    let max = Fp64::max_value();
    let min = Fp64::min_value();
    assert_eq!(fp::<i64, U9>("9222222222").saturating_add(fp("9222222222")), max);
    assert_eq!(fp::<i64, U9>("4611686019").saturating_add(fp("4611686018.427387903")), max);
    assert_eq!(fp::<i64, U9>("-9222222222").saturating_add(fp("-9222222222")), min);
    assert_eq!(fp::<i64, U9>("-4611686019").saturating_add(fp("-4611686018.427387903")), min);
    let max = Fp128::max_value();
    let min = Fp128::min_value();
    assert_eq!(
        fp::<i128, U18>("85550005550005550005").saturating_add(fp("85550005550005550005")),
        max
    );
    assert_eq!(
        fp::<i128, U18>("85550005550005550005")
            .saturating_add(fp("85550005550005550005.000000000427387")),
        max
    );
    assert_eq!(
        fp::<i128, U18>("-85550005550005550005").saturating_add(fp("-85550005550005550005")),
        min
    );
    assert_eq!(
        fp::<i128, U18>("-85550005550005550005")
            .saturating_add(fp("-85550005550005550005.000000000427387")),
        min
    );
}

fn check_saturating_mul<I, P>(a: &str, b: I, expected: &str)
where
    I: Layout + Debug + PartialEq + std::ops::Neg<Output = I>,
    P: FitsIn<I> + Debug + PartialEq,
{
    let a: FixedPoint<I, P> = fp(a);
    let expected: FixedPoint<I, P> = fp(expected);
    assert_eq!(a.saturating_mul(b), expected);
    assert_eq!(CheckedMul::saturating_mul(b, a), expected);
    assert_eq!(neg(a).saturating_mul(b), neg(expected));
    assert_eq!(a.saturating_mul(-b), neg(expected));
    assert_eq!(neg(a).saturating_mul(-b), expected);
}

#[test]
fn saturating_mul() {
    let c = check_saturating_mul::<i64, U9>;
    c("0", 0, "0");
    c("3000.0000006", 0, "0");
    c("3000.0000006", 1, "3000.0000006");
    c("-1000.0000002", 0, "0");
    c("-1000.0000002", 3, "-3000.0000006");
    c("-1000.0000002", -4, "4000.0000008");
    c("68601.48179", -468, "-32105493.47772");
    let c = check_saturating_mul::<i128, U18>;
    c("0", 0, "0");
    c("3000.0000006", 0, "0");
    c("3000.0000006", 1, "3000.0000006");
    c("-1000.0000002", 0, "0");
    c("-1000.0000002", 3, "-3000.0000006");
    c("-1000.0000002", -4, "4000.0000008");
    c("68601.48179", -468, "-32105493.47772");
    c("3000000000000.0000000000000006", 0, "0");
    c("3000000000000.0000000000000006", 1, "3000000000000.0000000000000006");
    c("-1000000000000.0000000000000002", 0, "0");
    c("-1000000000000.0000000000000002", 3, "-3000000000000.0000000000000006");
    c("-1000000000000.0000000000000002", -4, "4000000000000.0000000000000008");
    c("68603957391461.48475635294179", -85204, "-5845331585582084347.18029605227516");
    let max = Fp64::max_value();
    let min = Fp64::min_value();
    assert_eq!(fp::<i64, U9>("9222222222").saturating_mul(9222222222), max);
    assert_eq!(fp::<i64, U9>("4611686019.427387903").saturating_mul(4611686019), max);
    assert_eq!(fp::<i64, U9>("-9222222222").saturating_mul(9222222222), min);
    assert_eq!(fp::<i64, U9>("4611686019.427387903").saturating_mul(-4611686019), min);
    let max = Fp128::max_value();
    let min = Fp128::min_value();
    assert_eq!(
        fp::<i128, U18>("85550005550005550005").saturating_mul(85550005550005550005),
        max
    );
    assert_eq!(fp::<i128, U18>("14000444000.427387").saturating_mul(14000444000), max);
    assert_eq!(
        fp::<i128, U18>("-85550005550005550005").saturating_mul(85550005550005550005),
        min
    );
    assert_eq!(fp::<i128, U18>("14000444000.427387").saturating_mul(-14000444000), min);
}

fn check_saturating_rmul<I, P>(a: &str, b: &str, expected: &str)
where
    I: Layout + Debug + PartialEq,
    P: FitsIn<I> + Debug + PartialEq,
{
    let a: FixedPoint<I, P> = fp(a);
    let b: FixedPoint<I, P> = fp(b);
    let expected: FixedPoint<I, P> = fp(expected);
    assert_eq!(a.saturating_rmul(b, FLOOR), expected);
    assert_eq!(b.saturating_rmul(a, FLOOR), expected);
    assert_eq!(neg(a).saturating_rmul(b, FLOOR), neg(expected));
    assert_eq!(a.saturating_rmul(neg(b), FLOOR), neg(expected));
    assert_eq!(neg(a).saturating_rmul(neg(b), FLOOR), expected);
}

fn saturating_rmul_all<I, P>()
where
    I: Layout + Debug + PartialEq,
    P: FitsIn<I> + Debug + PartialEq,
{
    let c = check_saturating_rmul::<I, P>;
    c("0", "0", "0");
    c("0", "3000.0000006", "0");
    c("1", "3000.0000006", "3000.0000006");
    c("-1000.0000002", "0", "0");
    c("-1000.0000002", "3", "-3000.0000006");
    c("-1000.0000002", "-4", "4000.0000008");
    c("68601.48179", "-468.28", "-32124701.8926212");
}

#[test]
fn saturating_rmul() {
    saturating_rmul_all::<i64, U9>();
    saturating_rmul_all::<i128, U18>();
    let c = check_saturating_rmul::<i128, U18>;
    c("0", "3000000000000.0000000000000006", "0");
    c("1", "3000000000000.0000000000000006", "3000000000000.0000000000000006");
    c("-1000000000000.0000000000000002", "0", "0");
    c("-1000000000000.0000000000000002", "3", "-3000000000000.0000000000000006");
    c("-1000000000000.0000000000000002", "-4", "4000000000000.0000000000000008");
    fn m64(a: &str, b: &str, mode: RoundMode, expected: Fp64) {
        assert_eq!(fp::<i64, U9>(a).saturating_rmul(fp(b), mode), expected);
    }
    m64("0.000000001", "-0.1", FLOOR, fp("-0.000000001"));
    m64("0.000000001", "0.1", CEIL, fp("0.000000001"));
    m64("0.000000001", "0.1", FLOOR, fp("0"));
    m64("-0.000000001", "0.1", CEIL, fp("0"));
    m64("9222222222", "9222222222", FLOOR, Fp64::max_value());
    m64("4611686019", "4611686018.427387903", FLOOR, Fp64::max_value());
    m64("-9222222222", "9222222222", FLOOR, Fp64::min_value());
    m64("4611686019", "-4611686018.427387903", FLOOR, Fp64::min_value());
    fn m128(a: &str, b: &str, mode: RoundMode, expected: Fp128) {
        assert_eq!(fp::<i128, U18>(a).saturating_rmul(fp(b), mode), expected);
    }
    m128("0.000000000000000001", "0.1", FLOOR, fp("0"));
    m128("0.000000000000000001", "-0.1", FLOOR, fp("-0.000000000000000001"));
    m128("0.000000000000000001", "0.1", CEIL, fp("0.000000000000000001"));
    m128("-0.000000000000000001", "0.1", CEIL, fp("0"));
    m128("85550005550005550005", "85550005550005550005", FLOOR, Fp128::max_value());
    m128(
        "4611686019",
        "4611686018000000000.000000000427387903",
        FLOOR,
        Fp128::max_value(),
    );
    m128("-85550005550005550005", "85550005550005550005", FLOOR, Fp128::min_value());
    m128(
        "4611686019",
        "-4611686018000000000.000000000427387903",
        FLOOR,
        Fp128::min_value(),
    );
}

fn check_saturating_sub<I, P>(a: &str, b: &str, expected: &str)
where
    I: Layout + Debug + PartialEq,
    P: FitsIn<I> + Debug + PartialEq,
{
    let a: FixedPoint<I, P> = fp(a);
    let b: FixedPoint<I, P> = fp(b);
    let expected: FixedPoint<I, P> = fp(expected);
    assert_eq!(a.saturating_sub(b), expected);
    assert_eq!(b.saturating_sub(a), neg(expected));
    assert_eq!(neg(a).saturating_sub(neg(b)), neg(expected));
}

fn saturating_sub_all<I, P>()
where
    I: Layout + Debug + PartialEq,
    P: FitsIn<I> + Debug + PartialEq,
{
    let c = check_saturating_sub::<I, P>;
    c("0", "0", "0");
    c("0", "3000.0000006", "-3000.0000006");
    c("-1000.0000002", "0", "-1000.0000002");
    c("-1000.0000002", "3000.0000006", "-4000.0000008");
    c("-1000.0000002", "-3000.0000006", "2000.0000004");
    c("4611686018.427387903", "-4611686018.427387903", "9223372036.854775806");
}

#[test]
fn saturating_sub() {
    saturating_sub_all::<i64, U9>();
    saturating_sub_all::<i128, U18>();
    let c = check_saturating_sub::<i128, U18>;
    c("0", "3000000000000.0000000000000006", "-3000000000000.0000000000000006");
    c("-1000000000000.0000000000000002", "0", "-1000000000000.0000000000000002");
    c(
        "-1000000000000.0000000000000002",
        "3000000000000.0000000000000006",
        "-4000000000000.0000000000000008",
    );
    c(
        "-1000000000000.0000000000000002",
        "-3000000000000.0000000000000006",
        "2000000000000.0000000000000004",
    );
    c(
        "4611686018000000000.000000000427387903",
        "-4611686018000000000.000000000427387903",
        "9223372036000000000.000000000854775806",
    );
    let max = Fp64::max_value();
    let min = Fp64::min_value();
    assert_eq!(fp::<i64, U9>("9222222222").saturating_sub(fp("-9222222222")), max);
    assert_eq!(fp::<i64, U9>("4611686019").saturating_sub(fp("-4611686018.27387903")), max);
    assert_eq!(fp::<i64, U9>("-9222222222").saturating_sub(fp("9222222222")), min);
    assert_eq!(fp::<i64, U9>("-4611686019").saturating_sub(fp("4611686018.47387903")), min);
    let max = Fp128::max_value();
    let min = Fp128::min_value();
    assert_eq!(
        fp::<i128, U18>("85550005550005550005").saturating_sub(fp("-85550005550005550005")),
        max
    );
    assert_eq!(
        fp::<i128, U18>("85550005550005550005")
            .saturating_sub(fp("-85550005550005550005.000000000427387903")),
        max
    );
    assert_eq!(
        fp::<i128, U18>("-85550005550005550005").saturating_sub(fp("85550005550005550005")),
        min
    );
    assert_eq!(
        fp::<i128, U18>("-85550005550005550005")
            .saturating_sub(fp("85550005550005550005.000000000427387903")),
        min
    );
}

fn check_sqrt_exact<I, P>(expected: FixedPoint<I, P>)
where
    I: Layout + Debug + PartialEq,
    P: FitsIn<I> + Debug + PartialEq,
{
    let square = match expected.rmul(expected, FLOOR) {
        Ok(v) => v,
        Err(_) => panic!("square"),
    };
    assert_eq!(expected.rmul(expected, CEIL), Ok(square));
    assert_eq!(square.rsqrt(FLOOR), Ok(expected), "Floor");
    assert_eq!(square.rsqrt(NEAREST), Ok(expected), "Nearest");
    assert_eq!(square.rsqrt(CEIL), Ok(expected), "Ceil");
}

#[test]
fn sqrt_exact() {
    for s in ["0", "1", "2", "3", "1000", "96038"].iter() {
        check_sqrt_exact::<i64, U9>(fp(s));
        check_sqrt_exact::<i128, U18>(fp(s));
    }
    let root = Fp64::max_value().rsqrt(FLOOR).unwrap().integral(FLOOR);
    check_sqrt_exact::<i64, U9>(root.try_into().unwrap());
    let root = Fp128::max_value().rsqrt(FLOOR).unwrap().integral(FLOOR);
    check_sqrt_exact::<i128, U18>(root.try_into().unwrap());
    check_sqrt_exact::<i128, U18>(fp("10431725"));
    check_sqrt_exact::<i128, U18>(fp("13043817825"));
}

fn check_sqrt_approx<I, P>(x: FixedPoint<I, P>, floor: &str, nearest: &str)
where
    I: Layout + Debug + PartialEq,
    P: FitsIn<I> + Debug + PartialEq,
{
    let floor: FixedPoint<I, P> = fp(floor);
    assert_eq!(x.rsqrt(FLOOR), Ok(floor), "Floor");
    assert_eq!(x.rsqrt(NEAREST), Ok(fp(nearest)), "Nearest");
    assert_eq!(x.rsqrt(CEIL), floor.cadd(FixedPoint::epsilon()), "Ceil");
}

#[test]
fn sqrt_approx() {
    check_sqrt_approx::<i64, U9>(fp("2"), "1.414213562", "1.414213562");
    check_sqrt_approx::<i64, U9>(fp("22347"), "149.489130039", "149.48913004");
    check_sqrt_approx::<i64, U9>(Fp64::max_value(), "96038.388349944", "96038.388349945");
    let c = check_sqrt_approx::<i128, U18>;
    c(fp("2"), "1.414213562373095048", "1.414213562373095049");
    c(fp("3.14159265358979323"), "1.772453850905516024", "1.772453850905516025");
    c(fp("5"), "2.236067977499789696", "2.236067977499789696");
    c(fp("22347"), "149.489130039611910238", "149.489130039611910239");
    c(
        Fp128::max_value(),
        "13043817825.332782212349571806",
        "13043817825.332782212349571806",
    );
}

fn sqrt_negative_all<I, P>()
where
    I: Layout + Debug + PartialEq,
    P: FitsIn<I> + Debug + PartialEq,
{
    let cases = [
        fp::<I, P>("-1"),
        neg(FixedPoint::<I, P>::epsilon()),
        FixedPoint::<I, P>::min_value(),
    ];
    for x in cases.iter() {
        let expected = Err(ArithmeticError::DomainViolation);
        assert_eq!(x.rsqrt(FLOOR), expected);
        assert_eq!(x.rsqrt(NEAREST), expected);
        assert_eq!(x.rsqrt(CEIL), expected);
    }
}

#[test]
fn sqrt_negative() {
    sqrt_negative_all::<i64, U9>();
    sqrt_negative_all::<i128, U18>();
}
