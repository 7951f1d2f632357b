//! Properties that hold across the operations of the library, over the same models that the
//! operations' contracts use.
use vstd::prelude::*;

use crate::errors::{ArithmeticError, ConvertError};
use crate::fixed::{
    decimal_form, from_decimal_outcome, from_int_outcome, half_sum_value, layout_rdiv_result,
    next_power_of_ten_value, round_towards_zero_value,
};
use crate::i256::i128_outcome;
use crate::layout::Layout;
use crate::math::{
    abs, clamp, div_ceil, div_floor, div_nearest, div_round, div_trunc, lemma_pow10_monotonic,
    lemma_pow10_pos, next_pow10, pow10, sgn,
};
use crate::ops::{rdiv_result, RoundMode};
use crate::{coef, FitsIn, FixedPoint, Precision};
use vstd::std_specs::convert::TryFromSpec;

verus! {

/// Rounding multiplication is commutative: `a.rmul(b, mode)` and `b.rmul(a, mode)` have
/// the same outcome.
pub proof fn lemma_rmul_commutative<I: Layout, P: FitsIn<I>>(
    a: FixedPoint<I, P>,
    b: FixedPoint<I, P>,
    mode: RoundMode,
)
    ensures
        rdiv_result(a.value() * b.value(), coef::<P>(), mode, I::lo(), I::hi()) == rdiv_result(
            b.value() * a.value(),
            coef::<P>(),
            mode,
            I::lo(),
            I::hi(),
        ),
{
    vstd::arithmetic::mul::lemma_mul_is_commutative(a.value(), b.value());
}

/// Negating both factors does not change a rounding multiplication: `(-b).rmul(-a, mode)`
/// has the outcome of `a.rmul(b, mode)`.
pub proof fn lemma_rmul_negation<I: Layout, P: FitsIn<I>>(
    a: FixedPoint<I, P>,
    b: FixedPoint<I, P>,
    mode: RoundMode,
)
    ensures
        rdiv_result((-b.value()) * (-a.value()), coef::<P>(), mode, I::lo(), I::hi())
            == rdiv_result(a.value() * b.value(), coef::<P>(), mode, I::lo(), I::hi()),
{
    assert((-b.value()) * (-a.value()) == a.value() * b.value()) by (nonlinear_arith);
}

/// Signs move through rounded division: dividing by `-b` or dividing `-a` rounds down to
/// the negation of the upward rounding, and the other way round; negating both operands
/// changes nothing; rounding to nearest is odd.
pub proof fn lemma_div_round_signs(a: int, b: int, mode: RoundMode)
    requires
        b != 0,
    ensures
        div_round(a, -b, RoundMode::Floor) == -div_round(a, b, RoundMode::Ceil),
        div_round(-a, b, RoundMode::Floor) == -div_round(a, b, RoundMode::Ceil),
        div_round(a, -b, RoundMode::Ceil) == -div_round(a, b, RoundMode::Floor),
        div_round(-a, b, RoundMode::Ceil) == -div_round(a, b, RoundMode::Floor),
        div_round(-a, -b, mode) == div_round(a, b, mode),
        div_round(-a, b, RoundMode::Nearest) == -div_round(a, b, RoundMode::Nearest),
        div_round(a, -b, RoundMode::Nearest) == -div_round(a, b, RoundMode::Nearest),
{
    assert(div_floor(a, -b) == div_floor(-a, b));
    assert(div_floor(-a, -b) == div_floor(a, b));
    assert(div_ceil(-a, -b) == div_ceil(a, b));
    if a == 0 {
        vstd::arithmetic::div_mod::lemma_basic_div(abs(b) as int, (2 * abs(b)) as int);
    }
}

/// The half sum does not depend on the order of its operands, and the half sum of a number
/// with itself is the number.
pub proof fn lemma_half_sum(a: int, b: int, mode: RoundMode)
    ensures
        half_sum_value(a, b, mode) == half_sum_value(b, a, mode),
        half_sum_value(a, a, mode) == a,
{
    assert(div_round(0, 2, mode) == 0) by {
        match mode {
            RoundMode::Floor => assert(div_floor(0, 2) == 0),
            RoundMode::Ceil => assert(div_ceil(0, 2) == 0),
            RoundMode::Nearest => {
                vstd::arithmetic::div_mod::lemma_basic_div(2, 4);
                assert(div_nearest(0, 2) == 0);
            },
        }
    }
}

/// Rounding towards zero by a precision is odd: `(-x).round_towards_zero_by(p)` is the
/// negation of `x.round_towards_zero_by(p)` (for `x` other than the least value, which has
/// no negation).
pub proof fn lemma_round_towards_zero_by_odd(x: int, p: int, lo: int)
    requires
        lo < 0,
        x != lo,
        -x != lo,
    ensures
        round_towards_zero_value(-x, p, lo) == -round_towards_zero_value(x, p, lo),
{
    if p != 0 {
        assert(div_trunc(-x, p) == -div_trunc(x, p));
        assert(div_trunc(-x, p) * p == -(div_trunc(x, p) * p)) by (nonlinear_arith)
            requires
                div_trunc(-x, p) == -div_trunc(x, p),
        ;
    }
}

/// The next power of ten is odd away from zero: for a non-zero number, that of `-x` is the
/// negation of that of `x`, and both fit a layout or neither does.
pub proof fn lemma_next_power_of_ten_odd<I: Layout>(x: int)
    requires
        x != 0,
    ensures
        next_power_of_ten_value(-x) == -next_power_of_ten_value(x),
        (I::lo() <= next_power_of_ten_value(-x) <= I::hi()) == (I::lo()
            <= next_power_of_ten_value(x) <= I::hi()),
{
    I::lemma_bounds();
    let n = next_pow10(abs(x));
    assert(n != I::hi() + 1) by {
        lemma_pow10_multiple_of_five(n);
    }
    lemma_next_pow10_positive(abs(x));
}

/// A power of ten leaves a remainder of `0` or `1` when divided by five.
proof fn lemma_pow10_multiple_of_five(n: nat)
    requires
        exists|k: nat| pow10(k) == n,
    ensures
        n % 5 == 0 || n == 1,
{
    let k = choose|k: nat| pow10(k) == n;
    if k > 0 {
        assert(pow10(k) == 10 * pow10((k - 1) as nat));
        vstd::arithmetic::div_mod::lemma_mod_multiples_basic(2 * pow10((k - 1) as nat) as int, 5);
    }
}

/// The next power of ten of a magnitude is a positive power of ten.
proof fn lemma_next_pow10_positive(n: nat)
    ensures
        exists|k: nat| pow10(k) == next_pow10(n),
        next_pow10(n) >= 1,
{
    if n == 0 {
        assert(pow10(0) == next_pow10(n));
    } else {
        let k = crate::math::ndigits((n - 1) as nat);
        assert(pow10(k) == next_pow10(n));
        lemma_pow10_pos(k);
    }
}

/// Saturating addition is commutative, and odd where it does not saturate: negating both
/// operands of a sum in `(MIN, MAX]` negates the result. (The bounds are not symmetric:
/// a sum that saturates on one side need not on the other.)
pub proof fn lemma_saturating_add<I: Layout>(a: int, b: int)
    requires
        I::lo() <= a <= I::hi(),
        I::lo() <= b <= I::hi(),
    ensures
        clamp(a + b, I::lo(), I::hi()) == clamp(b + a, I::lo(), I::hi()),
        I::lo() < a + b <= I::hi() ==> clamp((-a) + (-b), I::lo(), I::hi()) == -clamp(
            a + b,
            I::lo(),
            I::hi(),
        ),
{
    I::lemma_bounds();
}

/// Saturating subtraction is antisymmetric where it does not saturate: swapping the
/// operands of a difference in `(MIN, MAX]` negates the result; negating both operands is
/// the same as swapping them.
pub proof fn lemma_saturating_sub<I: Layout>(a: int, b: int)
    requires
        I::lo() <= a <= I::hi(),
        I::lo() <= b <= I::hi(),
    ensures
        I::lo() < a - b <= I::hi() ==> clamp(b - a, I::lo(), I::hi()) == -clamp(
            a - b,
            I::lo(),
            I::hi(),
        ),
        clamp((-a) - (-b), I::lo(), I::hi()) == clamp(
            b - a,
            I::lo(),
            I::hi(),
        ),
{
    I::lemma_bounds();
}

/// Saturating multiplication is commutative; negating one factor of a product in
/// `(MIN, MAX]` negates the result; negating both factors changes nothing.
pub proof fn lemma_saturating_mul<I: Layout>(a: int, b: int)
    ensures
        clamp(a * b, I::lo(), I::hi()) == clamp(b * a, I::lo(), I::hi()),
        I::lo() < a * b <= I::hi() ==> clamp((-a) * b, I::lo(), I::hi()) == -clamp(
            a * b,
            I::lo(),
            I::hi(),
        ),
        I::lo() < a * b <= I::hi() ==> clamp(a * (-b), I::lo(), I::hi()) == -clamp(
            a * b,
            I::lo(),
            I::hi(),
        ),
        clamp((-a) * (-b), I::lo(), I::hi()) == clamp(a * b, I::lo(), I::hi()),
{
    I::lemma_bounds();
    assert(a * b == b * a) by (nonlinear_arith);
    assert((-a) * b == -(a * b)) by (nonlinear_arith);
    assert(a * (-b) == -(a * b)) by (nonlinear_arith);
    assert((-a) * (-b) == a * b) by (nonlinear_arith);
}

/// Saturating rounding multiplication is commutative.
pub proof fn lemma_saturating_rmul_commutative<I: Layout, P: FitsIn<I>>(
    a: FixedPoint<I, P>,
    b: FixedPoint<I, P>,
    mode: RoundMode,
)
    ensures
        clamp(div_round(a.value() * b.value(), coef::<P>(), mode), I::lo(), I::hi()) == clamp(
            div_round(b.value() * a.value(), coef::<P>(), mode),
            I::lo(),
            I::hi(),
        ),
{
    vstd::arithmetic::mul::lemma_mul_is_commutative(a.value(), b.value());
}

/// A signed 256-bit number made from an `i128` (whose value is that `i128`) converts back to
/// the same `i128`, and a 256-bit value converts to an `i128` only when it is that `i128`.
pub proof fn lemma_i256_from_i128_roundtrip(x: i128, v: int)
    ensures
        i128_outcome(x as int) == Ok::<i128, crate::errors::ArithmeticError>(x),
        i128_outcome(v) == Ok::<i128, crate::errors::ArithmeticError>(x) <==> v == x,
{
}

/// `to_decimal` and `from_decimal` are inverse: the pair `(mantissa, exponent)` that
/// `to_decimal(max_exponent)` gives for a number (with `max_exponent` in
/// `[-PRECISION, 10]`) meets the precondition of `from_decimal`, which reads it back as the
/// same number.
pub proof fn lemma_decimal_roundtrip<I: Layout>(
    v: int,
    digits: nat,
    max_exponent: int,
    mantissa: int,
    exponent: int,
)
    requires
        I::lo() <= v <= I::hi(),
        digits <= I::max_digits(),
        -(digits as int) <= max_exponent <= 10,
        decimal_form(v, digits, max_exponent, mantissa, exponent),
    ensures
        pow10((exponent + digits) as nat) <= I::hi(),
        from_decimal_outcome::<I>(mantissa, exponent, digits) == Ok::<
            int,
            crate::errors::ConvertReason,
        >(v),
{
    I::lemma_bounds();
    let p = pow10((exponent + digits) as nat);
    lemma_pow10_pos((exponent + digits) as nat);
    if v == 0 {
        lemma_pow10_monotonic((exponent + digits) as nat, I::max_digits());
    } else {
        assert(p <= abs(v)) by (nonlinear_arith)
            requires
                mantissa * p == v,
                v != 0,
                p > 0,
        ;
        assert(p != I::hi() + 1) by {
            lemma_pow10_multiple_of_five(p);
        }
    }
}

/// Rounded division by a positive divisor errs by less than one unit, and by at most half a
/// unit when rounding to nearest (so a fixed-point result is within `0.5 / 10^PRECISION` of
/// the exact one): `Floor` never exceeds the exact quotient and `Ceil` never falls below it.
pub proof fn lemma_rounding_error(a: int, b: int)
    requires
        b > 0,
    ensures
        div_round(a, b, RoundMode::Floor) * b <= a < (div_round(a, b, RoundMode::Floor) + 1) * b,
        (div_round(a, b, RoundMode::Ceil) - 1) * b < a <= div_round(a, b, RoundMode::Ceil) * b,
        2 * abs(a - div_round(a, b, RoundMode::Nearest) * b) <= b,
{
    let f = a / b;
    vstd::arithmetic::div_mod::lemma_fundamental_div_mod(a, b);
    vstd::arithmetic::div_mod::lemma_mod_bound(a, b);
    assert(f * b <= a < (f + 1) * b) by (nonlinear_arith)
        requires
            a == b * f + a % b,
            0 <= a % b < b,
    ;
    let g = (-a) / b;
    vstd::arithmetic::div_mod::lemma_fundamental_div_mod(-a, b);
    vstd::arithmetic::div_mod::lemma_mod_bound(-a, b);
    assert(g * b <= -a < (g + 1) * b) by (nonlinear_arith)
        requires
            -a == b * g + (-a) % b,
            0 <= (-a) % b < b,
    ;
    assert((-g - 1) * b < a <= (-g) * b) by (nonlinear_arith)
        requires
            g * b <= -a < (g + 1) * b,
    ;
    let m = abs(a) as int;
    let n = 2 * m + b;
    let d = 2 * b;
    let q = n / d;
    vstd::arithmetic::div_mod::lemma_fundamental_div_mod(n, d);
    vstd::arithmetic::div_mod::lemma_mod_bound(n, d);
    assert(-b <= 2 * (m - q * b) < b) by (nonlinear_arith)
        requires
            n == d * q + n % d,
            0 <= n % d < d,
            n == 2 * m + b,
            d == 2 * b,
    ;
    if a >= 0 {
        assert(div_round(a, b, RoundMode::Nearest) == q);
    } else {
        assert(div_round(a, b, RoundMode::Nearest) == -q);
        assert(a - (-q) * b == -(m - q * b)) by (nonlinear_arith)
            requires
                m == -a,
        ;
    }
}


/// The half sum is the mean `(a + b) / 2` rounded to a whole unit: twice it is within one unit
/// of `a + b` (so it is within half a unit of the exact mean), `Floor` never exceeds the mean and
/// `Ceil` never falls below it, and it lies between the two operands.
pub proof fn lemma_half_sum_is_mean(a: int, b: int, mode: RoundMode)
    ensures
        -1 <= 2 * half_sum_value(a, b, mode) - (a + b) <= 1,
        mode == RoundMode::Floor ==> 2 * half_sum_value(a, b, mode) <= a + b,
        mode == RoundMode::Ceil ==> 2 * half_sum_value(a, b, mode) >= a + b,
        a <= b ==> a <= half_sum_value(a, b, mode) <= b,
        b <= a ==> b <= half_sum_value(a, b, mode) <= a,
{
    let h = half_sum_value(a, b, mode);
    let d = if sgn(a) != sgn(b) {
        a + b
    } else if a < b {
        b - a
    } else {
        a - b
    };
    lemma_rounding_error(d, 2);
    let q = div_round(d, 2, mode);
    assert(-1 <= 2 * q - d <= 1);
    assert(mode == RoundMode::Floor ==> 2 * q <= d);
    assert(mode == RoundMode::Ceil ==> 2 * q >= d);
}

/// Rounding towards zero by a non-zero precision `p` gives a multiple of `p` that is no farther
/// from zero than `x`, on the same side of zero, and less than `|p|` away from `x` (for a
/// quotient that fits, that is all but `lo / -1`).
pub proof fn lemma_round_towards_zero_by_multiple(x: int, p: int, lo: int)
    requires
        p != 0,
        !(x == lo && p == -1),
    ensures
        round_towards_zero_value(x, p, lo) % (abs(p) as int) == 0,
        x >= 0 ==> 0 <= round_towards_zero_value(x, p, lo) <= x,
        x <= 0 ==> x <= round_towards_zero_value(x, p, lo) <= 0,
        abs(x - round_towards_zero_value(x, p, lo)) < abs(p),
{
    let q = div_trunc(x, p);
    let r = round_towards_zero_value(x, p, lo);
    crate::math::lemma_trunc_parts(x, p);
    assert(r == q * p);
    let rem = x - q * p;
    assert(q == 0 || (q > 0) == ((x > 0) == (p > 0)));
    assert(x > 0 && q != 0 ==> q * p > 0) by (nonlinear_arith)
        requires
            q == 0 || (q > 0) == ((x > 0) == (p > 0)),
            p != 0,
    ;
    assert(x < 0 && q != 0 ==> q * p < 0) by (nonlinear_arith)
        requires
            q == 0 || (q > 0) == ((x > 0) == (p > 0)),
            p != 0,
    ;
    assert(x == 0 ==> q == 0);
    assert(q == 0 ==> q * p == 0) by (nonlinear_arith);
    assert(rem == crate::math::rem_trunc(x, p));
    assert(x < 0 ==> rem <= 0);
    assert(x > 0 ==> rem >= 0);
    let m = if p > 0 {
        q
    } else {
        -q
    };
    assert(q * p == m * abs(p)) by (nonlinear_arith)
        requires
            m == (if p > 0 {
                q
            } else {
                -q
            }),
            abs(p) == (if p > 0 {
                p
            } else {
                -p
            }),
    ;
    vstd::arithmetic::div_mod::lemma_mod_multiples_basic(m, abs(p) as int);
}

/// What converting the integer `v` to a fixed-point number must give: `Ok` of the number whose
/// raw value is `v * 10^PRECISION` when that fits the layout, an error otherwise.
pub open spec fn converts_integer<I: Layout, P: FitsIn<I>>(
    r: Result<FixedPoint<I, P>, ConvertError>,
    v: int,
) -> bool {
    if I::lo() <= v * coef::<P>() <= I::hi() {
        r matches Ok(x) && x.value() == v * coef::<P>()
    } else {
        r is Err
    }
}

/// The outcome of a conversion to a fixed-point number depends on the integer only: it is
/// `Ok` of that integer scaled by `10^PRECISION` exactly when that fits the layout.
proof fn lemma_from_int_outcome<I: Layout, P: FitsIn<I>>(v: int)
    ensures
        converts_integer::<I, P>(from_int_outcome::<I, P>(v), v),
{
    if I::lo() <= v * coef::<P>() <= I::hi() {
        FixedPoint::<I, P>::lemma_with_value_of(v * coef::<P>());
    }
}

/// Converting an integer of any type to a fixed-point number gives the number that the
/// integer is (its value scaled by `10^PRECISION`) exactly when it fits the layout, and an
/// error otherwise; the type of the integer does not matter, only its value.
pub proof fn lemma_try_from_integers<I: Layout, P: FitsIn<I>>(
    a: i8,
    b: u8,
    c: i16,
    d: u16,
    e: i32,
    f: u32,
    g: i64,
    h: u64,
    i: i128,
    j: u128,
    k: isize,
    l: usize,
)
    ensures
        converts_integer::<I, P>(<FixedPoint<I, P> as TryFromSpec<i8>>::try_from_spec(a), a as int),
        converts_integer::<I, P>(<FixedPoint<I, P> as TryFromSpec<u8>>::try_from_spec(b), b as int),
        converts_integer::<I, P>(
            <FixedPoint<I, P> as TryFromSpec<i16>>::try_from_spec(c),
            c as int,
        ),
        converts_integer::<I, P>(
            <FixedPoint<I, P> as TryFromSpec<u16>>::try_from_spec(d),
            d as int,
        ),
        converts_integer::<I, P>(
            <FixedPoint<I, P> as TryFromSpec<i32>>::try_from_spec(e),
            e as int,
        ),
        converts_integer::<I, P>(
            <FixedPoint<I, P> as TryFromSpec<u32>>::try_from_spec(f),
            f as int,
        ),
        converts_integer::<I, P>(
            <FixedPoint<I, P> as TryFromSpec<i64>>::try_from_spec(g),
            g as int,
        ),
        converts_integer::<I, P>(
            <FixedPoint<I, P> as TryFromSpec<u64>>::try_from_spec(h),
            h as int,
        ),
        converts_integer::<I, P>(
            <FixedPoint<I, P> as TryFromSpec<i128>>::try_from_spec(i),
            i as int,
        ),
        converts_integer::<I, P>(
            <FixedPoint<I, P> as TryFromSpec<u128>>::try_from_spec(j),
            j as int,
        ),
        converts_integer::<I, P>(
            <FixedPoint<I, P> as TryFromSpec<isize>>::try_from_spec(k),
            k as int,
        ),
        converts_integer::<I, P>(
            <FixedPoint<I, P> as TryFromSpec<usize>>::try_from_spec(l),
            l as int,
        ),
{
    lemma_from_int_outcome::<I, P>(a as int);
    lemma_from_int_outcome::<I, P>(b as int);
    lemma_from_int_outcome::<I, P>(c as int);
    lemma_from_int_outcome::<I, P>(d as int);
    lemma_from_int_outcome::<I, P>(e as int);
    lemma_from_int_outcome::<I, P>(f as int);
    lemma_from_int_outcome::<I, P>(g as int);
    lemma_from_int_outcome::<I, P>(h as int);
    lemma_from_int_outcome::<I, P>(i as int);
    lemma_from_int_outcome::<I, P>(j as int);
    lemma_from_int_outcome::<I, P>(k as int);
    lemma_from_int_outcome::<I, P>(l as int);
}

/// Dividing an integer by a fixed-point number is dividing the fixed-point number that the
/// integer is: when the integer `lhs` converts to `x`, `lhs.rdiv(rhs, mode)` has the outcome of
/// `x.rdiv(rhs, mode)`, which for a positive divisor is the exact quotient rounded to a unit;
/// when it does not convert, the division overflows.
pub proof fn lemma_int_rdiv_is_fixed_rdiv<I: Layout, P: FitsIn<I>>(
    lhs: int,
    rhs: FixedPoint<I, P>,
    mode: RoundMode,
)
    ensures
        (match from_int_outcome::<I, P>(lhs) {
            Ok(x) => layout_rdiv_result(lhs, rhs.value(), coef::<P>(), mode, I::lo(), I::hi())
                == rdiv_result(x.value() * coef::<P>(), rhs.value(), mode, I::lo(), I::hi()),
            Err(_) => layout_rdiv_result(lhs, rhs.value(), coef::<P>(), mode, I::lo(), I::hi())
                == Err::<int, ArithmeticError>(ArithmeticError::Overflow),
        }),
        rhs.value() > 0 ==> (layout_rdiv_result(
            lhs,
            rhs.value(),
            coef::<P>(),
            mode,
            I::lo(),
            I::hi(),
        ) matches Ok(q) ==> 2 * abs(lhs * coef::<P>() * coef::<P>() - q * rhs.value()) <= 2
            * rhs.value()),
{
    lemma_from_int_outcome::<I, P>(lhs);
    if rhs.value() > 0 {
        let a = lhs * coef::<P>() * coef::<P>();
        let b = rhs.value();
        lemma_rounding_error(a, b);
        let q = div_round(a, b, mode);
        assert((q + 1) * b == q * b + b) by (nonlinear_arith);
        assert((q - 1) * b == q * b - b) by (nonlinear_arith);
        assert(2 * abs(a - q * b) <= 2 * b) by {
            match mode {
                RoundMode::Floor => {},
                RoundMode::Ceil => {},
                RoundMode::Nearest => {},
            }
        }
    }
}


/// The next power of ten is the power of ten nearest to the number away from zero: it is a
/// power of ten in magnitude, with the sign of the number (`1` for zero), at least as large as
/// the number in magnitude, and no larger than any power of ten that is.
pub proof fn lemma_next_power_of_ten_is_least(v: int)
    ensures
        exists|k: nat| #[trigger] pow10(k) == abs(next_power_of_ten_value(v)),
        abs(next_power_of_ten_value(v)) >= abs(v),
        forall|k: nat| pow10(k) >= abs(v) ==> #[trigger] pow10(k) >= abs(
            next_power_of_ten_value(v),
        ),
        v > 0 ==> next_power_of_ten_value(v) > 0,
        v < 0 ==> next_power_of_ten_value(v) < 0,
        v == 0 ==> next_power_of_ten_value(v) == 1,
{
    let n = abs(v);
    crate::math::lemma_next_pow10(n);
    if n == 0 {
        assert(pow10(0) == 1);
    } else {
        let k = crate::math::ndigits((n - 1) as nat);
        assert(pow10(k) == next_pow10(n));
    }
}


/// A rounded division fails exactly on a zero divisor (`DivisionByZero`) or a quotient out of
/// range (`Overflow`); otherwise, for a positive divisor, its quotient `q` is the exact
/// quotient rounded to a whole unit as the mode says: `Floor` gives `q*b <= a < (q+1)*b`,
/// `Ceil` gives `(q-1)*b < a <= q*b`, and `Nearest` is within half a unit.
pub proof fn lemma_rdiv_result_rounds(a: int, b: int, mode: RoundMode, lo: int, hi: int)
    ensures
        b == 0 ==> rdiv_result(a, b, mode, lo, hi) == Err::<int, ArithmeticError>(
            ArithmeticError::DivisionByZero,
        ),
        b != 0 ==> (rdiv_result(a, b, mode, lo, hi) is Err <==> rdiv_result(
            a,
            b,
            mode,
            lo,
            hi,
        ) == Err::<int, ArithmeticError>(ArithmeticError::Overflow)),
        b > 0 ==> (rdiv_result(a, b, mode, lo, hi) matches Ok(q) ==> lo <= q <= hi && (
        mode == RoundMode::Floor ==> q * b <= a < (q + 1) * b) && (mode == RoundMode::Ceil ==> (q
            - 1) * b < a <= q * b) && (mode == RoundMode::Nearest ==> 2 * abs(a - q * b) <= b)),
{
    if b > 0 {
        lemma_rounding_error(a, b);
    }
}

} // verus!
