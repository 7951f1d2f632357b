//! Arithmetic on fixed-point numbers, for every layout and precision.
use vstd::prelude::*;

use crate::errors::{ArithmeticError, ConvertError, ConvertReason};
use crate::layout::{Layout, Promotion};
use crate::math::{
    abs, clamp, div_round, div_trunc, lemma_div_round_bounds, lemma_div_round_trunc,
    lemma_div_trunc_in_range, lemma_next_pow10, lemma_pow10_monotonic, lemma_pow10_pos,
    lemma_trunc_parts, next_pow10, pow10, rem_trunc, rounds_away, sgn, sgn2,
};
use crate::ops::{
    checked_result, mode_number, rdiv_result, Bounded, CheckedAdd, CheckedMul, CheckedSub, One,
    RoundMode, RoundingDiv, RoundingMul, Zero,
};
use crate::ops::sqrt::{is_isqrt, isqrt, lemma_isqrt, sqrt};
use crate::{coef, FitsIn, FixedPoint, Precision};
use vstd::std_specs::convert::TryFromSpecImpl;

verus! {

/// `r` is the outcome `spec` describes, for a fixed-point result.
pub open spec fn fp_outcome<I: Layout, P>(
    r: Result<FixedPoint<I, P>, ArithmeticError>,
    spec: Result<int, ArithmeticError>,
) -> bool {
    match spec {
        Ok(x) => r matches Ok(v) && v.value() == x,
        Err(e) => r == Err::<FixedPoint<I, P>, ArithmeticError>(e),
    }
}

/// `r` is the outcome `spec` describes, for a layout result.
pub open spec fn layout_outcome<I: Layout>(
    r: Result<I, ArithmeticError>,
    spec: Result<int, ArithmeticError>,
) -> bool {
    match spec {
        Ok(x) => r matches Ok(v) && v.val() == x,
        Err(e) => r == Err::<I, ArithmeticError>(e),
    }
}

/// A rounded quotient stays in range when the dividend does (and it is not `lo / -1`).
pub proof fn lemma_div_round_in_range(a: int, b: int, mode: RoundMode, lo: int, hi: int)
    requires
        lo == -hi - 1,
        hi >= 3,
        lo <= a <= hi,
        b != 0,
        !(a == lo && b == -1),
    ensures
        lo <= div_round(a, b, mode) <= hi,
{
    lemma_div_round_trunc(a, b, mode);
    lemma_trunc_parts(a, b);
    lemma_div_trunc_in_range(a, b, lo, hi);
    if rem_trunc(a, b) != 0 {
        if abs(b) != 1 {
            vstd::arithmetic::div_mod::lemma_div_is_ordered_by_denominator(abs(a) as int, 2, abs(b) as int);
            vstd::arithmetic::div_mod::lemma_div_is_ordered(abs(a) as int, hi + 1, 2);
        }
    }
}

/// When the truncated quotient is out of range, so is the rounded one.
pub proof fn lemma_trunc_out_of_range(a: int, b: int, mode: RoundMode, lo: int, hi: int)
    requires
        b != 0,
        lo <= 0 <= hi,
        !(lo <= div_trunc(a, b) <= hi),
    ensures
        !(lo <= div_round(a, b, mode) <= hi),
{
    lemma_div_round_bounds(a, b, mode);
}

/// The sign of a product with a positive factor is the sign of the other factors.
pub proof fn lemma_sgn2_scaled(a: int, b: int, c: int)
    requires
        c > 0,
    ensures
        sgn2(a * b, c) == sgn2(a, b),
        sgn2(a * c, b) == sgn2(a, b),
{
    if a > 0 && b > 0 {
        assert(a * b > 0 && a * c > 0) by (nonlinear_arith) requires a > 0, b > 0, c > 0;
    } else if a > 0 && b < 0 {
        assert(a * b < 0 && a * c > 0) by (nonlinear_arith) requires a > 0, b < 0, c > 0;
    } else if a < 0 && b > 0 {
        assert(a * b < 0 && a * c < 0) by (nonlinear_arith) requires a < 0, b > 0, c > 0;
    } else if a < 0 && b < 0 {
        assert(a * b > 0 && a * c < 0) by (nonlinear_arith) requires a < 0, b < 0, c > 0;
    } else if a == 0 {
        assert(a * b == 0 && a * c == 0) by (nonlinear_arith) requires a == 0;
    } else {
        assert(a * b == 0) by (nonlinear_arith) requires b == 0;
    }
}

/// `|a * b| <= (hi + 1)^2` for two values of a layout.
proof fn lemma_product_fits(a: int, b: int, hi: int)
    requires
        -hi - 1 <= a <= hi,
        -hi - 1 <= b <= hi,
        hi >= 0,
    ensures
        -((hi + 1) * (hi + 1)) <= a * b <= (hi + 1) * (hi + 1),
        -((hi + 1) * hi) <= a * b,
{
    assert(-((hi + 1) * (hi + 1)) <= a * b <= (hi + 1) * (hi + 1)) by (nonlinear_arith)
        requires
            -hi - 1 <= a <= hi,
            -hi - 1 <= b <= hi,
            hi >= 0,
    ;
    assert(-((hi + 1) * hi) <= a * b) by (nonlinear_arith)
        requires
            -hi - 1 <= a <= hi,
            -hi - 1 <= b <= hi,
            hi >= 0,
    ;
}

/// `10 ^ n` in the layout.
pub fn pow10_l<I: Layout>(n: u32) -> (r: I)
    requires
        pow10(n as nat) <= I::hi(),
    ensures
        r.val() == pow10(n as nat),
{
    let ten = I::from_i64(10);
    let mut p = I::from_i64(1);
    let mut i: u32 = 0;
    while i < n
        invariant
            i <= n,
            p.val() == pow10(i as nat),
            pow10(n as nat) <= I::hi(),
            ten.val() == 10,
        decreases n - i,
    {
        proof {
            I::lemma_bounds();
            lemma_pow10_pos((i + 1) as nat);
            lemma_pow10_monotonic((i + 1) as nat, n as nat);
            assert(pow10((i + 1) as nat) == 10 * pow10(i as nat));
            assert(p.val() * ten.val() == pow10((i + 1) as nat)) by (nonlinear_arith)
                requires
                    ten.val() == 10,
                    p.val() == pow10(i as nat),
                    pow10((i + 1) as nat) == 10 * pow10(i as nat),
            ;
        }
        p = p.checked_mul_l(ten).unwrap();
        i = i + 1;
    }
    p
}

/// The sign of `a * b` in the layout.
fn sign_of<I: Layout>(a: I, b: I) -> (s: I)
    ensures
        s.val() == sgn2(a.val(), b.val()),
{
    let zero = I::from_i64(0);
    if a.eq_l(zero) || b.eq_l(zero) {
        zero
    } else if a.lt_l(zero) == b.lt_l(zero) {
        I::from_i64(1)
    } else {
        I::from_i64(-1)
    }
}

/// Whether a truncated quotient with remainder `loss` (divisor `d`, quotient sign `s`) moves
/// one step away from zero when rounded as `mode` says.
fn rounds_away_l<I: Layout>(mode: RoundMode, s: I, loss: I, d: I) -> (b: bool)
    requires
        abs(loss.val()) < abs(d.val()),
    ensures
        b == rounds_away(mode, s.val(), loss.val(), d.val()),
{
    if mode == RoundMode::Nearest {
        let loss_abs = loss.unsigned_abs_l();
        let d_abs = d.unsigned_abs_l();
        loss_abs >= d_abs - loss_abs
    } else {
        !loss.eq_l(I::from_i64(0)) && I::from_i64(mode_number(mode) as i64).eq_l(s)
    }
}

/// Moves a truncated quotient one step away from zero when `mode` asks for it, and reports
/// `Overflow` when the rounded value leaves the layout.
fn round_quotient<I: Layout>(
    result: I,
    loss: I,
    sign: I,
    d: I,
    mode: RoundMode,
    Ghost(a): Ghost<int>,
) -> (r: Result<I, ArithmeticError>)
    requires
        d.val() != 0,
        result.val() == div_trunc(a, d.val()),
        loss.val() == rem_trunc(a, d.val()),
        sign.val() == sgn2(a, d.val()),
    ensures
        layout_outcome(r, checked_result(div_round(a, d.val(), mode), I::lo(), I::hi())),
{
    proof {
        lemma_div_round_trunc(a, d.val(), mode);
        lemma_trunc_parts(a, d.val());
        I::lemma_range(result);
    }
    if rounds_away_l(mode, sign, loss, d) {
        match result.checked_add_l(sign) {
            Some(v) => {
                proof {
                    I::lemma_range(v);
                }
                Ok(v)
            },
            None => Err(ArithmeticError::Overflow),
        }
    } else {
        Ok(result)
    }
}

/// The rounded quotient of two layout values.
pub fn rdiv_layout<I: Layout>(a: I, b: I, mode: RoundMode) -> (r: Result<I, ArithmeticError>)
    ensures
        layout_outcome(r, rdiv_result(a.val(), b.val(), mode, I::lo(), I::hi())),
{
    proof {
        I::lemma_bounds();
        I::lemma_range(a);
        I::lemma_range(b);
    }
    let zero = I::from_i64(0);
    if b.eq_l(zero) {
        return Err(ArithmeticError::DivisionByZero);
    }
    if a.eq_l(I::min_l()) && b.eq_l(I::from_i64(-1)) {
        proof {
            lemma_div_round_bounds(a.val(), b.val(), mode);
            lemma_trunc_parts(a.val(), b.val());
        }
        return Err(ArithmeticError::Overflow);
    }
    let (result, loss) = a.div_rem_l(b);
    let sign = sign_of(a, b);
    round_quotient(result, loss, sign, b, mode, Ghost(a.val()))
}

impl<I: Layout, P: FitsIn<I>> FixedPoint<I, P> {
    /// `10 ^ PRECISION` in the layout: the raw value of `1`.
    pub(crate) fn coef_l() -> (c: I)
        ensures
            c.val() == coef::<P>(),
            1 <= coef::<P>() <= 1_000_000_000_000_000_000,
            coef::<P>() <= I::hi() - 2,
    {
        proof {
            P::lemma_digits();
            P::lemma_fits_in();
            I::lemma_bounds();
            lemma_pow10_monotonic(P::digits(), 18);
            lemma_pow10_monotonic(P::digits(), I::max_digits());
            lemma_pow10_pos(P::digits());
            reveal_with_fuel(pow10, 19);
        }
        pow10_l::<I>(P::precision())
    }
}

impl<I: Layout, P: FitsIn<I>> RoundingMul for FixedPoint<I, P> {
    type Output = Self;
    type Error = ArithmeticError;

    /// Rounds `self * rhs` as `mode` says.
    fn rmul(self, rhs: Self, mode: RoundMode) -> (r: Result<Self, ArithmeticError>)
        ensures
            fp_outcome(
                r,
                rdiv_result(self.value() * rhs.value(), coef::<P>(), mode, I::lo(), I::hi()),
            ),
    {
        let c = Self::coef_l();
        let a = self.inner;
        let b = rhs.inner;
        proof {
            I::lemma_bounds();
            I::lemma_range(a);
            I::lemma_range(b);
            I::lemma_promotion(a);
            I::lemma_promotion(b);
            I::lemma_promotion(c);
            lemma_product_fits(a.val(), b.val(), I::hi());
            lemma_sgn2_scaled(a.val(), b.val(), c.val());
        }
        let value = I::Promotion::from_layout(a).mul_l(b);
        let (result, loss) = value.div_rem_l(c);
        proof {
            I::lemma_promotion(loss);
        }
        let result = match result.try_into_layout() {
            Some(v) => v,
            None => {
                proof {
                    lemma_trunc_out_of_range(a.val() * b.val(), c.val(), mode, I::lo(), I::hi());
                }
                return Err(ArithmeticError::Overflow);
            },
        };
        proof {
            I::lemma_promotion(result);
        }
        let sign = sign_of(a, b);
        match round_quotient(result, loss, sign, c, mode, Ghost(a.val() * b.val())) {
            Ok(v) => Ok(Self::from_bits(v)),
            Err(e) => Err(e),
        }
    }

    /// Rounds `self * rhs` as `mode` says, saturating at the bounds instead of overflowing.
    fn saturating_rmul(self, rhs: Self, round_mode: RoundMode) -> (r: Self)
        ensures
            r.value() == clamp(
                div_round(self.value() * rhs.value(), coef::<P>(), round_mode),
                I::lo(),
                I::hi(),
            ),
    {
        let zero = I::from_i64(0);
        let is_lhs_negative = self.inner.lt_l(zero);
        let is_rhs_negative = rhs.inner.lt_l(zero);
        match self.rmul(rhs, round_mode) {
            Ok(v) => v,
            Err(_) => {
                proof {
                    I::lemma_bounds();
                    lemma_pow10_pos(P::digits());
                    lemma_sgn2_scaled(self.value(), rhs.value(), coef::<P>());
                    lemma_div_round_bounds(self.value() * rhs.value(), coef::<P>(), round_mode);
                }
                if is_lhs_negative == is_rhs_negative {
                    Self::from_bits(I::max_l())
                } else {
                    Self::from_bits(I::min_l())
                }
            },
        }
    }
}

impl<I: Layout, P: FitsIn<I>> RoundingDiv for FixedPoint<I, P> {
    type Output = Self;
    type Error = ArithmeticError;

    /// Rounds `self / rhs` as `mode` says.
    fn rdiv(self, rhs: Self, mode: RoundMode) -> (r: Result<Self, ArithmeticError>)
        ensures
            fp_outcome(
                r,
                rdiv_result(self.value() * coef::<P>(), rhs.value(), mode, I::lo(), I::hi()),
            ),
    {
        let a = self.inner;
        let b = rhs.inner;
        if b.eq_l(I::from_i64(0)) {
            return Err(ArithmeticError::DivisionByZero);
        }
        let c = Self::coef_l();
        proof {
            I::lemma_bounds();
            I::lemma_range(a);
            I::lemma_range(b);
            I::lemma_promotion(a);
            I::lemma_promotion(b);
            I::lemma_promotion(c);
            lemma_product_fits(a.val(), c.val(), I::hi());
            lemma_sgn2_scaled(a.val(), b.val(), c.val());
        }
        let numerator = I::Promotion::from_layout(a).mul_l(c);
        let (result, loss) = numerator.div_rem_l(b);
        proof {
            I::lemma_promotion(loss);
        }
        let result = match result.try_into_layout() {
            Some(v) => v,
            None => {
                proof {
                    lemma_trunc_out_of_range(a.val() * c.val(), b.val(), mode, I::lo(), I::hi());
                }
                return Err(ArithmeticError::Overflow);
            },
        };
        proof {
            I::lemma_promotion(result);
        }
        let sign = sign_of(a, b);
        match round_quotient(result, loss, sign, b, mode, Ghost(a.val() * c.val())) {
            Ok(v) => Ok(Self::from_bits(v)),
            Err(e) => Err(e),
        }
    }
}

impl<I: Layout, P: FitsIn<I>> RoundingDiv<I> for FixedPoint<I, P> {
    type Output = Self;
    type Error = ArithmeticError;

    /// Rounds `self / rhs` as `mode` says, for an integer `rhs`.
    fn rdiv(self, rhs: I, mode: RoundMode) -> (r: Result<Self, ArithmeticError>)
        ensures
            fp_outcome(r, rdiv_result(self.value(), rhs.val(), mode, I::lo(), I::hi())),
    {
        match rdiv_layout(self.inner, rhs, mode) {
            Ok(v) => Ok(Self::from_bits(v)),
            Err(e) => Err(e),
        }
    }
}

impl<I: Layout, P: FitsIn<I>> FixedPoint<I, P> {
    /// The integer `v` as a fixed-point number, or `Err(Overflow)` when `v * 10^PRECISION`
    /// leaves the layout.
    fn from_layout_checked(v: I) -> (r: Result<Self, ArithmeticError>)
        ensures
            fp_outcome(r, checked_result(v.val() * coef::<P>(), I::lo(), I::hi())),
    {
        let c = Self::coef_l();
        match v.checked_mul_l(c) {
            Some(x) => {
                proof {
                    I::lemma_range(x);
                }
                Ok(Self::from_bits(x))
            },
            None => Err(ArithmeticError::Overflow),
        }
    }
}

/// Rounds `lhs / rhs` for an integer `lhs` and a fixed-point `rhs`: `lhs` is first made a
/// fixed-point number (`Err(Overflow)` when it does not fit).
pub open spec fn layout_rdiv_result(
    lhs: int,
    rhs: int,
    c: int,
    mode: RoundMode,
    lo: int,
    hi: int,
) -> Result<int, ArithmeticError> {
    if lo <= lhs * c <= hi {
        rdiv_result(lhs * c * c, rhs, mode, lo, hi)
    } else {
        Err(ArithmeticError::Overflow)
    }
}

impl<I: Layout, P: FitsIn<I>> CheckedAdd for FixedPoint<I, P> {
    type Output = Self;
    type Error = ArithmeticError;

    /// Checked addition. Returns `Err(Overflow)` when the sum leaves the layout.
    fn cadd(self, rhs: Self) -> (r: Result<Self, ArithmeticError>)
        ensures
            fp_outcome(r, checked_result(self.value() + rhs.value(), I::lo(), I::hi())),
    {
        match self.inner.checked_add_l(rhs.inner) {
            Some(v) => {
                proof {
                    I::lemma_range(v);
                }
                Ok(Self::from_bits(v))
            },
            None => Err(ArithmeticError::Overflow),
        }
    }

    /// Saturating addition: the sum clamped to `[MIN, MAX]`.
    fn saturating_add(self, rhs: Self) -> (r: Self)
        ensures
            r.value() == clamp(self.value() + rhs.value(), I::lo(), I::hi()),
    {
        proof {
            I::lemma_range(self.inner);
            I::lemma_range(rhs.inner);
            I::lemma_bounds();
        }
        let is_rhs_negative = rhs.inner.lt_l(I::from_i64(0));
        match self.cadd(rhs) {
            Ok(v) => v,
            Err(_) => if is_rhs_negative {
                Self::from_bits(I::min_l())
            } else {
                Self::from_bits(I::max_l())
            },
        }
    }
}

impl<I: Layout, P: FitsIn<I>> CheckedSub for FixedPoint<I, P> {
    type Output = Self;
    type Error = ArithmeticError;

    /// Checked subtraction. Returns `Err(Overflow)` when the difference leaves the layout.
    fn csub(self, rhs: Self) -> (r: Result<Self, ArithmeticError>)
        ensures
            fp_outcome(r, checked_result(self.value() - rhs.value(), I::lo(), I::hi())),
    {
        match self.inner.checked_sub_l(rhs.inner) {
            Some(v) => {
                proof {
                    I::lemma_range(v);
                }
                Ok(Self::from_bits(v))
            },
            None => Err(ArithmeticError::Overflow),
        }
    }

    /// Saturating subtraction: the difference clamped to `[MIN, MAX]`.
    fn saturating_sub(self, rhs: Self) -> (r: Self)
        ensures
            r.value() == clamp(self.value() - rhs.value(), I::lo(), I::hi()),
    {
        proof {
            I::lemma_range(self.inner);
            I::lemma_range(rhs.inner);
            I::lemma_bounds();
        }
        let is_rhs_negative = rhs.inner.lt_l(I::from_i64(0));
        match self.csub(rhs) {
            Ok(v) => v,
            Err(_) => if is_rhs_negative {
                Self::from_bits(I::max_l())
            } else {
                Self::from_bits(I::min_l())
            },
        }
    }
}

/// `a * b` clamped to the layout.
fn saturating_mul_l<I: Layout>(a: I, b: I) -> (r: I)
    ensures
        r.val() == clamp(a.val() * b.val(), I::lo(), I::hi()),
{
    proof {
        I::lemma_bounds();
    }
    match a.checked_mul_l(b) {
        Some(v) => {
            proof {
                I::lemma_range(v);
            }
            v
        },
        None => {
            let zero = I::from_i64(0);
            proof {
                lemma_product_sign(a.val(), b.val());
            }
            if a.lt_l(zero) == b.lt_l(zero) {
                I::max_l()
            } else {
                I::min_l()
            }
        },
    }
}

proof fn lemma_product_sign(a: int, b: int)
    ensures
        (a < 0) == (b < 0) ==> a * b >= 0,
        (a < 0) != (b < 0) ==> a * b <= 0,
{
    if a < 0 && b < 0 {
        assert(a * b > 0) by (nonlinear_arith) requires a < 0, b < 0;
    } else if a >= 0 && b >= 0 {
        assert(a * b >= 0) by (nonlinear_arith) requires a >= 0, b >= 0;
    } else if a < 0 {
        assert(a * b <= 0) by (nonlinear_arith) requires a < 0, b >= 0;
    } else {
        assert(a * b <= 0) by (nonlinear_arith) requires a >= 0, b < 0;
    }
}

impl<I: Layout, P: FitsIn<I>> CheckedMul<I> for FixedPoint<I, P> {
    type Output = Self;
    type Error = ArithmeticError;

    /// Multiplication by an integer. Returns `Err(Overflow)` when the product leaves the layout.
    fn cmul(self, rhs: I) -> (r: Result<Self, ArithmeticError>)
        ensures
            fp_outcome(r, checked_result(self.value() * rhs.val(), I::lo(), I::hi())),
    {
        match self.inner.checked_mul_l(rhs) {
            Some(v) => {
                proof {
                    I::lemma_range(v);
                }
                Ok(Self::from_bits(v))
            },
            None => Err(ArithmeticError::Overflow),
        }
    }

    /// Multiplication by an integer, clamped to `[MIN, MAX]`.
    fn saturating_mul(self, rhs: I) -> (r: Self)
        ensures
            r.value() == clamp(self.value() * rhs.val(), I::lo(), I::hi()),
    {
        Self::from_bits(saturating_mul_l(self.inner, rhs))
    }
}

impl<I: Layout, P: FitsIn<I>> Zero for FixedPoint<I, P> {
    /// `0`.
    fn zero() -> (r: Self)
        ensures
            r.value() == 0,
    {
        Self::from_bits(I::from_i64(0))
    }
}

impl<I: Layout, P: FitsIn<I>> One for FixedPoint<I, P> {
    /// `1`, whose raw value is `10 ^ PRECISION`.
    fn one() -> (r: Self)
        ensures
            r.value() == coef::<P>(),
    {
        Self::from_bits(Self::coef_l())
    }
}

impl<I: Layout, P: FitsIn<I>> Bounded for FixedPoint<I, P> {
    /// The least number: the least value of the layout, scaled.
    fn min_value() -> (r: Self)
        ensures
            r.value() == I::lo(),
    {
        Self::from_bits(I::min_l())
    }

    /// The greatest number: the greatest value of the layout, scaled.
    fn max_value() -> (r: Self)
        ensures
            r.value() == I::hi(),
    {
        Self::from_bits(I::max_l())
    }
}

impl<I: Layout, P: FitsIn<I>> CheckedMul<FixedPoint<I, P>> for I {
    type Output = FixedPoint<I, P>;
    type Error = ArithmeticError;

    /// Multiplication of an integer by a fixed-point number.
    fn cmul(self, rhs: FixedPoint<I, P>) -> (r: Result<FixedPoint<I, P>, ArithmeticError>)
        ensures
            fp_outcome(r, checked_result(self.val() * rhs.value(), I::lo(), I::hi())),
    {
        proof {
            vstd::arithmetic::mul::lemma_mul_is_commutative(self.val(), rhs.value());
        }
        rhs.cmul(self)
    }

    /// Multiplication of an integer by a fixed-point number, clamped to `[MIN, MAX]`.
    fn saturating_mul(self, rhs: FixedPoint<I, P>) -> (r: FixedPoint<I, P>)
        ensures
            r.value() == clamp(self.val() * rhs.value(), I::lo(), I::hi()),
    {
        FixedPoint::from_bits(saturating_mul_l(self, rhs.inner))
    }
}

impl<I: Layout, P: FitsIn<I>> RoundingDiv<FixedPoint<I, P>> for I {
    type Output = FixedPoint<I, P>;
    type Error = ArithmeticError;

    /// Rounds `self / rhs` for an integer `self`, which is first made a fixed-point number
    /// (`Err(Overflow)` when it does not fit).
    fn rdiv(self, rhs: FixedPoint<I, P>, mode: RoundMode) -> (r: Result<
        FixedPoint<I, P>,
        ArithmeticError,
    >)
        ensures
            fp_outcome(
                r,
                layout_rdiv_result(self.val(), rhs.value(), coef::<P>(), mode, I::lo(), I::hi()),
            ),
    {
        match FixedPoint::<I, P>::from_layout_checked(self) {
            Ok(lhs) => lhs.rdiv(rhs, mode),
            Err(e) => Err(e),
        }
    }
}

/// `floor((2m + d) / 2) == m + floor(d / 2)` and the same for the ceiling.
proof fn lemma_half_shift(m: int, d: int)
    ensures
        div_round(2 * m + d, 2, RoundMode::Floor) == m + div_round(d, 2, RoundMode::Floor),
        div_round(2 * m + d, 2, RoundMode::Ceil) == m + div_round(d, 2, RoundMode::Ceil),
{
    vstd::arithmetic::div_mod::lemma_fundamental_div_mod(d, 2);
    vstd::arithmetic::div_mod::lemma_mod_bound(d, 2);
    vstd::arithmetic::div_mod::lemma_fundamental_div_mod_converse(2 * m + d, 2, m + d / 2, d % 2);
    vstd::arithmetic::div_mod::lemma_fundamental_div_mod(-d, 2);
    vstd::arithmetic::div_mod::lemma_mod_bound(-d, 2);
    vstd::arithmetic::div_mod::lemma_fundamental_div_mod_converse(
        -(2 * m + d),
        2,
        -m + (-d) / 2,
        (-d) % 2,
    );
}

/// The half sum of `a` and `b` as `half_sum` computes it: for unlike signs the rounded half
/// of the sum; for like signs the smaller plus the rounded half of the difference.
pub open spec fn half_sum_value(a: int, b: int, mode: RoundMode) -> int {
    if sgn(a) != sgn(b) {
        div_round(a + b, 2, mode)
    } else if a < b {
        a + div_round(b - a, 2, mode)
    } else {
        b + div_round(a - b, 2, mode)
    }
}

/// `x` rounded towards zero to a multiple of `p`; `x` itself when `p` is zero or the
/// quotient overflows (`lo / -1`).
pub open spec fn round_towards_zero_value(x: int, p: int, lo: int) -> int {
    if p == 0 || (x == lo && p == -1) {
        x
    } else {
        div_trunc(x, p) * p
    }
}

/// The power of ten next to `v` away from zero: the least power of ten that is at least
/// `|v|`, with the sign of `v` (`1` for `0`).
pub open spec fn next_power_of_ten_value(v: int) -> int {
    if v < 0 {
        -next_pow10(abs(v))
    } else {
        next_pow10(abs(v)) as int
    }
}

/// What `from_decimal` gives for `mantissa * 10^exponent` with `digits` decimal places: the
/// raw value, `UnsupportedExponent` outside `[-digits, 10]`, or `TooBigMantissa` when the
/// value leaves the layout.
pub open spec fn from_decimal_outcome<I: Layout>(mantissa: int, exponent: int, digits: nat) -> Result<
    int,
    ConvertReason,
> {
    if exponent < -(digits as int) || exponent > 10 {
        Err(ConvertReason::UnsupportedExponent)
    } else {
        let x = mantissa * pow10((exponent + digits) as nat);
        if I::lo() <= x <= I::hi() {
            Ok(x)
        } else {
            Err(ConvertReason::TooBigMantissa)
        }
    }
}

/// `(mantissa, exponent)` is what `to_decimal(max_exponent)` gives for the raw value `v`
/// with `digits` decimal places: `mantissa * 10^exponent` is the number, the exponent lies
/// in `[-digits, max_exponent]`, and it is `max_exponent` or the mantissa has no trailing
/// zero; zero gives `(0, min(0, max_exponent))`.
pub open spec fn decimal_form(v: int, digits: nat, max_exponent: int, mantissa: int, exponent: int) -> bool {
    if v == 0 {
        mantissa == 0 && exponent == (if max_exponent < 0 {
            max_exponent
        } else {
            0
        })
    } else {
        &&& mantissa * pow10((exponent + digits) as nat) == v
        &&& -(digits as int) <= exponent <= max_exponent
        &&& (exponent == max_exponent || mantissa % 10 != 0)
    }
}

impl<I: Layout, P: FitsIn<I>> FixedPoint<I, P> {
    /// The number of digits in the fractional part.
    pub fn precision() -> (p: i32)
        ensures
            p == P::digits(),
    {
        proof {
            P::lemma_digits();
            P::lemma_fits_in();
        }
        P::precision() as i32
    }

    /// The difference between `0.0` and the next larger representable number.
    pub fn epsilon() -> (r: Self)
        ensures
            r.value() == 1,
    {
        Self::from_bits(I::from_i64(1))
    }

    /// Returns a number representing sign of self.
    /// * `0` if the number is zero
    /// * `1` if the number is positive
    /// * `-1` if the number is negative
    pub fn signum(self) -> (r: I)
        ensures
            r.val() == sgn(self.value()),
    {
        let zero = I::from_i64(0);
        if self.inner.lt_l(zero) {
            I::from_i64(-1)
        } else if self.inner.eq_l(zero) {
            zero
        } else {
            I::from_i64(1)
        }
    }

    /// Returns `1/n`.
    pub fn recip(self, mode: RoundMode) -> (r: Result<Self, ArithmeticError>)
        ensures
            fp_outcome(
                r,
                rdiv_result(coef::<P>() * coef::<P>(), self.value(), mode, I::lo(), I::hi()),
            ),
    {
        Self::one().rdiv(self, mode)
    }

    /// Checked negation. Returns `Err` on overflow (you can't negate `MIN` value).
    pub fn cneg(self) -> (r: Result<Self, ArithmeticError>)
        ensures
            fp_outcome(r, checked_result(-self.value(), I::lo(), I::hi())),
    {
        match I::from_i64(0).checked_sub_l(self.inner) {
            Some(v) => {
                proof {
                    I::lemma_range(v);
                }
                Ok(Self::from_bits(v))
            },
            None => Err(ArithmeticError::Overflow),
        }
    }

    /// Calculates `(a + b) / 2`, rounded as `mode` says.
    ///
    /// For `Floor` and `Ceil` this is the rounded half sum; for `Nearest`, a half-way case
    /// between two numbers of the same sign rounds up.
    pub fn half_sum(a: Self, b: Self, mode: RoundMode) -> (r: Self)
        ensures
            r.value() == half_sum_value(a.value(), b.value(), mode),
            mode != RoundMode::Nearest ==> r.value() == div_round(
                a.value() + b.value(),
                2,
                mode,
            ),
    {
        let x = a.inner;
        let y = b.inner;
        let two = I::from_i64(2);
        proof {
            I::lemma_bounds();
            I::lemma_range(x);
            I::lemma_range(y);
        }
        if !a.signum().eq_l(b.signum()) {
            let sum = x.checked_add_l(y).unwrap();
            proof {
                lemma_div_round_in_range(sum.val(), 2, mode, I::lo(), I::hi());
            }
            Self::from_bits(rdiv_layout(sum, two, mode).unwrap())
        } else {
            let (min, max) = if x.lt_l(y) {
                (x, y)
            } else {
                (y, x)
            };
            let diff = max.checked_sub_l(min).unwrap();
            proof {
                lemma_div_round_in_range(diff.val(), 2, mode, I::lo(), I::hi());
                lemma_div_round_bounds(diff.val(), 2, mode);
                lemma_trunc_parts(diff.val(), 2);
                lemma_half_shift(min.val(), diff.val());
                assert(x.val() + y.val() == 2 * min.val() + diff.val());
            }
            let half_diff = rdiv_layout(diff, two, mode).unwrap();
            Self::from_bits(min.checked_add_l(half_diff).unwrap())
        }
    }

    /// Takes rounded integral part of the number.
    pub fn integral(self, mode: RoundMode) -> (r: I)
        ensures
            r.val() == div_round(self.value(), coef::<P>(), mode),
    {
        let c = Self::coef_l();
        proof {
            I::lemma_bounds();
            I::lemma_range(self.inner);
            lemma_div_round_in_range(self.value(), c.val(), mode, I::lo(), I::hi());
        }
        let (whole, frac) = self.inner.div_rem_l(c);
        let sign = sign_of(self.inner, c);
        round_quotient(whole, frac, sign, c, mode, Ghost(self.value())).unwrap()
    }

    /// Returns the largest integer less than or equal to a number.
    pub fn floor(self) -> (r: Self)
        requires
            I::lo() <= div_round(self.value(), coef::<P>(), RoundMode::Floor) * coef::<P>()
                <= I::hi(),
        ensures
            r.value() == div_round(self.value(), coef::<P>(), RoundMode::Floor) * coef::<P>(),
    {
        Self::from_integral(self.integral(RoundMode::Floor))
    }

    /// Returns the smallest integer greater than or equal to a number.
    pub fn ceil(self) -> (r: Self)
        requires
            I::lo() <= div_round(self.value(), coef::<P>(), RoundMode::Ceil) * coef::<P>()
                <= I::hi(),
        ensures
            r.value() == div_round(self.value(), coef::<P>(), RoundMode::Ceil) * coef::<P>(),
    {
        Self::from_integral(self.integral(RoundMode::Ceil))
    }

    /// Returns the nearest integer to a number. Round half-way cases away from `0.0`.
    pub fn round(self) -> (r: Self)
        requires
            I::lo() <= div_round(self.value(), coef::<P>(), RoundMode::Nearest) * coef::<P>()
                <= I::hi(),
        ensures
            r.value() == div_round(self.value(), coef::<P>(), RoundMode::Nearest) * coef::<P>(),
    {
        Self::from_integral(self.integral(RoundMode::Nearest))
    }

    /// The integer `v` as a fixed-point number, when it fits.
    fn from_integral(v: I) -> (r: Self)
        requires
            I::lo() <= v.val() * coef::<P>() <= I::hi(),
        ensures
            r.value() == v.val() * coef::<P>(),
    {
        proof {
            P::lemma_digits();
            P::lemma_fits_in();
            lemma_pow10_monotonic(P::digits(), I::max_digits());
            I::lemma_bounds();
        }
        Self::from_decimal(v, 0).unwrap()
    }

    /// Rounds towards zero by the provided precision: the greatest multiple of `precision`
    /// that is not farther from zero than the number. When `precision` is zero (or the
    /// quotient overflows) the number is returned unchanged.
    pub fn round_towards_zero_by(self, precision: Self) -> (r: Self)
        ensures
            r.value() == round_towards_zero_value(self.value(), precision.value(), I::lo()),
    {
        let a = self.inner;
        let p = precision.inner;
        if p.eq_l(I::from_i64(0)) || (a.eq_l(I::min_l()) && p.eq_l(I::from_i64(-1))) {
            return self;
        }
        let (q, _) = a.div_rem_l(p);
        proof {
            I::lemma_range(a);
            I::lemma_bounds();
            crate::ops::lemma_trunc_product_bound(a.val(), p.val());
        }
        match q.checked_mul_l(p) {
            Some(v) => Self::from_bits(v),
            None => self,
        }
    }

    /// Returns the next power of ten:
    /// * For positive: the smallest greater than or equal to a number.
    /// * For negative: the largest less than or equal to a number.
    /// `0` gives the smallest positive number (`EPSILON`).
    pub fn next_power_of_ten(self) -> (r: Result<Self, ArithmeticError>)
        ensures
            fp_outcome(r, checked_result(next_power_of_ten_value(self.value()), I::lo(), I::hi())),
    {
        proof {
            I::lemma_bounds();
            I::lemma_range(self.inner);
            lemma_next_pow10(abs(self.value()));
            let n = abs(self.value());
            lemma_pow10_beyond_layout::<I>(
                if n == 0 {
                    0
                } else {
                    crate::math::ndigits((n - 1) as nat)
                },
            );
        }
        if self.inner.lt_l(I::from_i64(0)) {
            let pos = match self.cneg() {
                Ok(v) => v,
                Err(e) => return Err(e),
            };
            let p = match next_power_of_ten_nonneg(pos.inner) {
                Ok(v) => v,
                Err(e) => return Err(e),
            };
            return Self::from_bits(p).cneg();
        }
        match next_power_of_ten_nonneg(self.inner) {
            Ok(v) => Ok(Self::from_bits(v)),
            Err(e) => Err(e),
        }
    }

    /// Returns the absolute value of a number; `Err(Overflow)` for `MIN`.
    pub fn abs(self) -> (r: Result<Self, ArithmeticError>)
        ensures
            fp_outcome(r, checked_result(abs(self.value()) as int, I::lo(), I::hi())),
    {
        proof {
            I::lemma_range(self.inner);
        }
        if self.inner.lt_l(I::from_i64(0)) {
            self.cneg()
        } else {
            Ok(self)
        }
    }

    /// Creates a new number from separate mantissa and exponent: `mantissa * 10^exponent`.
    /// The exponent must lie in `[-PRECISION, 10]`.
    pub fn from_decimal(mantissa: I, exponent: i32) -> (r: Result<Self, ConvertError>)
        requires
            exponent < -(P::digits() as int) || exponent > 10 || pow10(
                (exponent + P::digits()) as nat,
            ) <= I::hi(),
        ensures
            crate::string::parse_result(
                r,
                from_decimal_outcome::<I>(mantissa.val(), exponent as int, P::digits()),
            ),
    {
        let precision = Self::precision();
        proof {
            P::lemma_digits();
            P::lemma_fits_in();
        }
        if exponent < -precision || exponent > 10 {
            return Err(ConvertError::new(ConvertReason::UnsupportedExponent));
        }
        let multiplier = pow10_l::<I>((exponent + precision) as u32);
        match mantissa.checked_mul_l(multiplier) {
            Some(v) => {
                proof {
                    I::lemma_range(v);
                }
                Ok(Self::from_bits(v))
            },
            None => Err(ConvertError::new(ConvertReason::TooBigMantissa)),
        }
    }

    /// Returns a pair `(mantissa, exponent)` with `mantissa * 10^exponent` equal to the
    /// number, where `exponent` is in `[-PRECISION, max_exponent]` and as large as it can be.
    pub fn to_decimal(&self, max_exponent: i32) -> (r: (I, i32))
        requires
            max_exponent >= -(P::digits() as int),
        ensures
            decimal_form(self.value(), P::digits(), max_exponent as int, r.0.val(), r.1 as int),
    {
        let zero = I::from_i64(0);
        if self.inner.eq_l(zero) {
            return (zero, if max_exponent < 0 {
                max_exponent
            } else {
                0
            });
        }
        let ten = I::from_i64(10);
        let mut mantissa = self.inner;
        let mut exponent = -Self::precision();
        proof {
            I::lemma_bounds();
            assert((exponent + P::digits()) as nat == 0);
            assert(pow10(0) == 1);
            assert(mantissa.val() * pow10(0) == mantissa.val());
        }
        loop
            invariant
                ten.val() == 10,
                zero.val() == 0,
                -(P::digits() as int) <= exponent <= max_exponent,
                mantissa.val() != 0,
                mantissa.val() * pow10((exponent + P::digits()) as nat) == self.value(),
                I::lo() == -I::hi() - 1,
                I::hi() >= 3,
            ensures
                -(P::digits() as int) <= exponent <= max_exponent,
                mantissa.val() * pow10((exponent + P::digits()) as nat) == self.value(),
                exponent == max_exponent || mantissa.val() % 10 != 0,
            decreases abs(mantissa.val()),
        {
            if exponent >= max_exponent {
                break;
            }
            proof {
                I::lemma_range(mantissa);
                lemma_trunc_parts(mantissa.val(), 10);
            }
            let (q, rem) = mantissa.div_rem_l(ten);
            if !rem.eq_l(zero) {
                proof {
                    lemma_rem_nonzero(mantissa.val(), rem.val());
                }
                break;
            }
            proof {
                let e = (exponent + P::digits()) as nat;
                assert(pow10(e + 1) == 10 * pow10(e));
                assert(mantissa.val() == q.val() * 10);
                assert(q.val() * pow10(e + 1) == mantissa.val() * pow10(e)) by (nonlinear_arith)
                    requires
                        pow10(e + 1) == 10 * pow10(e),
                        mantissa.val() == q.val() * 10,
                ;
                assert(abs(q.val()) < abs(mantissa.val()));
            }
            exponent = exponent + 1;
            mantissa = q;
        }
        (mantissa, exponent)
    }
}

/// A non-zero truncated remainder by `10` means the dividend is not a multiple of `10`.
proof fn lemma_rem_nonzero(a: int, r: int)
    requires
        r == rem_trunc(a, 10),
        r != 0,
    ensures
        a % 10 != 0,
{
    lemma_trunc_parts(a, 10);
    if a % 10 == 0 {
        vstd::arithmetic::div_mod::lemma_fundamental_div_mod(a, 10);
        let q = a / 10;
        assert(a == 10 * q);
        if a >= 0 {
            vstd::arithmetic::div_mod::lemma_mod_multiples_basic(q, 10);
            vstd::arithmetic::mul::lemma_mul_is_commutative(q, 10);
        } else {
            vstd::arithmetic::div_mod::lemma_mod_multiples_basic(-q, 10);
            vstd::arithmetic::mul::lemma_mul_is_commutative(-q, 10);
            assert(-a == (-q) * 10);
        }
    }
}

/// The least power of ten at least `v`, for a non-negative `v`.
fn next_power_of_ten_nonneg<I: Layout>(v: I) -> (r: Result<I, ArithmeticError>)
    requires
        v.val() >= 0,
    ensures
        layout_outcome(r, checked_result(next_pow10(v.val() as nat) as int, I::lo(), I::hi())),
{
    proof {
        I::lemma_bounds();
        I::lemma_range(v);
        lemma_next_pow10(v.val() as nat);
    }
    let ten = I::from_i64(10);
    let mut p = I::from_i64(1);
    let ghost mut k: nat = 0;
    while p.lt_l(v)
        invariant
            ten.val() == 10,
            v.val() >= 0,
            p.val() == pow10(k),
            k == 0 || pow10((k - 1) as nat) < v.val(),
            I::lo() == -I::hi() - 1,
            forall|j: nat| pow10(j) >= v.val() ==> #[trigger] pow10(j) >= next_pow10(v.val() as nat),
        decreases if v.val() > p.val() {
            v.val() - p.val()
        } else {
            0
        },
    {
        proof {
            assert(pow10(k + 1) == 10 * pow10(k));
            lemma_pow10_pos(k);
        }
        p = match p.checked_mul_l(ten) {
            Some(x) => {
                proof {
                    assert(p.val() * ten.val() == 10 * p.val()) by (nonlinear_arith)
                        requires
                            ten.val() == 10,
                    ;
                }
                x
            },
            None => {
                proof {
                    // The power of ten wanted is at least `10^(k+1)`, beyond the layout.
                    lemma_least_pow10_above(v.val() as nat, k);
                }
                return Err(ArithmeticError::Overflow);
            },
        };
        proof {
            k = k + 1;
        }
    }
    proof {
        lemma_least_pow10_is(v.val() as nat, k);
        I::lemma_range(p);
    }
    Ok(p)
}

/// A power of ten beyond the layout is beyond it by more than one: the bound `hi + 1` is a
/// power of two, never a power of ten.
proof fn lemma_pow10_beyond_layout<I: Layout>(j: nat)
    ensures
        pow10(j) > I::hi() ==> pow10(j) > I::hi() + 1,
{
    I::lemma_bounds();
    if j <= I::max_digits() {
        lemma_pow10_monotonic(j, I::max_digits());
    } else {
        lemma_pow10_monotonic(I::max_digits() + 1, j);
    }
}

/// When `10^k < n`, the least power of ten at least `n` is at least `10^(k+1)`.
proof fn lemma_least_pow10_above(n: nat, k: nat)
    requires
        pow10(k) < n,
    ensures
        next_pow10(n) >= 10 * pow10(k),
{
    crate::math::lemma_ndigits_bounds((n - 1) as nat);
    let d = crate::math::ndigits((n - 1) as nat);
    if d <= k {
        lemma_pow10_monotonic(d, k);
    } else {
        crate::math::lemma_pow10_strict(k, d);
    }
}

/// When `10^(k-1) < n <= 10^k`, the least power of ten at least `n` is `10^k`.
proof fn lemma_least_pow10_is(n: nat, k: nat)
    requires
        n <= pow10(k),
        k == 0 || pow10((k - 1) as nat) < n,
    ensures
        next_pow10(n) == pow10(k),
{
    if n > 0 {
        crate::math::lemma_ndigits((n - 1) as nat, k);
    } else {
        lemma_pow10_pos(k);
        if k > 0 {
            lemma_pow10_pos((k - 1) as nat);
        }
    }
}

/// How `rsqrt` rounds the square root of `n >= 0`, from its integer square root `s`:
/// `Floor` gives `s`; `Ceil` gives `s + 1` unless `s * s == n`; `Nearest` gives `s + 1` when
/// `(s + 1)^2 - n <= n - s^2`, and `s` otherwise.
pub open spec fn sqrt_round(n: int, mode: RoundMode) -> int {
    let s = isqrt(n);
    match mode {
        RoundMode::Floor => s,
        RoundMode::Ceil => if s * s == n {
            s
        } else {
            s + 1
        },
        RoundMode::Nearest => if (s + 1) * (s + 1) - n <= n - s * s {
            s + 1
        } else {
            s
        },
    }
}


/// What the rounded square roots are: `Floor` gives the greatest `s` with `s^2 <= n`,
/// `Ceil` the least `c` with `n <= c^2`, `Nearest` one of the two; and a perfect square
/// `k^2` has the root `k` in every mode.
pub proof fn lemma_sqrt_round(n: int, mode: RoundMode)
    requires
        n >= 0,
    ensures
        ({
            let s = sqrt_round(n, RoundMode::Floor);
            0 <= s && s * s <= n && n < (s + 1) * (s + 1)
        }),
        ({
            let c = sqrt_round(n, RoundMode::Ceil);
            0 <= c && n <= c * c && (c == 0 || (c - 1) * (c - 1) < n)
        }),
        sqrt_round(n, RoundMode::Floor) <= sqrt_round(n, mode) <= sqrt_round(n, RoundMode::Ceil),
        sqrt_round(n, RoundMode::Ceil) <= sqrt_round(n, RoundMode::Floor) + 1,
        forall|k: int| k >= 0 && #[trigger] (k * k) == n ==> sqrt_round(n, mode) == k,
{
    let s = crate::ops::sqrt::lemma_isqrt_exists(n);
    lemma_isqrt(n, s);
    if s >= 1 {
        assert((s - 1) * (s - 1) < s * s) by (nonlinear_arith)
            requires
                s >= 1,
        ;
    }
    assert forall|k: int| k >= 0 && #[trigger] (k * k) == n implies sqrt_round(n, mode) == k by {
        assert(n < (k + 1) * (k + 1)) by (nonlinear_arith)
            requires
                k * k == n,
                k >= 0,
        ;
        lemma_isqrt(n, k);
        assert((k + 1) * (k + 1) - n > n - k * k) by (nonlinear_arith)
            requires
                k * k == n,
                k >= 0,
        ;
    }
}

impl<I: Layout, P: FitsIn<I>> FixedPoint<I, P> {
    /// Checked rounding square root. Returns `Err(DomainViolation)` for a negative number.
    ///
    /// Square root of a non-negative F is a non-negative S such that:
    /// * `Floor`: `S ≤ sqrt(F)`
    /// * `Ceil`: `S ≥ sqrt(F)`
    /// * `Nearest`: `Floor` or `Ceil`, which one is closer to `sqrt(F)`
    pub fn rsqrt(self, mode: RoundMode) -> (r: Result<Self, ArithmeticError>)
        ensures
            self.value() < 0 ==> r == Err::<Self, ArithmeticError>(
                ArithmeticError::DomainViolation,
            ),
            self.value() >= 0 ==> (r matches Ok(v) && v.value() == sqrt_round(
                self.value() * coef::<P>(),
                mode,
            )),
    {
        let zero = I::from_i64(0);
        let one = I::from_i64(1);
        if self.inner.lt_l(zero) {
            return Err(ArithmeticError::DomainViolation);
        }
        let c = Self::coef_l();
        let ghost n = self.value() * coef::<P>();
        proof {
            I::lemma_bounds();
            I::lemma_range(self.inner);
            I::lemma_promotion(self.inner);
            I::lemma_promotion(c);
            let v = self.value();
            let h = I::hi();
            assert(0 <= v * c.val() <= h * (h - 2)) by (nonlinear_arith)
                requires
                    0 <= v <= h,
                    1 <= c.val() <= h - 2,
            ;
            assert(h * (h - 2) < (h - 1) * (h - 1)) by (nonlinear_arith);
            assert((h - 1) * (h - 1) <= (h + 1) * (h + 1)) by (nonlinear_arith)
                requires
                    h >= 1,
            ;
        }
        // At first we have `S_inner = S * COEF`.
        // We'd like to gain `sqrt(S) * COEF`:
        // `sqrt(S) * COEF = sqrt(S * COEF^2) = sqrt(S_inner * COEF)`
        let squared = I::Promotion::from_layout(self.inner).mul_l(c);
        let lo = sqrt::<I>(squared);
        proof {
            lemma_isqrt(n, lo.val());
            I::lemma_promotion(lo);
            assert(lo.val() < I::hi() - 1) by (nonlinear_arith)
                requires
                    lo.val() * lo.val() <= n,
                    n < (I::hi() - 1) * (I::hi() - 1),
                    lo.val() >= 0,
                    I::hi() >= 2,
            ;
            assert((lo.val() + 1) * (lo.val() + 1) <= (I::hi() + 1) * (I::hi() + 1))
                by (nonlinear_arith)
                requires
                    0 <= lo.val() < I::hi() - 1,
            ;
            assert(lo.val() * lo.val() <= (lo.val() + 1) * (lo.val() + 1)) by (nonlinear_arith)
                requires
                    0 <= lo.val(),
            ;
        }
        let upper = lo.checked_add_l(one).unwrap();
        proof {
            I::lemma_promotion(upper);
        }
        let add_one = match mode {
            RoundMode::Floor => false,
            RoundMode::Nearest => {
                // We choose to round up iff
                //
                //  (lo+1)^2 - squared <= squared - lo^2
                let lo2 = I::Promotion::from_layout(lo).mul_l(lo);
                let hi2 = I::Promotion::from_layout(upper).mul_l(upper);
                let below = squared.sub_p(&lo2);
                let above = hi2.sub_p(&squared);
                !below.lt_p(&above)
            },
            RoundMode::Ceil => {
                let lo2 = I::Promotion::from_layout(lo).mul_l(lo);
                lo2.lt_p(&squared)
            },
        };
        let inner = if add_one {
            upper
        } else {
            lo
        };
        Ok(Self::from_bits(inner))
    }
}

/// The outcome of making the integer `v` a fixed-point number: `v * 10^PRECISION`, or
/// `TooBigNumber` when that leaves the layout.
pub open spec fn from_int_outcome<I: Layout, P: FitsIn<I>>(v: int) -> Result<
    FixedPoint<I, P>,
    ConvertError,
> {
    if I::lo() <= v * coef::<P>() <= I::hi() {
        Ok(FixedPoint::<I, P>::with_value(v * coef::<P>()))
    } else {
        Err(ConvertError::because(ConvertReason::TooBigNumber))
    }
}

impl<I: Layout, P: FitsIn<I>> FixedPoint<I, P> {
    fn from_i128_value(v: i128) -> (r: Result<Self, ConvertError>)
        ensures
            r == from_int_outcome::<I, P>(v as int),
    {
        let c = Self::coef_l();
        proof {
            I::lemma_bounds();
        }
        let x = match I::try_from_i128(v) {
            Some(x) => x,
            None => {
                proof {
                    lemma_scaled_out_of_range::<I>(v as int, c.val());
                }
                return Err(ConvertError::new(ConvertReason::TooBigNumber));
            },
        };
        match x.checked_mul_l(c) {
            Some(b) => {
                let f = Self::from_bits(b);
                proof {
                    Self::lemma_with_value(f);
                    I::lemma_range(b);
                }
                Ok(f)
            },
            None => Err(ConvertError::new(ConvertReason::TooBigNumber)),
        }
    }

    fn from_u128_value(v: u128) -> (r: Result<Self, ConvertError>)
        ensures
            r == from_int_outcome::<I, P>(v as int),
    {
        let c = Self::coef_l();
        proof {
            I::lemma_bounds();
        }
        let x = match I::try_from_u128(v) {
            Some(x) => x,
            None => {
                proof {
                    lemma_scaled_out_of_range::<I>(v as int, c.val());
                }
                return Err(ConvertError::new(ConvertReason::TooBigNumber));
            },
        };
        match x.checked_mul_l(c) {
            Some(b) => {
                let f = Self::from_bits(b);
                proof {
                    Self::lemma_with_value(f);
                    I::lemma_range(b);
                }
                Ok(f)
            },
            None => Err(ConvertError::new(ConvertReason::TooBigNumber)),
        }
    }
}

/// An integer outside the layout stays outside once scaled up.
proof fn lemma_scaled_out_of_range<I: Layout>(v: int, c: int)
    requires
        c >= 1,
        !(I::lo() <= v <= I::hi()),
        I::lo() < 0,
        I::hi() >= 0,
    ensures
        !(I::lo() <= v * c <= I::hi()),
{
    if v > 0 {
        assert(v * c >= v) by (nonlinear_arith)
            requires
                v > 0,
                c >= 1,
        ;
    } else {
        assert(v * c <= v) by (nonlinear_arith)
            requires
                v <= 0,
                c >= 1,
        ;
    }
}

impl<I: Layout, P: FitsIn<I>> TryFrom<i8> for FixedPoint<I, P> {
    type Error = ConvertError;

    /// `value * 10^PRECISION`, or `TooBigNumber` when that leaves the layout.
    fn try_from(value: i8) -> (r: Result<Self, ConvertError>) {
        Self::from_i128_value(value as i128)
    }
}

impl<I: Layout, P: FitsIn<I>> TryFromSpecImpl<i8> for FixedPoint<I, P> {
    open spec fn obeys_try_from_spec() -> bool {
        true
    }

    open spec fn try_from_spec(v: i8) -> Result<Self, ConvertError> {
        from_int_outcome::<I, P>(v as int)
    }
}

impl<I: Layout, P: FitsIn<I>> TryFrom<u8> for FixedPoint<I, P> {
    type Error = ConvertError;

    /// `value * 10^PRECISION`, or `TooBigNumber` when that leaves the layout.
    fn try_from(value: u8) -> (r: Result<Self, ConvertError>) {
        Self::from_u128_value(value as u128)
    }
}

impl<I: Layout, P: FitsIn<I>> TryFromSpecImpl<u8> for FixedPoint<I, P> {
    open spec fn obeys_try_from_spec() -> bool {
        true
    }

    open spec fn try_from_spec(v: u8) -> Result<Self, ConvertError> {
        from_int_outcome::<I, P>(v as int)
    }
}

impl<I: Layout, P: FitsIn<I>> TryFrom<i16> for FixedPoint<I, P> {
    type Error = ConvertError;

    /// `value * 10^PRECISION`, or `TooBigNumber` when that leaves the layout.
    fn try_from(value: i16) -> (r: Result<Self, ConvertError>) {
        Self::from_i128_value(value as i128)
    }
}

impl<I: Layout, P: FitsIn<I>> TryFromSpecImpl<i16> for FixedPoint<I, P> {
    open spec fn obeys_try_from_spec() -> bool {
        true
    }

    open spec fn try_from_spec(v: i16) -> Result<Self, ConvertError> {
        from_int_outcome::<I, P>(v as int)
    }
}

impl<I: Layout, P: FitsIn<I>> TryFrom<u16> for FixedPoint<I, P> {
    type Error = ConvertError;

    /// `value * 10^PRECISION`, or `TooBigNumber` when that leaves the layout.
    fn try_from(value: u16) -> (r: Result<Self, ConvertError>) {
        Self::from_u128_value(value as u128)
    }
}

impl<I: Layout, P: FitsIn<I>> TryFromSpecImpl<u16> for FixedPoint<I, P> {
    open spec fn obeys_try_from_spec() -> bool {
        true
    }

    open spec fn try_from_spec(v: u16) -> Result<Self, ConvertError> {
        from_int_outcome::<I, P>(v as int)
    }
}

impl<I: Layout, P: FitsIn<I>> TryFrom<i32> for FixedPoint<I, P> {
    type Error = ConvertError;

    /// `value * 10^PRECISION`, or `TooBigNumber` when that leaves the layout.
    fn try_from(value: i32) -> (r: Result<Self, ConvertError>) {
        Self::from_i128_value(value as i128)
    }
}

impl<I: Layout, P: FitsIn<I>> TryFromSpecImpl<i32> for FixedPoint<I, P> {
    open spec fn obeys_try_from_spec() -> bool {
        true
    }

    open spec fn try_from_spec(v: i32) -> Result<Self, ConvertError> {
        from_int_outcome::<I, P>(v as int)
    }
}

impl<I: Layout, P: FitsIn<I>> TryFrom<u32> for FixedPoint<I, P> {
    type Error = ConvertError;

    /// `value * 10^PRECISION`, or `TooBigNumber` when that leaves the layout.
    fn try_from(value: u32) -> (r: Result<Self, ConvertError>) {
        Self::from_u128_value(value as u128)
    }
}

impl<I: Layout, P: FitsIn<I>> TryFromSpecImpl<u32> for FixedPoint<I, P> {
    open spec fn obeys_try_from_spec() -> bool {
        true
    }

    open spec fn try_from_spec(v: u32) -> Result<Self, ConvertError> {
        from_int_outcome::<I, P>(v as int)
    }
}

impl<I: Layout, P: FitsIn<I>> TryFrom<i64> for FixedPoint<I, P> {
    type Error = ConvertError;

    /// `value * 10^PRECISION`, or `TooBigNumber` when that leaves the layout.
    fn try_from(value: i64) -> (r: Result<Self, ConvertError>) {
        Self::from_i128_value(value as i128)
    }
}

impl<I: Layout, P: FitsIn<I>> TryFromSpecImpl<i64> for FixedPoint<I, P> {
    open spec fn obeys_try_from_spec() -> bool {
        true
    }

    open spec fn try_from_spec(v: i64) -> Result<Self, ConvertError> {
        from_int_outcome::<I, P>(v as int)
    }
}

impl<I: Layout, P: FitsIn<I>> TryFrom<u64> for FixedPoint<I, P> {
    type Error = ConvertError;

    /// `value * 10^PRECISION`, or `TooBigNumber` when that leaves the layout.
    fn try_from(value: u64) -> (r: Result<Self, ConvertError>) {
        Self::from_u128_value(value as u128)
    }
}

impl<I: Layout, P: FitsIn<I>> TryFromSpecImpl<u64> for FixedPoint<I, P> {
    open spec fn obeys_try_from_spec() -> bool {
        true
    }

    open spec fn try_from_spec(v: u64) -> Result<Self, ConvertError> {
        from_int_outcome::<I, P>(v as int)
    }
}

impl<I: Layout, P: FitsIn<I>> TryFrom<i128> for FixedPoint<I, P> {
    type Error = ConvertError;

    /// `value * 10^PRECISION`, or `TooBigNumber` when that leaves the layout.
    fn try_from(value: i128) -> (r: Result<Self, ConvertError>) {
        Self::from_i128_value(value as i128)
    }
}

impl<I: Layout, P: FitsIn<I>> TryFromSpecImpl<i128> for FixedPoint<I, P> {
    open spec fn obeys_try_from_spec() -> bool {
        true
    }

    open spec fn try_from_spec(v: i128) -> Result<Self, ConvertError> {
        from_int_outcome::<I, P>(v as int)
    }
}

impl<I: Layout, P: FitsIn<I>> TryFrom<u128> for FixedPoint<I, P> {
    type Error = ConvertError;

    /// `value * 10^PRECISION`, or `TooBigNumber` when that leaves the layout.
    fn try_from(value: u128) -> (r: Result<Self, ConvertError>) {
        Self::from_u128_value(value as u128)
    }
}

impl<I: Layout, P: FitsIn<I>> TryFromSpecImpl<u128> for FixedPoint<I, P> {
    open spec fn obeys_try_from_spec() -> bool {
        true
    }

    open spec fn try_from_spec(v: u128) -> Result<Self, ConvertError> {
        from_int_outcome::<I, P>(v as int)
    }
}

impl<I: Layout, P: FitsIn<I>> TryFrom<isize> for FixedPoint<I, P> {
    type Error = ConvertError;

    /// `value * 10^PRECISION`, or `TooBigNumber` when that leaves the layout.
    fn try_from(value: isize) -> (r: Result<Self, ConvertError>) {
        Self::from_i128_value(value as i128)
    }
}

impl<I: Layout, P: FitsIn<I>> TryFromSpecImpl<isize> for FixedPoint<I, P> {
    open spec fn obeys_try_from_spec() -> bool {
        true
    }

    open spec fn try_from_spec(v: isize) -> Result<Self, ConvertError> {
        from_int_outcome::<I, P>(v as int)
    }
}

impl<I: Layout, P: FitsIn<I>> TryFrom<usize> for FixedPoint<I, P> {
    type Error = ConvertError;

    /// `value * 10^PRECISION`, or `TooBigNumber` when that leaves the layout.
    fn try_from(value: usize) -> (r: Result<Self, ConvertError>) {
        Self::from_u128_value(value as u128)
    }
}

impl<I: Layout, P: FitsIn<I>> TryFromSpecImpl<usize> for FixedPoint<I, P> {
    open spec fn obeys_try_from_spec() -> bool {
        true
    }

    open spec fn try_from_spec(v: usize) -> Result<Self, ConvertError> {
        from_int_outcome::<I, P>(v as int)
    }
}

} // verus!
