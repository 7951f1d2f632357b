//! Checked, saturating and rounding operations, for fixed-point numbers and for integers.
use vstd::prelude::*;

use crate::errors::ArithmeticError;
use crate::math::{abs, clamp, div_round, div_trunc, lemma_div_round_bounds, lemma_div_round_trunc, sgn2, lemma_trunc_parts, mode_sign, rem_trunc};

pub mod sqrt;

verus! {

/// The additive identity.
pub trait Zero: Sized {
    /// The value `0`.
    fn zero() -> Self;
}

/// The multiplicative identity.
pub trait One: Sized {
    /// The value `1`.
    fn one() -> Self;
}

/// The least and the greatest value of a type.
pub trait Bounded: Sized {
    /// The least value.
    fn min_value() -> Self;

    /// The greatest value.
    fn max_value() -> Self;
}

pub trait CheckedAdd<Rhs = Self>: Sized {
    type Output;
    type Error;

    /// Checked addition. Returns `Err` on overflow.
    fn cadd(self, rhs: Rhs) -> Result<Self::Output, Self::Error>;

    /// Saturating addition. Computes `self + rhs`, saturating at the numeric bounds
    /// (`MIN`, `MAX`) instead of overflowing.
    fn saturating_add(self, rhs: Rhs) -> Self::Output;
}

pub trait CheckedSub<Rhs = Self>: Sized {
    type Output;
    type Error;

    /// Checked subtraction. Returns `Err` on overflow.
    fn csub(self, rhs: Rhs) -> Result<Self::Output, Self::Error>;

    /// Saturating subtraction. Computes `self - rhs`, saturating at the numeric bounds
    /// (`MIN`, `MAX`) instead of overflowing.
    fn saturating_sub(self, rhs: Rhs) -> Self::Output;
}

pub trait CheckedMul<Rhs = Self>: Sized {
    type Output;
    type Error;

    /// Checked multiplication. Returns `Err` on overflow.
    /// This is multiplication without rounding, hence it's available only when at least one
    /// operand is integer.
    fn cmul(self, rhs: Rhs) -> Result<Self::Output, Self::Error>;

    /// Saturating multiplication. Computes `self * rhs`, saturating at the numeric bounds
    /// (`MIN`, `MAX`) instead of overflowing.
    fn saturating_mul(self, rhs: Rhs) -> Self::Output;
}

/// How a result that cannot be represented exactly is rounded.
#[derive(Debug, Clone, Copy, PartialEq, Eq, Structural)]
pub enum RoundMode {
    /// Towards positive infinity.
    Ceil,
    /// To the nearest representable value; half-way cases away from zero.
    Nearest,
    /// Towards negative infinity.
    Floor,
}

/// The number that a round mode stands for, as `mode as i32` gives it: `1` for `Ceil`, `-1`
/// for `Floor`, `0` for `Nearest`. It compares with the sign of a result, which is what rounding
/// away from zero in the direction of the mode asks.
pub fn mode_number(mode: RoundMode) -> (n: i32)
    ensures
        n == mode_sign(mode),
        mode == RoundMode::Ceil ==> n == 1,
        mode == RoundMode::Floor ==> n == -1,
        mode == RoundMode::Nearest ==> n == 0,
{
    match mode {
        RoundMode::Ceil => 1,
        RoundMode::Nearest => 0,
        RoundMode::Floor => -1,
    }
}

pub trait RoundingMul<Rhs = Self>: Sized {
    type Output;
    type Error;

    /// Checked rounded multiplication. Returns `Err` on overflow.
    /// Because of provided `RoundMode` it's possible to perform across the `FixedPoint` values.
    fn rmul(self, rhs: Rhs, mode: RoundMode) -> Result<Self::Output, Self::Error>;

    /// Saturating rounding multiplication. Computes `self * rhs`, saturating at the numeric
    /// bounds (`MIN`, `MAX`) instead of overflowing.
    fn saturating_rmul(self, rhs: Rhs, round_mode: RoundMode) -> Self::Output;
}

pub trait RoundingDiv<Rhs = Self>: Sized {
    type Output;
    type Error;

    /// Checked rounded division. Returns `Err` on overflow or attempt to divide by zero.
    /// Because of provided `RoundMode` it's possible to perform across the `FixedPoint` values.
    fn rdiv(self, rhs: Rhs, mode: RoundMode) -> Result<Self::Output, Self::Error>;
}

/// The outcome of a checked operation whose exact result is `x`, for a type whose values
/// are `[lo, hi]`.
pub open spec fn checked_result(x: int, lo: int, hi: int) -> Result<int, ArithmeticError> {
    if lo <= x <= hi {
        Ok(x)
    } else {
        Err(ArithmeticError::Overflow)
    }
}

/// The outcome of a rounded division of `a` by `b`, for a type whose values are `[lo, hi]`.
pub open spec fn rdiv_result(a: int, b: int, mode: RoundMode, lo: int, hi: int) -> Result<
    int,
    ArithmeticError,
> {
    if b == 0 {
        Err(ArithmeticError::DivisionByZero)
    } else {
        checked_result(div_round(a, b, mode), lo, hi)
    }
}


/// `|x|` as an unsigned number of the same width.
fn unsigned_abs_i8(x: i8) -> (r: u8)
    ensures
        r == abs(x as int),
{
    if x >= 0 {
        x as u8
    } else {
        (-(x + 1)) as u8 + 1
    }
}

/// `|x|` as an unsigned number of the same width.
fn unsigned_abs_i16(x: i16) -> (r: u16)
    ensures
        r == abs(x as int),
{
    if x >= 0 {
        x as u16
    } else {
        (-(x + 1)) as u16 + 1
    }
}

/// `|x|` as an unsigned number of the same width.
fn unsigned_abs_i32(x: i32) -> (r: u32)
    ensures
        r == abs(x as int),
{
    if x >= 0 {
        x as u32
    } else {
        (-(x + 1)) as u32 + 1
    }
}

/// `|x|` as an unsigned number of the same width.
fn unsigned_abs_i64(x: i64) -> (r: u64)
    ensures
        r == abs(x as int),
{
    if x >= 0 {
        x as u64
    } else {
        (-(x + 1)) as u64 + 1
    }
}

/// `|x|` as an unsigned number of the same width.
fn unsigned_abs_i128(x: i128) -> (r: u128)
    ensures
        r == abs(x as int),
{
    if x >= 0 {
        x as u128
    } else {
        (-(x + 1)) as u128 + 1
    }
}

impl CheckedAdd for i8 {
    type Output = i8;
    type Error = ArithmeticError;

    fn cadd(self, rhs: Self) -> (r: Result<i8, ArithmeticError>)
        ensures
            match checked_result(self + rhs, i8::MIN as int, i8::MAX as int) {
                Ok(x) => r == Ok::<i8, ArithmeticError>(x as i8),
                Err(e) => r == Err::<i8, ArithmeticError>(e),
            },
    {
        match self.checked_add(rhs) {
            Some(v) => Ok(v),
            None => Err(ArithmeticError::Overflow),
        }
    }

    fn saturating_add(self, rhs: Self) -> (r: i8)
        ensures
            r == clamp(self + rhs, i8::MIN as int, i8::MAX as int),
    {
        match self.checked_add(rhs) {
            Some(v) => v,
            None => if rhs < 0 { i8::MIN } else { i8::MAX },
        }
    }
}

impl CheckedSub for i8 {
    type Output = i8;
    type Error = ArithmeticError;

    fn csub(self, rhs: Self) -> (r: Result<i8, ArithmeticError>)
        ensures
            match checked_result(self - rhs, i8::MIN as int, i8::MAX as int) {
                Ok(x) => r == Ok::<i8, ArithmeticError>(x as i8),
                Err(e) => r == Err::<i8, ArithmeticError>(e),
            },
    {
        match self.checked_sub(rhs) {
            Some(v) => Ok(v),
            None => Err(ArithmeticError::Overflow),
        }
    }

    fn saturating_sub(self, rhs: Self) -> (r: i8)
        ensures
            r == clamp(self - rhs, i8::MIN as int, i8::MAX as int),
    {
        match self.checked_sub(rhs) {
            Some(v) => v,
            None => if rhs < 0 { i8::MAX } else { i8::MIN },
        }
    }
}

impl CheckedMul for i8 {
    type Output = i8;
    type Error = ArithmeticError;

    fn cmul(self, rhs: Self) -> (r: Result<i8, ArithmeticError>)
        ensures
            match checked_result(self * rhs, i8::MIN as int, i8::MAX as int) {
                Ok(x) => r == Ok::<i8, ArithmeticError>(x as i8),
                Err(e) => r == Err::<i8, ArithmeticError>(e),
            },
    {
        match self.checked_mul(rhs) {
            Some(v) => Ok(v),
            None => Err(ArithmeticError::Overflow),
        }
    }

    fn saturating_mul(self, rhs: Self) -> (r: i8)
        ensures
            r == clamp(self * rhs, i8::MIN as int, i8::MAX as int),
    {
        match self.checked_mul(rhs) {
            Some(v) => v,
            None => {
                proof {
                    lemma_product_sign(self as int, rhs as int);
                }
                if (self < 0) == (rhs < 0) { i8::MAX } else { i8::MIN }
            },
        }
    }
}

impl RoundingDiv for i8 {
    type Output = i8;
    type Error = ArithmeticError;

    fn rdiv(self, rhs: Self, mode: RoundMode) -> (r: Result<i8, ArithmeticError>)
        ensures
            match rdiv_result(self as int, rhs as int, mode, i8::MIN as int, i8::MAX as int) {
                Ok(x) => r == Ok::<i8, ArithmeticError>(x as i8),
                Err(e) => r == Err::<i8, ArithmeticError>(e),
            },
    {
        if rhs == 0 {
            return Err(ArithmeticError::DivisionByZero);
        }
        proof {
            lemma_div_round_trunc(self as int, rhs as int, mode);
            lemma_trunc_parts(self as int, rhs as int);
            lemma_div_round_bounds(self as int, rhs as int, mode);
            lemma_checked_div_is_trunc(self as int, rhs as int);
        }
        let mut result = match self.checked_div(rhs) {
            Some(q) => q,
            None => return Err(ArithmeticError::Overflow),
        };
        proof {
            lemma_trunc_product_bound(self as int, rhs as int);
        }
        let loss = self - result * rhs;
        if loss != 0 {
            let sign: i8 = if (self < 0) == (rhs < 0) { 1 } else { -1 };
            let add_signed_one = if mode == RoundMode::Nearest {
                let loss_abs = unsigned_abs_i8(loss);
                let rhs_abs = unsigned_abs_i8(rhs);
                loss_abs >= rhs_abs - loss_abs
            } else {
                mode_number(mode) as i8 == sign
            };
            if add_signed_one {
                result = match result.checked_add(sign) {
                    Some(v) => v,
                    None => return Err(ArithmeticError::Overflow),
                };
            }
        }
        Ok(result)
    }
}

impl CheckedAdd for i16 {
    type Output = i16;
    type Error = ArithmeticError;

    fn cadd(self, rhs: Self) -> (r: Result<i16, ArithmeticError>)
        ensures
            match checked_result(self + rhs, i16::MIN as int, i16::MAX as int) {
                Ok(x) => r == Ok::<i16, ArithmeticError>(x as i16),
                Err(e) => r == Err::<i16, ArithmeticError>(e),
            },
    {
        match self.checked_add(rhs) {
            Some(v) => Ok(v),
            None => Err(ArithmeticError::Overflow),
        }
    }

    fn saturating_add(self, rhs: Self) -> (r: i16)
        ensures
            r == clamp(self + rhs, i16::MIN as int, i16::MAX as int),
    {
        match self.checked_add(rhs) {
            Some(v) => v,
            None => if rhs < 0 { i16::MIN } else { i16::MAX },
        }
    }
}

impl CheckedSub for i16 {
    type Output = i16;
    type Error = ArithmeticError;

    fn csub(self, rhs: Self) -> (r: Result<i16, ArithmeticError>)
        ensures
            match checked_result(self - rhs, i16::MIN as int, i16::MAX as int) {
                Ok(x) => r == Ok::<i16, ArithmeticError>(x as i16),
                Err(e) => r == Err::<i16, ArithmeticError>(e),
            },
    {
        match self.checked_sub(rhs) {
            Some(v) => Ok(v),
            None => Err(ArithmeticError::Overflow),
        }
    }

    fn saturating_sub(self, rhs: Self) -> (r: i16)
        ensures
            r == clamp(self - rhs, i16::MIN as int, i16::MAX as int),
    {
        match self.checked_sub(rhs) {
            Some(v) => v,
            None => if rhs < 0 { i16::MAX } else { i16::MIN },
        }
    }
}

impl CheckedMul for i16 {
    type Output = i16;
    type Error = ArithmeticError;

    fn cmul(self, rhs: Self) -> (r: Result<i16, ArithmeticError>)
        ensures
            match checked_result(self * rhs, i16::MIN as int, i16::MAX as int) {
                Ok(x) => r == Ok::<i16, ArithmeticError>(x as i16),
                Err(e) => r == Err::<i16, ArithmeticError>(e),
            },
    {
        match self.checked_mul(rhs) {
            Some(v) => Ok(v),
            None => Err(ArithmeticError::Overflow),
        }
    }

    fn saturating_mul(self, rhs: Self) -> (r: i16)
        ensures
            r == clamp(self * rhs, i16::MIN as int, i16::MAX as int),
    {
        match self.checked_mul(rhs) {
            Some(v) => v,
            None => {
                proof {
                    lemma_product_sign(self as int, rhs as int);
                }
                if (self < 0) == (rhs < 0) { i16::MAX } else { i16::MIN }
            },
        }
    }
}

impl RoundingDiv for i16 {
    type Output = i16;
    type Error = ArithmeticError;

    fn rdiv(self, rhs: Self, mode: RoundMode) -> (r: Result<i16, ArithmeticError>)
        ensures
            match rdiv_result(self as int, rhs as int, mode, i16::MIN as int, i16::MAX as int) {
                Ok(x) => r == Ok::<i16, ArithmeticError>(x as i16),
                Err(e) => r == Err::<i16, ArithmeticError>(e),
            },
    {
        if rhs == 0 {
            return Err(ArithmeticError::DivisionByZero);
        }
        proof {
            lemma_div_round_trunc(self as int, rhs as int, mode);
            lemma_trunc_parts(self as int, rhs as int);
            lemma_div_round_bounds(self as int, rhs as int, mode);
            lemma_checked_div_is_trunc(self as int, rhs as int);
        }
        let mut result = match self.checked_div(rhs) {
            Some(q) => q,
            None => return Err(ArithmeticError::Overflow),
        };
        proof {
            lemma_trunc_product_bound(self as int, rhs as int);
        }
        let loss = self - result * rhs;
        if loss != 0 {
            let sign: i16 = if (self < 0) == (rhs < 0) { 1 } else { -1 };
            let add_signed_one = if mode == RoundMode::Nearest {
                let loss_abs = unsigned_abs_i16(loss);
                let rhs_abs = unsigned_abs_i16(rhs);
                loss_abs >= rhs_abs - loss_abs
            } else {
                mode_number(mode) as i16 == sign
            };
            if add_signed_one {
                result = match result.checked_add(sign) {
                    Some(v) => v,
                    None => return Err(ArithmeticError::Overflow),
                };
            }
        }
        Ok(result)
    }
}

impl CheckedAdd for i32 {
    type Output = i32;
    type Error = ArithmeticError;

    fn cadd(self, rhs: Self) -> (r: Result<i32, ArithmeticError>)
        ensures
            match checked_result(self + rhs, i32::MIN as int, i32::MAX as int) {
                Ok(x) => r == Ok::<i32, ArithmeticError>(x as i32),
                Err(e) => r == Err::<i32, ArithmeticError>(e),
            },
    {
        match self.checked_add(rhs) {
            Some(v) => Ok(v),
            None => Err(ArithmeticError::Overflow),
        }
    }

    fn saturating_add(self, rhs: Self) -> (r: i32)
        ensures
            r == clamp(self + rhs, i32::MIN as int, i32::MAX as int),
    {
        match self.checked_add(rhs) {
            Some(v) => v,
            None => if rhs < 0 { i32::MIN } else { i32::MAX },
        }
    }
}

impl CheckedSub for i32 {
    type Output = i32;
    type Error = ArithmeticError;

    fn csub(self, rhs: Self) -> (r: Result<i32, ArithmeticError>)
        ensures
            match checked_result(self - rhs, i32::MIN as int, i32::MAX as int) {
                Ok(x) => r == Ok::<i32, ArithmeticError>(x as i32),
                Err(e) => r == Err::<i32, ArithmeticError>(e),
            },
    {
        match self.checked_sub(rhs) {
            Some(v) => Ok(v),
            None => Err(ArithmeticError::Overflow),
        }
    }

    fn saturating_sub(self, rhs: Self) -> (r: i32)
        ensures
            r == clamp(self - rhs, i32::MIN as int, i32::MAX as int),
    {
        match self.checked_sub(rhs) {
            Some(v) => v,
            None => if rhs < 0 { i32::MAX } else { i32::MIN },
        }
    }
}

impl CheckedMul for i32 {
    type Output = i32;
    type Error = ArithmeticError;

    fn cmul(self, rhs: Self) -> (r: Result<i32, ArithmeticError>)
        ensures
            match checked_result(self * rhs, i32::MIN as int, i32::MAX as int) {
                Ok(x) => r == Ok::<i32, ArithmeticError>(x as i32),
                Err(e) => r == Err::<i32, ArithmeticError>(e),
            },
    {
        match self.checked_mul(rhs) {
            Some(v) => Ok(v),
            None => Err(ArithmeticError::Overflow),
        }
    }

    fn saturating_mul(self, rhs: Self) -> (r: i32)
        ensures
            r == clamp(self * rhs, i32::MIN as int, i32::MAX as int),
    {
        match self.checked_mul(rhs) {
            Some(v) => v,
            None => {
                proof {
                    lemma_product_sign(self as int, rhs as int);
                }
                if (self < 0) == (rhs < 0) { i32::MAX } else { i32::MIN }
            },
        }
    }
}

impl RoundingDiv for i32 {
    type Output = i32;
    type Error = ArithmeticError;

    fn rdiv(self, rhs: Self, mode: RoundMode) -> (r: Result<i32, ArithmeticError>)
        ensures
            match rdiv_result(self as int, rhs as int, mode, i32::MIN as int, i32::MAX as int) {
                Ok(x) => r == Ok::<i32, ArithmeticError>(x as i32),
                Err(e) => r == Err::<i32, ArithmeticError>(e),
            },
    {
        if rhs == 0 {
            return Err(ArithmeticError::DivisionByZero);
        }
        proof {
            lemma_div_round_trunc(self as int, rhs as int, mode);
            lemma_trunc_parts(self as int, rhs as int);
            lemma_div_round_bounds(self as int, rhs as int, mode);
            lemma_checked_div_is_trunc(self as int, rhs as int);
        }
        let mut result = match self.checked_div(rhs) {
            Some(q) => q,
            None => return Err(ArithmeticError::Overflow),
        };
        proof {
            lemma_trunc_product_bound(self as int, rhs as int);
        }
        let loss = self - result * rhs;
        if loss != 0 {
            let sign: i32 = if (self < 0) == (rhs < 0) { 1 } else { -1 };
            let add_signed_one = if mode == RoundMode::Nearest {
                let loss_abs = unsigned_abs_i32(loss);
                let rhs_abs = unsigned_abs_i32(rhs);
                loss_abs >= rhs_abs - loss_abs
            } else {
                mode_number(mode) as i32 == sign
            };
            if add_signed_one {
                result = match result.checked_add(sign) {
                    Some(v) => v,
                    None => return Err(ArithmeticError::Overflow),
                };
            }
        }
        Ok(result)
    }
}

impl CheckedAdd for i64 {
    type Output = i64;
    type Error = ArithmeticError;

    fn cadd(self, rhs: Self) -> (r: Result<i64, ArithmeticError>)
        ensures
            match checked_result(self + rhs, i64::MIN as int, i64::MAX as int) {
                Ok(x) => r == Ok::<i64, ArithmeticError>(x as i64),
                Err(e) => r == Err::<i64, ArithmeticError>(e),
            },
    {
        match self.checked_add(rhs) {
            Some(v) => Ok(v),
            None => Err(ArithmeticError::Overflow),
        }
    }

    fn saturating_add(self, rhs: Self) -> (r: i64)
        ensures
            r == clamp(self + rhs, i64::MIN as int, i64::MAX as int),
    {
        match self.checked_add(rhs) {
            Some(v) => v,
            None => if rhs < 0 { i64::MIN } else { i64::MAX },
        }
    }
}

impl CheckedSub for i64 {
    type Output = i64;
    type Error = ArithmeticError;

    fn csub(self, rhs: Self) -> (r: Result<i64, ArithmeticError>)
        ensures
            match checked_result(self - rhs, i64::MIN as int, i64::MAX as int) {
                Ok(x) => r == Ok::<i64, ArithmeticError>(x as i64),
                Err(e) => r == Err::<i64, ArithmeticError>(e),
            },
    {
        match self.checked_sub(rhs) {
            Some(v) => Ok(v),
            None => Err(ArithmeticError::Overflow),
        }
    }

    fn saturating_sub(self, rhs: Self) -> (r: i64)
        ensures
            r == clamp(self - rhs, i64::MIN as int, i64::MAX as int),
    {
        match self.checked_sub(rhs) {
            Some(v) => v,
            None => if rhs < 0 { i64::MAX } else { i64::MIN },
        }
    }
}

impl CheckedMul for i64 {
    type Output = i64;
    type Error = ArithmeticError;

    fn cmul(self, rhs: Self) -> (r: Result<i64, ArithmeticError>)
        ensures
            match checked_result(self * rhs, i64::MIN as int, i64::MAX as int) {
                Ok(x) => r == Ok::<i64, ArithmeticError>(x as i64),
                Err(e) => r == Err::<i64, ArithmeticError>(e),
            },
    {
        match self.checked_mul(rhs) {
            Some(v) => Ok(v),
            None => Err(ArithmeticError::Overflow),
        }
    }

    fn saturating_mul(self, rhs: Self) -> (r: i64)
        ensures
            r == clamp(self * rhs, i64::MIN as int, i64::MAX as int),
    {
        match self.checked_mul(rhs) {
            Some(v) => v,
            None => {
                proof {
                    lemma_product_sign(self as int, rhs as int);
                }
                if (self < 0) == (rhs < 0) { i64::MAX } else { i64::MIN }
            },
        }
    }
}

impl RoundingDiv for i64 {
    type Output = i64;
    type Error = ArithmeticError;

    fn rdiv(self, rhs: Self, mode: RoundMode) -> (r: Result<i64, ArithmeticError>)
        ensures
            match rdiv_result(self as int, rhs as int, mode, i64::MIN as int, i64::MAX as int) {
                Ok(x) => r == Ok::<i64, ArithmeticError>(x as i64),
                Err(e) => r == Err::<i64, ArithmeticError>(e),
            },
    {
        if rhs == 0 {
            return Err(ArithmeticError::DivisionByZero);
        }
        proof {
            lemma_div_round_trunc(self as int, rhs as int, mode);
            lemma_trunc_parts(self as int, rhs as int);
            lemma_div_round_bounds(self as int, rhs as int, mode);
            lemma_checked_div_is_trunc(self as int, rhs as int);
        }
        let mut result = match self.checked_div(rhs) {
            Some(q) => q,
            None => return Err(ArithmeticError::Overflow),
        };
        proof {
            lemma_trunc_product_bound(self as int, rhs as int);
        }
        let loss = self - result * rhs;
        if loss != 0 {
            let sign: i64 = if (self < 0) == (rhs < 0) { 1 } else { -1 };
            let add_signed_one = if mode == RoundMode::Nearest {
                let loss_abs = unsigned_abs_i64(loss);
                let rhs_abs = unsigned_abs_i64(rhs);
                loss_abs >= rhs_abs - loss_abs
            } else {
                mode_number(mode) as i64 == sign
            };
            if add_signed_one {
                result = match result.checked_add(sign) {
                    Some(v) => v,
                    None => return Err(ArithmeticError::Overflow),
                };
            }
        }
        Ok(result)
    }
}

impl CheckedAdd for i128 {
    type Output = i128;
    type Error = ArithmeticError;

    fn cadd(self, rhs: Self) -> (r: Result<i128, ArithmeticError>)
        ensures
            match checked_result(self + rhs, i128::MIN as int, i128::MAX as int) {
                Ok(x) => r == Ok::<i128, ArithmeticError>(x as i128),
                Err(e) => r == Err::<i128, ArithmeticError>(e),
            },
    {
        match self.checked_add(rhs) {
            Some(v) => Ok(v),
            None => Err(ArithmeticError::Overflow),
        }
    }

    fn saturating_add(self, rhs: Self) -> (r: i128)
        ensures
            r == clamp(self + rhs, i128::MIN as int, i128::MAX as int),
    {
        match self.checked_add(rhs) {
            Some(v) => v,
            None => if rhs < 0 { i128::MIN } else { i128::MAX },
        }
    }
}

impl CheckedSub for i128 {
    type Output = i128;
    type Error = ArithmeticError;

    fn csub(self, rhs: Self) -> (r: Result<i128, ArithmeticError>)
        ensures
            match checked_result(self - rhs, i128::MIN as int, i128::MAX as int) {
                Ok(x) => r == Ok::<i128, ArithmeticError>(x as i128),
                Err(e) => r == Err::<i128, ArithmeticError>(e),
            },
    {
        match self.checked_sub(rhs) {
            Some(v) => Ok(v),
            None => Err(ArithmeticError::Overflow),
        }
    }

    fn saturating_sub(self, rhs: Self) -> (r: i128)
        ensures
            r == clamp(self - rhs, i128::MIN as int, i128::MAX as int),
    {
        match self.checked_sub(rhs) {
            Some(v) => v,
            None => if rhs < 0 { i128::MAX } else { i128::MIN },
        }
    }
}

impl CheckedMul for i128 {
    type Output = i128;
    type Error = ArithmeticError;

    fn cmul(self, rhs: Self) -> (r: Result<i128, ArithmeticError>)
        ensures
            match checked_result(self * rhs, i128::MIN as int, i128::MAX as int) {
                Ok(x) => r == Ok::<i128, ArithmeticError>(x as i128),
                Err(e) => r == Err::<i128, ArithmeticError>(e),
            },
    {
        match self.checked_mul(rhs) {
            Some(v) => Ok(v),
            None => Err(ArithmeticError::Overflow),
        }
    }

    fn saturating_mul(self, rhs: Self) -> (r: i128)
        ensures
            r == clamp(self * rhs, i128::MIN as int, i128::MAX as int),
    {
        match self.checked_mul(rhs) {
            Some(v) => v,
            None => {
                proof {
                    lemma_product_sign(self as int, rhs as int);
                }
                if (self < 0) == (rhs < 0) { i128::MAX } else { i128::MIN }
            },
        }
    }
}

impl RoundingDiv for i128 {
    type Output = i128;
    type Error = ArithmeticError;

    fn rdiv(self, rhs: Self, mode: RoundMode) -> (r: Result<i128, ArithmeticError>)
        ensures
            match rdiv_result(self as int, rhs as int, mode, i128::MIN as int, i128::MAX as int) {
                Ok(x) => r == Ok::<i128, ArithmeticError>(x as i128),
                Err(e) => r == Err::<i128, ArithmeticError>(e),
            },
    {
        if rhs == 0 {
            return Err(ArithmeticError::DivisionByZero);
        }
        proof {
            lemma_div_round_trunc(self as int, rhs as int, mode);
            lemma_trunc_parts(self as int, rhs as int);
            lemma_div_round_bounds(self as int, rhs as int, mode);
            lemma_checked_div_is_trunc(self as int, rhs as int);
        }
        let mut result = match self.checked_div(rhs) {
            Some(q) => q,
            None => return Err(ArithmeticError::Overflow),
        };
        proof {
            lemma_trunc_product_bound(self as int, rhs as int);
        }
        let loss = self - result * rhs;
        if loss != 0 {
            let sign: i128 = if (self < 0) == (rhs < 0) { 1 } else { -1 };
            let add_signed_one = if mode == RoundMode::Nearest {
                let loss_abs = unsigned_abs_i128(loss);
                let rhs_abs = unsigned_abs_i128(rhs);
                loss_abs >= rhs_abs - loss_abs
            } else {
                mode_number(mode) as i128 == sign
            };
            if add_signed_one {
                result = match result.checked_add(sign) {
                    Some(v) => v,
                    None => return Err(ArithmeticError::Overflow),
                };
            }
        }
        Ok(result)
    }
}

proof fn lemma_product_sign(a: int, b: int)
    ensures
        (a < 0) == (b < 0) ==> a * b >= 0,
        (a < 0) != (b < 0) ==> a * b <= 0,
{
    if a < 0 && b < 0 {
        assert(a * b > 0) by (nonlinear_arith) requires a < 0, b < 0;
    } else if a >= 0 && b >= 0 {
        assert(a * b >= 0) by (nonlinear_arith) requires a >= 0, b >= 0;
    } else if a < 0 {
        assert(a * b <= 0) by (nonlinear_arith) requires a < 0, b >= 0;
    } else {
        assert(a * b <= 0) by (nonlinear_arith) requires a >= 0, b < 0;
    }
}

/// The quotient that `checked_div` computes on integers is the truncated one.
pub proof fn lemma_checked_div_is_trunc(x: int, d: int)
    requires
        d != 0,
    ensures
        div_trunc(x, d) == (if x == 0 {
            0
        } else if x > 0 && d > 0 {
            x / d
        } else if x < 0 && d < 0 {
            ((x * -1) / (d * -1))
        } else if x < 0 {
            ((x * -1) / d) * -1
        } else {
            (x / (d * -1)) * -1
        }),
{
    if x == 0 {
        vstd::arithmetic::div_mod::lemma_div_of0(abs(d) as int);
    }
}

/// `|trunc(a / b) * b| <= |a|`.
pub proof fn lemma_trunc_product_bound(a: int, b: int)
    requires
        b != 0,
    ensures
        abs(div_trunc(a, b) * b) <= abs(a),
        a - div_trunc(a, b) * b == rem_trunc(a, b),
        a >= 0 ==> 0 <= div_trunc(a, b) * b <= a,
        a < 0 ==> a <= div_trunc(a, b) * b <= 0,
{
    lemma_trunc_parts(a, b);
    let q = div_trunc(a, b);
    let r = rem_trunc(a, b);
    vstd::arithmetic::div_mod::lemma_mod_decreases(abs(a), abs(b));
    assert(abs(r) <= abs(a));
    assert(abs(q * b) <= abs(a)) by (nonlinear_arith)
        requires
            a == q * b + r,
            r == 0 || (r > 0) == (a > 0),
            abs(r) <= abs(a),
            abs(a) as int == (if a < 0 { -a } else { a }),
            abs(r) as int == (if r < 0 { -r } else { r }),
            abs(q * b) as int == (if q * b < 0 { -(q * b) } else { q * b }),
    ;
}

} // verus!
