//! Operands of mixed operations: how a value is promoted to the type the operation works in.
use vstd::prelude::*;

use crate::FixedPoint;

verus! {

/// A value that can stand on one side of an operation with `R`: it is promoted to
/// `Self::Promotion` first.
pub trait Operand<R>: Sized {
    type Promotion;

    /// The promoted value.
    spec fn promoted(self) -> Self::Promotion;

    /// Promotes the value.
    fn promote(self) -> (r: Self::Promotion)
        ensures
            r == self.promoted(),
    ;
}

impl<I, P> Operand<FixedPoint<I, P>> for FixedPoint<I, P> {
    type Promotion = FixedPoint<I, P>;

    open spec fn promoted(self) -> FixedPoint<I, P> {
        self
    }

    fn promote(self) -> (r: FixedPoint<I, P>) {
        self
    }
}

impl Operand<i8> for i8 {
    type Promotion = i8;

    open spec fn promoted(self) -> i8 {
        self
    }

    fn promote(self) -> (r: i8) {
        self
    }
}

impl Operand<i16> for i8 {
    type Promotion = i16;

    open spec fn promoted(self) -> i16 {
        self as i16
    }

    fn promote(self) -> (r: i16) {
        self as i16
    }
}

impl Operand<i32> for i8 {
    type Promotion = i32;

    open spec fn promoted(self) -> i32 {
        self as i32
    }

    fn promote(self) -> (r: i32) {
        self as i32
    }
}

impl Operand<i64> for i8 {
    type Promotion = i64;

    open spec fn promoted(self) -> i64 {
        self as i64
    }

    fn promote(self) -> (r: i64) {
        self as i64
    }
}

impl Operand<i128> for i8 {
    type Promotion = i128;

    open spec fn promoted(self) -> i128 {
        self as i128
    }

    fn promote(self) -> (r: i128) {
        self as i128
    }
}

impl<I, P> Operand<FixedPoint<I, P>> for i8 where i8: Operand<I> {
    type Promotion = <i8 as Operand<I>>::Promotion;

    open spec fn promoted(self) -> <i8 as Operand<I>>::Promotion {
        <i8 as Operand<I>>::promoted(self)
    }

    fn promote(self) -> (r: <i8 as Operand<I>>::Promotion) {
        Operand::<I>::promote(self)
    }
}

impl Operand<i16> for i16 {
    type Promotion = i16;

    open spec fn promoted(self) -> i16 {
        self
    }

    fn promote(self) -> (r: i16) {
        self
    }
}

impl Operand<i32> for i16 {
    type Promotion = i32;

    open spec fn promoted(self) -> i32 {
        self as i32
    }

    fn promote(self) -> (r: i32) {
        self as i32
    }
}

impl Operand<i64> for i16 {
    type Promotion = i64;

    open spec fn promoted(self) -> i64 {
        self as i64
    }

    fn promote(self) -> (r: i64) {
        self as i64
    }
}

impl Operand<i128> for i16 {
    type Promotion = i128;

    open spec fn promoted(self) -> i128 {
        self as i128
    }

    fn promote(self) -> (r: i128) {
        self as i128
    }
}

impl<I, P> Operand<FixedPoint<I, P>> for i16 where i16: Operand<I> {
    type Promotion = <i16 as Operand<I>>::Promotion;

    open spec fn promoted(self) -> <i16 as Operand<I>>::Promotion {
        <i16 as Operand<I>>::promoted(self)
    }

    fn promote(self) -> (r: <i16 as Operand<I>>::Promotion) {
        Operand::<I>::promote(self)
    }
}

impl Operand<i32> for i32 {
    type Promotion = i32;

    open spec fn promoted(self) -> i32 {
        self
    }

    fn promote(self) -> (r: i32) {
        self
    }
}

impl Operand<i64> for i32 {
    type Promotion = i64;

    open spec fn promoted(self) -> i64 {
        self as i64
    }

    fn promote(self) -> (r: i64) {
        self as i64
    }
}

impl Operand<i128> for i32 {
    type Promotion = i128;

    open spec fn promoted(self) -> i128 {
        self as i128
    }

    fn promote(self) -> (r: i128) {
        self as i128
    }
}

impl<I, P> Operand<FixedPoint<I, P>> for i32 where i32: Operand<I> {
    type Promotion = <i32 as Operand<I>>::Promotion;

    open spec fn promoted(self) -> <i32 as Operand<I>>::Promotion {
        <i32 as Operand<I>>::promoted(self)
    }

    fn promote(self) -> (r: <i32 as Operand<I>>::Promotion) {
        Operand::<I>::promote(self)
    }
}

impl Operand<i64> for i64 {
    type Promotion = i64;

    open spec fn promoted(self) -> i64 {
        self
    }

    fn promote(self) -> (r: i64) {
        self
    }
}

impl Operand<i128> for i64 {
    type Promotion = i128;

    open spec fn promoted(self) -> i128 {
        self as i128
    }

    fn promote(self) -> (r: i128) {
        self as i128
    }
}

impl<I, P> Operand<FixedPoint<I, P>> for i64 where i64: Operand<I> {
    type Promotion = <i64 as Operand<I>>::Promotion;

    open spec fn promoted(self) -> <i64 as Operand<I>>::Promotion {
        <i64 as Operand<I>>::promoted(self)
    }

    fn promote(self) -> (r: <i64 as Operand<I>>::Promotion) {
        Operand::<I>::promote(self)
    }
}

impl Operand<i128> for i128 {
    type Promotion = i128;

    open spec fn promoted(self) -> i128 {
        self
    }

    fn promote(self) -> (r: i128) {
        self
    }
}

impl<I, P> Operand<FixedPoint<I, P>> for i128 where i128: Operand<I> {
    type Promotion = <i128 as Operand<I>>::Promotion;

    open spec fn promoted(self) -> <i128 as Operand<I>>::Promotion {
        <i128 as Operand<I>>::promoted(self)
    }

    fn promote(self) -> (r: <i128 as Operand<I>>::Promotion) {
        Operand::<I>::promote(self)
    }
}

} // verus!
