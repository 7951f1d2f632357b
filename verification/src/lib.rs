//! Fixed-point numbers with explicit rounding.
//!
//! A [`FixedPoint`] stores a signed integer (its *layout*: `i16`, `i32`, `i64` or `i128`) pre-multiplied by
//! `10 ^ PRECISION`, where `PRECISION` is a compile-time number of decimal places.
//! Every operation states how it rounds and when it fails.
use core::marker::PhantomData;
use vstd::prelude::*;

pub mod errors;
pub mod fixed;
pub mod fixed_point_128;
pub mod i256;
pub mod i256_polyfill;
pub mod laws;
pub mod layout;
pub mod macros;
pub mod math;
pub mod no_std;
pub mod ops;
pub mod string;

pub use errors::{ArithmeticError, ConvertError, ConvertReason};

use crate::layout::Layout;
use crate::math::pow10;

verus! {

/// Abstraction over fixed point numbers of arbitrary (but only compile-time specified) size
/// and precision.
///
/// The internal representation is a fixed point decimal number,
/// an integer value pre-multiplied by `10 ^ PRECISION`,
/// where `PRECISION` is a compile-time-defined decimal places count.
///
/// Maximal possible value: `MAX = (2 ^ (BITS_COUNT - 1) - 1) / 10 ^ PRECISION`
/// Maximal possible calculation error: `ERROR_MAX = 0.5 / (10 ^ PRECISION)`
#[derive(Default, PartialEq, Eq, PartialOrd, Ord, Hash, Debug)]
pub struct FixedPoint<I, P> {
    inner: I,
    _marker: PhantomData<P>,
}

impl<I: Copy, P> Clone for FixedPoint<I, P> {
    fn clone(&self) -> (r: Self)
        ensures
            r == *self,
    {
        *self
    }
}

impl<I: Copy, P> Copy for FixedPoint<I, P> {

}

/// The number of digits in the fractional part: at most 18; a layout holds the precisions
/// whose `10 ^ PRECISION` it fits (see [`FitsIn`]).
pub trait Precision {
    /// The number of decimal places.
    spec fn digits() -> nat;

    proof fn lemma_digits()
        ensures
            Self::digits() <= 18,
    ;

    /// The number of decimal places.
    fn precision() -> (p: u32)
        ensures
            p == Self::digits(),
    ;
}

/// A precision whose `10 ^ PRECISION` fits the layout `I`: the precisions that numbers
/// stored in `I` can have.
pub trait FitsIn<I: Layout>: Precision {
    proof fn lemma_fits_in()
        ensures
            Self::digits() <= I::max_digits(),
    ;
}

impl<P: Precision> FitsIn<i128> for P {
    proof fn lemma_fits_in() {
        P::lemma_digits();
    }
}

impl<P: Precision> FitsIn<i64> for P {
    proof fn lemma_fits_in() {
        P::lemma_digits();
    }
}

/// `10 ^ PRECISION`: the raw value of `1`.
pub open spec fn coef<P: Precision>() -> int {
    pow10(P::digits()) as int
}

impl<I, P> FixedPoint<I, P> {
    /// The raw representation.
    pub closed spec fn bits(self) -> I {
        self.inner
    }

    /// Creates from the raw representation. `1` here is equal to `1**-P`
    pub fn from_bits(raw: I) -> (r: Self)
        ensures
            r.bits() == raw,
    {
        FixedPoint { inner: raw, _marker: PhantomData }
    }

    /// Returns the raw representation.
    pub fn as_bits(&self) -> (r: &I)
        ensures
            *r == self.bits(),
    {
        &self.inner
    }

    /// Converts to the raw representation.
    pub fn into_bits(self) -> (r: I)
        ensures
            r == self.bits(),
    {
        self.inner
    }
}

impl<I: Layout, P> FixedPoint<I, P> {
    /// The raw representation as an integer: the number times `10 ^ PRECISION`.
    pub open spec fn value(self) -> int {
        self.bits().val()
    }

    /// The number whose raw representation is `x` (when `x` fits the layout).
    pub open spec fn with_value(x: int) -> Self {
        choose|f: Self| f.value() == x
    }

    /// Every raw value of the layout's range is that of a number.
    pub proof fn lemma_with_value_of(x: int)
        requires
            I::lo() <= x <= I::hi(),
        ensures
            Self::with_value(x).value() == x,
    {
        let raw = I::lemma_surjective(x);
        let f = FixedPoint::<I, P> { inner: raw, _marker: PhantomData };
        assert(f.value() == x);
    }

    /// A number is determined by its raw value.
    pub proof fn lemma_with_value(f: Self)
        ensures
            Self::with_value(f.value()) == f,
    {
        let g = Self::with_value(f.value());
        assert(g.value() == f.value());
        I::lemma_injective(g.inner, f.inner);
        assert(g.inner == f.inner);
        assert(g._marker == f._marker);
    }
}

/// 0 decimal places.
#[derive(Clone, Copy, Debug, Default, PartialEq, Eq, PartialOrd, Ord, Hash)]
pub struct U0;

impl Precision for U0 {
    open spec fn digits() -> nat {
        0
    }

    proof fn lemma_digits() {
    }

    fn precision() -> (p: u32) {
        0
    }
}

/// 1 decimal places.
#[derive(Clone, Copy, Debug, Default, PartialEq, Eq, PartialOrd, Ord, Hash)]
pub struct U1;

impl Precision for U1 {
    open spec fn digits() -> nat {
        1
    }

    proof fn lemma_digits() {
    }

    fn precision() -> (p: u32) {
        1
    }
}

/// 2 decimal places.
#[derive(Clone, Copy, Debug, Default, PartialEq, Eq, PartialOrd, Ord, Hash)]
pub struct U2;

impl Precision for U2 {
    open spec fn digits() -> nat {
        2
    }

    proof fn lemma_digits() {
    }

    fn precision() -> (p: u32) {
        2
    }
}

/// 3 decimal places.
#[derive(Clone, Copy, Debug, Default, PartialEq, Eq, PartialOrd, Ord, Hash)]
pub struct U3;

impl Precision for U3 {
    open spec fn digits() -> nat {
        3
    }

    proof fn lemma_digits() {
    }

    fn precision() -> (p: u32) {
        3
    }
}

/// 4 decimal places.
#[derive(Clone, Copy, Debug, Default, PartialEq, Eq, PartialOrd, Ord, Hash)]
pub struct U4;

impl Precision for U4 {
    open spec fn digits() -> nat {
        4
    }

    proof fn lemma_digits() {
    }

    fn precision() -> (p: u32) {
        4
    }
}

/// 5 decimal places.
#[derive(Clone, Copy, Debug, Default, PartialEq, Eq, PartialOrd, Ord, Hash)]
pub struct U5;

impl Precision for U5 {
    open spec fn digits() -> nat {
        5
    }

    proof fn lemma_digits() {
    }

    fn precision() -> (p: u32) {
        5
    }
}

/// 6 decimal places.
#[derive(Clone, Copy, Debug, Default, PartialEq, Eq, PartialOrd, Ord, Hash)]
pub struct U6;

impl Precision for U6 {
    open spec fn digits() -> nat {
        6
    }

    proof fn lemma_digits() {
    }

    fn precision() -> (p: u32) {
        6
    }
}

/// 7 decimal places.
#[derive(Clone, Copy, Debug, Default, PartialEq, Eq, PartialOrd, Ord, Hash)]
pub struct U7;

impl Precision for U7 {
    open spec fn digits() -> nat {
        7
    }

    proof fn lemma_digits() {
    }

    fn precision() -> (p: u32) {
        7
    }
}

/// 8 decimal places.
#[derive(Clone, Copy, Debug, Default, PartialEq, Eq, PartialOrd, Ord, Hash)]
pub struct U8;

impl Precision for U8 {
    open spec fn digits() -> nat {
        8
    }

    proof fn lemma_digits() {
    }

    fn precision() -> (p: u32) {
        8
    }
}

/// 9 decimal places.
#[derive(Clone, Copy, Debug, Default, PartialEq, Eq, PartialOrd, Ord, Hash)]
pub struct U9;

impl Precision for U9 {
    open spec fn digits() -> nat {
        9
    }

    proof fn lemma_digits() {
    }

    fn precision() -> (p: u32) {
        9
    }
}

/// 10 decimal places.
#[derive(Clone, Copy, Debug, Default, PartialEq, Eq, PartialOrd, Ord, Hash)]
pub struct U10;

impl Precision for U10 {
    open spec fn digits() -> nat {
        10
    }

    proof fn lemma_digits() {
    }

    fn precision() -> (p: u32) {
        10
    }
}

/// 11 decimal places.
#[derive(Clone, Copy, Debug, Default, PartialEq, Eq, PartialOrd, Ord, Hash)]
pub struct U11;

impl Precision for U11 {
    open spec fn digits() -> nat {
        11
    }

    proof fn lemma_digits() {
    }

    fn precision() -> (p: u32) {
        11
    }
}

/// 12 decimal places.
#[derive(Clone, Copy, Debug, Default, PartialEq, Eq, PartialOrd, Ord, Hash)]
pub struct U12;

impl Precision for U12 {
    open spec fn digits() -> nat {
        12
    }

    proof fn lemma_digits() {
    }

    fn precision() -> (p: u32) {
        12
    }
}

/// 13 decimal places.
#[derive(Clone, Copy, Debug, Default, PartialEq, Eq, PartialOrd, Ord, Hash)]
pub struct U13;

impl Precision for U13 {
    open spec fn digits() -> nat {
        13
    }

    proof fn lemma_digits() {
    }

    fn precision() -> (p: u32) {
        13
    }
}

/// 14 decimal places.
#[derive(Clone, Copy, Debug, Default, PartialEq, Eq, PartialOrd, Ord, Hash)]
pub struct U14;

impl Precision for U14 {
    open spec fn digits() -> nat {
        14
    }

    proof fn lemma_digits() {
    }

    fn precision() -> (p: u32) {
        14
    }
}

/// 15 decimal places.
#[derive(Clone, Copy, Debug, Default, PartialEq, Eq, PartialOrd, Ord, Hash)]
pub struct U15;

impl Precision for U15 {
    open spec fn digits() -> nat {
        15
    }

    proof fn lemma_digits() {
    }

    fn precision() -> (p: u32) {
        15
    }
}

/// 16 decimal places.
#[derive(Clone, Copy, Debug, Default, PartialEq, Eq, PartialOrd, Ord, Hash)]
pub struct U16;

impl Precision for U16 {
    open spec fn digits() -> nat {
        16
    }

    proof fn lemma_digits() {
    }

    fn precision() -> (p: u32) {
        16
    }
}

/// 17 decimal places.
#[derive(Clone, Copy, Debug, Default, PartialEq, Eq, PartialOrd, Ord, Hash)]
pub struct U17;

impl Precision for U17 {
    open spec fn digits() -> nat {
        17
    }

    proof fn lemma_digits() {
    }

    fn precision() -> (p: u32) {
        17
    }
}

/// 18 decimal places.
#[derive(Clone, Copy, Debug, Default, PartialEq, Eq, PartialOrd, Ord, Hash)]
pub struct U18;

impl Precision for U18 {
    open spec fn digits() -> nat {
        18
    }

    proof fn lemma_digits() {
    }

    fn precision() -> (p: u32) {
        18
    }
}

impl FitsIn<i32> for U0 {
    proof fn lemma_fits_in() {
    }
}

impl FitsIn<i32> for U1 {
    proof fn lemma_fits_in() {
    }
}

impl FitsIn<i32> for U2 {
    proof fn lemma_fits_in() {
    }
}

impl FitsIn<i32> for U3 {
    proof fn lemma_fits_in() {
    }
}

impl FitsIn<i32> for U4 {
    proof fn lemma_fits_in() {
    }
}

impl FitsIn<i32> for U5 {
    proof fn lemma_fits_in() {
    }
}

impl FitsIn<i32> for U6 {
    proof fn lemma_fits_in() {
    }
}

impl FitsIn<i32> for U7 {
    proof fn lemma_fits_in() {
    }
}

impl FitsIn<i32> for U8 {
    proof fn lemma_fits_in() {
    }
}

impl FitsIn<i32> for U9 {
    proof fn lemma_fits_in() {
    }
}

impl FitsIn<i16> for U0 {
    proof fn lemma_fits_in() {
    }
}

impl FitsIn<i16> for U1 {
    proof fn lemma_fits_in() {
    }
}

impl FitsIn<i16> for U2 {
    proof fn lemma_fits_in() {
    }
}

impl FitsIn<i16> for U3 {
    proof fn lemma_fits_in() {
    }
}

impl FitsIn<i16> for U4 {
    proof fn lemma_fits_in() {
    }
}

} // verus!
