//! The integer types a fixed-point number is stored in ("layouts"), and the wider types
//! ("promotions") that multiplication, division and square roots are computed in.
use vstd::prelude::*;

use crate::math::{abs, div_trunc, lemma_div_trunc_in_range, lemma_trunc_parts, pow10, rem_trunc};
use crate::ops::lemma_checked_div_is_trunc;

verus! {

/// A signed integer type that stores the raw value of a fixed-point number.
pub trait Layout: Copy + Sized {
    /// The wider type in which products and quotients are computed.
    type Promotion: Promotion<Layout = Self>;

    /// The integer this value stands for.
    spec fn val(self) -> int;

    /// The least value of the type.
    spec fn lo() -> int;

    /// The greatest value of the type.
    spec fn hi() -> int;

    proof fn lemma_range(x: Self)
        ensures
            Self::lo() <= x.val() <= Self::hi(),
    ;

    /// The number of decimal digits of the greatest power of ten in the type.
    spec fn max_digits() -> nat;

    proof fn lemma_bounds()
        ensures
            Self::lo() == -Self::hi() - 1,
            Self::hi() >= 0x7fff,
            Self::hi() <= 0x7fff_ffff_ffff_ffff_ffff_ffff_ffff_ffff,
            pow10(Self::max_digits()) + 2 <= Self::hi(),
            Self::hi() + 1 < pow10(Self::max_digits() + 1),
            Self::max_digits() >= 4,
            (Self::hi() + 1) % 5 == 3,
    ;

    proof fn lemma_injective(x: Self, y: Self)
        requires
            x.val() == y.val(),
        ensures
            x == y,
    ;

    /// Every integer of the range is the value of some element of the type.
    proof fn lemma_surjective(v: int) -> (x: Self)
        requires
            Self::lo() <= v <= Self::hi(),
        ensures
            x.val() == v,
    ;

    /// The promotion sees the layout's values as they are, and holds any product of two.
    proof fn lemma_promotion(x: Self)
        ensures
            Self::Promotion::lval(x) == x.val(),
            Self::Promotion::llo() == Self::lo(),
            Self::Promotion::lhi() == Self::hi(),
            Self::Promotion::phi() >= (Self::hi() + 1) * (Self::hi() + 1),
    ;

    /// A small constant of the type.
    fn from_i64(v: i64) -> (r: Self)
        requires
            i16::MIN <= v <= i16::MAX,
        ensures
            r.val() == v,
    ;

    fn min_l() -> (r: Self)
        ensures
            r.val() == Self::lo(),
    ;

    fn max_l() -> (r: Self)
        ensures
            r.val() == Self::hi(),
    ;

    fn lt_l(self, rhs: Self) -> (b: bool)
        ensures
            b == (self.val() < rhs.val()),
    ;

    fn eq_l(self, rhs: Self) -> (b: bool)
        ensures
            b == (self.val() == rhs.val()),
    ;

    fn checked_add_l(self, rhs: Self) -> (r: Option<Self>)
        ensures
            match r {
                Some(v) => v.val() == self.val() + rhs.val(),
                None => !(Self::lo() <= self.val() + rhs.val() <= Self::hi()),
            },
    ;

    fn checked_sub_l(self, rhs: Self) -> (r: Option<Self>)
        ensures
            match r {
                Some(v) => v.val() == self.val() - rhs.val(),
                None => !(Self::lo() <= self.val() - rhs.val() <= Self::hi()),
            },
    ;

    fn checked_mul_l(self, rhs: Self) -> (r: Option<Self>)
        ensures
            match r {
                Some(v) => v.val() == self.val() * rhs.val(),
                None => !(Self::lo() <= self.val() * rhs.val() <= Self::hi()),
            },
    ;

    /// Truncated quotient and remainder, as Rust's `/` and `%` compute them.
    fn div_rem_l(self, rhs: Self) -> (r: (Self, Self))
        requires
            rhs.val() != 0,
            !(self.val() == Self::lo() && rhs.val() == -1),
        ensures
            r.0.val() == div_trunc(self.val(), rhs.val()),
            r.1.val() == rem_trunc(self.val(), rhs.val()),
    ;

    /// `|self|`, which always fits in `u128`.
    fn unsigned_abs_l(self) -> (r: u128)
        ensures
            r == abs(self.val()),
    ;

    fn try_from_i128(v: i128) -> (r: Option<Self>)
        ensures
            match r {
                Some(x) => x.val() == v,
                None => !(Self::lo() <= v <= Self::hi()),
            },
    ;

    fn try_from_u128(v: u128) -> (r: Option<Self>)
        ensures
            match r {
                Some(x) => x.val() == v,
                None => !(v <= Self::hi()),
            },
    ;

    /// `(self + rhs) / 2` for non-negative operands, without overflow.
    fn avg_floor(self, rhs: Self) -> (r: Self)
        requires
            self.val() >= 0,
            rhs.val() >= 0,
        ensures
            r.val() == (self.val() + rhs.val()) / 2,
    ;
}

/// A signed integer type twice as wide as its layout.
pub trait Promotion: Copy + Sized {
    type Layout: Copy;

    /// The integer this value stands for.
    spec fn pval(self) -> int;

    /// The greatest value of the type; the least one is `-phi() - 1`.
    spec fn phi() -> int;

    /// The integer a value of the layout stands for.
    spec fn lval(x: Self::Layout) -> int;

    /// The least value of the layout.
    spec fn llo() -> int;

    /// The greatest value of the layout.
    spec fn lhi() -> int;

    proof fn lemma_promotion_range(x: Self)
        ensures
            -Self::phi() - 1 <= x.pval() <= Self::phi(),
    ;

    fn from_layout(x: Self::Layout) -> (r: Self)
        ensures
            r.pval() == Self::lval(x),
    ;

    fn mul_l(&self, rhs: Self::Layout) -> (r: Self)
        requires
            -Self::phi() - 1 <= self.pval() * Self::lval(rhs) <= Self::phi(),
        ensures
            r.pval() == self.pval() * Self::lval(rhs),
    ;

    fn div_l(&self, rhs: Self::Layout) -> (r: Self)
        requires
            Self::lval(rhs) != 0,
            self.pval() >= 0,
        ensures
            r.pval() == div_trunc(self.pval(), Self::lval(rhs)),
    ;

    fn div_rem_l(&self, rhs: Self::Layout) -> (r: (Self, Self::Layout))
        requires
            Self::lval(rhs) != 0,
            -Self::phi() <= self.pval(),
        ensures
            r.0.pval() == div_trunc(self.pval(), Self::lval(rhs)),
            Self::lval(r.1) == rem_trunc(self.pval(), Self::lval(rhs)),
    ;

    fn sub_p(&self, rhs: &Self) -> (r: Self)
        requires
            -Self::phi() - 1 <= self.pval() - rhs.pval() <= Self::phi(),
        ensures
            r.pval() == self.pval() - rhs.pval(),
    ;

    fn lt_p(&self, rhs: &Self) -> (b: bool)
        ensures
            b == (self.pval() < rhs.pval()),
    ;

    fn try_into_layout(&self) -> (r: Option<Self::Layout>)
        ensures
            match r {
                Some(x) => Self::lval(x) == self.pval(),
                None => !(Self::llo() <= self.pval() <= Self::lhi()),
            },
    ;
}

impl Layout for i16 {
    type Promotion = i32;

    open spec fn val(self) -> int {
        self as int
    }

    open spec fn lo() -> int {
        i16::MIN as int
    }

    open spec fn hi() -> int {
        i16::MAX as int
    }

    open spec fn max_digits() -> nat {
        4
    }

    proof fn lemma_range(x: Self) {
    }

    proof fn lemma_bounds() {
        reveal_with_fuel(pow10, 6);
    }

    proof fn lemma_injective(x: Self, y: Self) {
    }

    proof fn lemma_surjective(v: int) -> (x: Self) {
        v as i16
    }

    proof fn lemma_promotion(x: Self) {
        assert((i16::MAX + 1) * (i16::MAX + 1) <= i32::MAX) by (nonlinear_arith);
    }

    fn from_i64(v: i64) -> (r: Self) {
        v as i16
    }

    fn min_l() -> (r: Self) {
        i16::MIN
    }

    fn max_l() -> (r: Self) {
        i16::MAX
    }

    fn lt_l(self, rhs: Self) -> (b: bool) {
        self < rhs
    }

    fn eq_l(self, rhs: Self) -> (b: bool) {
        self == rhs
    }

    fn checked_add_l(self, rhs: Self) -> (r: Option<Self>) {
        self.checked_add(rhs)
    }

    fn checked_sub_l(self, rhs: Self) -> (r: Option<Self>) {
        self.checked_sub(rhs)
    }

    fn checked_mul_l(self, rhs: Self) -> (r: Option<Self>) {
        self.checked_mul(rhs)
    }

    fn div_rem_l(self, rhs: Self) -> (r: (Self, Self)) {
        proof {
            lemma_checked_div_is_trunc(self as int, rhs as int);
            lemma_trunc_parts(self as int, rhs as int);
            lemma_div_trunc_in_range(self as int, rhs as int, i16::MIN as int, i16::MAX as int);
        }
        let q = self.checked_div(rhs).unwrap();
        let r = self.checked_rem(rhs).unwrap();
        (q, r)
    }

    fn unsigned_abs_l(self) -> (r: u128) {
        if self >= 0 {
            self as u128
        } else {
            (-(self + 1)) as u128 + 1
        }
    }

    fn try_from_i128(v: i128) -> (r: Option<Self>) {
        if i16::MIN as i128 <= v && v <= i16::MAX as i128 {
            Some(v as i16)
        } else {
            None
        }
    }

    fn try_from_u128(v: u128) -> (r: Option<Self>) {
        if v <= i16::MAX as u128 {
            Some(v as i16)
        } else {
            None
        }
    }

    fn avg_floor(self, rhs: Self) -> (r: Self) {
        ((self as i32 + rhs as i32) / 2) as i16
    }
}

impl Layout for i32 {
    type Promotion = i64;

    open spec fn val(self) -> int {
        self as int
    }

    open spec fn lo() -> int {
        i32::MIN as int
    }

    open spec fn hi() -> int {
        i32::MAX as int
    }

    open spec fn max_digits() -> nat {
        9
    }

    proof fn lemma_range(x: Self) {
    }

    proof fn lemma_bounds() {
        reveal_with_fuel(pow10, 11);
    }

    proof fn lemma_injective(x: Self, y: Self) {
    }

    proof fn lemma_surjective(v: int) -> (x: Self) {
        v as i32
    }

    proof fn lemma_promotion(x: Self) {
        assert((i32::MAX + 1) * (i32::MAX + 1) <= i64::MAX) by (nonlinear_arith);
    }

    fn from_i64(v: i64) -> (r: Self) {
        v as i32
    }

    fn min_l() -> (r: Self) {
        i32::MIN
    }

    fn max_l() -> (r: Self) {
        i32::MAX
    }

    fn lt_l(self, rhs: Self) -> (b: bool) {
        self < rhs
    }

    fn eq_l(self, rhs: Self) -> (b: bool) {
        self == rhs
    }

    fn checked_add_l(self, rhs: Self) -> (r: Option<Self>) {
        self.checked_add(rhs)
    }

    fn checked_sub_l(self, rhs: Self) -> (r: Option<Self>) {
        self.checked_sub(rhs)
    }

    fn checked_mul_l(self, rhs: Self) -> (r: Option<Self>) {
        self.checked_mul(rhs)
    }

    fn div_rem_l(self, rhs: Self) -> (r: (Self, Self)) {
        proof {
            lemma_checked_div_is_trunc(self as int, rhs as int);
            lemma_trunc_parts(self as int, rhs as int);
            lemma_div_trunc_in_range(self as int, rhs as int, i32::MIN as int, i32::MAX as int);
        }
        let q = self.checked_div(rhs).unwrap();
        let r = self.checked_rem(rhs).unwrap();
        (q, r)
    }

    fn unsigned_abs_l(self) -> (r: u128) {
        if self >= 0 {
            self as u128
        } else {
            (-(self + 1)) as u128 + 1
        }
    }

    fn try_from_i128(v: i128) -> (r: Option<Self>) {
        if i32::MIN as i128 <= v && v <= i32::MAX as i128 {
            Some(v as i32)
        } else {
            None
        }
    }

    fn try_from_u128(v: u128) -> (r: Option<Self>) {
        if v <= i32::MAX as u128 {
            Some(v as i32)
        } else {
            None
        }
    }

    fn avg_floor(self, rhs: Self) -> (r: Self) {
        ((self as i64 + rhs as i64) / 2) as i32
    }
}

impl Layout for i64 {
    type Promotion = i128;

    open spec fn val(self) -> int {
        self as int
    }

    open spec fn lo() -> int {
        i64::MIN as int
    }

    open spec fn hi() -> int {
        i64::MAX as int
    }

    open spec fn max_digits() -> nat {
        18
    }

    proof fn lemma_range(x: Self) {
    }

    proof fn lemma_bounds() {
        reveal_with_fuel(pow10, 20);
    }

    proof fn lemma_injective(x: Self, y: Self) {
    }

    proof fn lemma_surjective(v: int) -> (x: Self) {
        v as i64
    }

    proof fn lemma_promotion(x: Self) {
        assert((i64::MAX + 1) * (i64::MAX + 1) <= i128::MAX) by (nonlinear_arith);
    }

    fn from_i64(v: i64) -> (r: Self) {
        v
    }

    fn min_l() -> (r: Self) {
        i64::MIN
    }

    fn max_l() -> (r: Self) {
        i64::MAX
    }

    fn lt_l(self, rhs: Self) -> (b: bool) {
        self < rhs
    }

    fn eq_l(self, rhs: Self) -> (b: bool) {
        self == rhs
    }

    fn checked_add_l(self, rhs: Self) -> (r: Option<Self>) {
        self.checked_add(rhs)
    }

    fn checked_sub_l(self, rhs: Self) -> (r: Option<Self>) {
        self.checked_sub(rhs)
    }

    fn checked_mul_l(self, rhs: Self) -> (r: Option<Self>) {
        self.checked_mul(rhs)
    }

    fn div_rem_l(self, rhs: Self) -> (r: (Self, Self)) {
        proof {
            lemma_checked_div_is_trunc(self as int, rhs as int);
            lemma_trunc_parts(self as int, rhs as int);
            lemma_div_trunc_in_range(self as int, rhs as int, i64::MIN as int, i64::MAX as int);
        }
        let q = self.checked_div(rhs).unwrap();
        let r = self.checked_rem(rhs).unwrap();
        (q, r)
    }

    fn unsigned_abs_l(self) -> (r: u128) {
        if self >= 0 {
            self as u128
        } else {
            (-(self + 1)) as u128 + 1
        }
    }

    fn try_from_i128(v: i128) -> (r: Option<Self>) {
        if i64::MIN as i128 <= v && v <= i64::MAX as i128 {
            Some(v as i64)
        } else {
            None
        }
    }

    fn try_from_u128(v: u128) -> (r: Option<Self>) {
        if v <= i64::MAX as u128 {
            Some(v as i64)
        } else {
            None
        }
    }

    fn avg_floor(self, rhs: Self) -> (r: Self) {
        ((self as i128 + rhs as i128) / 2) as i64
    }
}

impl Layout for i128 {
    type Promotion = crate::i256_polyfill::i256;

    open spec fn val(self) -> int {
        self as int
    }

    open spec fn lo() -> int {
        i128::MIN as int
    }

    open spec fn hi() -> int {
        i128::MAX as int
    }

    open spec fn max_digits() -> nat {
        38
    }

    proof fn lemma_range(x: Self) {
    }

    proof fn lemma_bounds() {
        reveal_with_fuel(pow10, 40);
    }

    proof fn lemma_injective(x: Self, y: Self) {
    }

    proof fn lemma_surjective(v: int) -> (x: Self) {
        v as i128
    }

    proof fn lemma_promotion(x: Self) {
    }

    fn from_i64(v: i64) -> (r: Self) {
        v as i128
    }

    fn min_l() -> (r: Self) {
        i128::MIN
    }

    fn max_l() -> (r: Self) {
        i128::MAX
    }

    fn lt_l(self, rhs: Self) -> (b: bool) {
        self < rhs
    }

    fn eq_l(self, rhs: Self) -> (b: bool) {
        self == rhs
    }

    fn checked_add_l(self, rhs: Self) -> (r: Option<Self>) {
        self.checked_add(rhs)
    }

    fn checked_sub_l(self, rhs: Self) -> (r: Option<Self>) {
        self.checked_sub(rhs)
    }

    fn checked_mul_l(self, rhs: Self) -> (r: Option<Self>) {
        self.checked_mul(rhs)
    }

    fn div_rem_l(self, rhs: Self) -> (r: (Self, Self)) {
        proof {
            lemma_checked_div_is_trunc(self as int, rhs as int);
            lemma_trunc_parts(self as int, rhs as int);
            lemma_div_trunc_in_range(self as int, rhs as int, i128::MIN as int, i128::MAX as int);
        }
        let q = self.checked_div(rhs).unwrap();
        let r = self.checked_rem(rhs).unwrap();
        (q, r)
    }

    fn unsigned_abs_l(self) -> (r: u128) {
        if self >= 0 {
            self as u128
        } else {
            (-(self + 1)) as u128 + 1
        }
    }

    fn try_from_i128(v: i128) -> (r: Option<Self>) {
        Some(v)
    }

    fn try_from_u128(v: u128) -> (r: Option<Self>) {
        if v <= i128::MAX as u128 {
            Some(v as i128)
        } else {
            None
        }
    }

    fn avg_floor(self, rhs: Self) -> (r: Self) {
        ((self as u128 + rhs as u128) / 2) as i128
    }
}

impl Promotion for i128 {
    type Layout = i64;

    open spec fn pval(self) -> int {
        self as int
    }

    open spec fn phi() -> int {
        i128::MAX as int
    }

    open spec fn lval(x: i64) -> int {
        x as int
    }

    open spec fn llo() -> int {
        i64::MIN as int
    }

    open spec fn lhi() -> int {
        i64::MAX as int
    }

    proof fn lemma_promotion_range(x: Self) {
    }

    fn from_layout(x: i64) -> (r: Self) {
        x as i128
    }

    fn mul_l(&self, rhs: i64) -> (r: Self) {
        *self * rhs as i128
    }

    fn div_l(&self, rhs: i64) -> (r: Self) {
        proof {
            lemma_checked_div_is_trunc(*self as int, rhs as int);
            lemma_div_trunc_in_range(*self as int, rhs as int, i128::MIN as int, i128::MAX as int);
        }
        self.checked_div(rhs as i128).unwrap()
    }

    fn div_rem_l(&self, rhs: i64) -> (r: (Self, i64)) {
        proof {
            lemma_checked_div_is_trunc(*self as int, rhs as int);
            lemma_trunc_parts(*self as int, rhs as int);
            lemma_div_trunc_in_range(*self as int, rhs as int, i128::MIN as int, i128::MAX as int);
        }
        let q = self.checked_div(rhs as i128).unwrap();
        let r = self.checked_rem(rhs as i128).unwrap();
        (q, r as i64)
    }

    fn sub_p(&self, rhs: &Self) -> (r: Self) {
        *self - *rhs
    }

    fn lt_p(&self, rhs: &Self) -> (b: bool) {
        *self < *rhs
    }

    fn try_into_layout(&self) -> (r: Option<i64>) {
        if i64::MIN as i128 <= *self && *self <= i64::MAX as i128 {
            Some(*self as i64)
        } else {
            None
        }
    }
}

impl Promotion for i64 {
    type Layout = i32;

    open spec fn pval(self) -> int {
        self as int
    }

    open spec fn phi() -> int {
        i64::MAX as int
    }

    open spec fn lval(x: i32) -> int {
        x as int
    }

    open spec fn llo() -> int {
        i32::MIN as int
    }

    open spec fn lhi() -> int {
        i32::MAX as int
    }

    proof fn lemma_promotion_range(x: Self) {
    }

    fn from_layout(x: i32) -> (r: Self) {
        x as i64
    }

    fn mul_l(&self, rhs: i32) -> (r: Self) {
        *self * rhs as i64
    }

    fn div_l(&self, rhs: i32) -> (r: Self) {
        proof {
            lemma_checked_div_is_trunc(*self as int, rhs as int);
            lemma_div_trunc_in_range(*self as int, rhs as int, i64::MIN as int, i64::MAX as int);
        }
        self.checked_div(rhs as i64).unwrap()
    }

    fn div_rem_l(&self, rhs: i32) -> (r: (Self, i32)) {
        proof {
            lemma_checked_div_is_trunc(*self as int, rhs as int);
            lemma_trunc_parts(*self as int, rhs as int);
            lemma_div_trunc_in_range(*self as int, rhs as int, i64::MIN as int, i64::MAX as int);
        }
        let q = self.checked_div(rhs as i64).unwrap();
        let r = self.checked_rem(rhs as i64).unwrap();
        (q, r as i32)
    }

    fn sub_p(&self, rhs: &Self) -> (r: Self) {
        *self - *rhs
    }

    fn lt_p(&self, rhs: &Self) -> (b: bool) {
        *self < *rhs
    }

    fn try_into_layout(&self) -> (r: Option<i32>) {
        if i32::MIN as i64 <= *self && *self <= i32::MAX as i64 {
            Some(*self as i32)
        } else {
            None
        }
    }
}

impl Promotion for i32 {
    type Layout = i16;

    open spec fn pval(self) -> int {
        self as int
    }

    open spec fn phi() -> int {
        i32::MAX as int
    }

    open spec fn lval(x: i16) -> int {
        x as int
    }

    open spec fn llo() -> int {
        i16::MIN as int
    }

    open spec fn lhi() -> int {
        i16::MAX as int
    }

    proof fn lemma_promotion_range(x: Self) {
    }

    fn from_layout(x: i16) -> (r: Self) {
        x as i32
    }

    fn mul_l(&self, rhs: i16) -> (r: Self) {
        *self * rhs as i32
    }

    fn div_l(&self, rhs: i16) -> (r: Self) {
        proof {
            lemma_checked_div_is_trunc(*self as int, rhs as int);
            lemma_div_trunc_in_range(*self as int, rhs as int, i32::MIN as int, i32::MAX as int);
        }
        self.checked_div(rhs as i32).unwrap()
    }

    fn div_rem_l(&self, rhs: i16) -> (r: (Self, i16)) {
        proof {
            lemma_checked_div_is_trunc(*self as int, rhs as int);
            lemma_trunc_parts(*self as int, rhs as int);
            lemma_div_trunc_in_range(*self as int, rhs as int, i32::MIN as int, i32::MAX as int);
        }
        let q = self.checked_div(rhs as i32).unwrap();
        let r = self.checked_rem(rhs as i32).unwrap();
        (q, r as i16)
    }

    fn sub_p(&self, rhs: &Self) -> (r: Self) {
        *self - *rhs
    }

    fn lt_p(&self, rhs: &Self) -> (b: bool) {
        *self < *rhs
    }

    fn try_into_layout(&self) -> (r: Option<i16>) {
        if i16::MIN as i32 <= *self && *self <= i16::MAX as i32 {
            Some(*self as i16)
        } else {
            None
        }
    }
}

} // verus!
