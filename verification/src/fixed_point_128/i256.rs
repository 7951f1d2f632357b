//! A signed 256-bit number in two's complement, with the constants that the 128-bit layout
//! needs. Its unsigned arithmetic is done by the `i256` crate's `u256`.
use core::cmp::Ordering;
use vstd::prelude::*;
use vstd::std_specs::convert::{FromSpecImpl, TryFromSpecImpl};

use crate::errors::ArithmeticError;
use crate::i256::{
    ext_u256_add, ext_u256_as_u128, ext_u256_cmp, ext_u256_from_u128, ext_u256_not,
    ext_u256_overflowing_mul, i128_outcome, lemma_neg_wrap,
    lemma_signed_product, lemma_words, lemma_words_injective, lemma_wrap_periodic,
    lemma_wrap_small, lemma_wrap_unsigned, wrap256, U256,
};
use crate::i256_polyfill::{i256_hi, i256_lo, pow2_256, words_unsigned, words_value};
use crate::math::abs;

verus! {

/// Signed 256-bit number. Works on top of U256 with help of two's complement.
#[derive(Copy, Clone, Debug, Eq, PartialEq)]
pub struct I256 {
    inner: U256,
}

impl I256 {
    /// The number.
    pub closed spec fn value(self) -> int {
        words_value(self.inner.0)
    }

    /// The number as an unsigned 256-bit word.
    pub closed spec fn unsigned(self) -> int {
        words_unsigned(self.inner.0)
    }

    /// The number whose value is `v` (for `v` in the 256-bit range).
    pub closed spec fn from_value(v: int) -> Self {
        choose|x: Self| x.value() == v
    }

    /// The number lies in the 256-bit range, and is the two's complement reading of its
    /// unsigned word.
    pub proof fn lemma_value(self)
        ensures
            0 <= self.unsigned() < pow2_256(),
            self.value() == (if self.unsigned() >= pow2_256() / 2 {
                self.unsigned() - pow2_256()
            } else {
                self.unsigned()
            }),
            i256_lo() <= self.value() <= i256_hi(),
    {
        lemma_words(self.inner.0);
    }

    /// A number is determined by its value.
    pub proof fn lemma_injective(a: Self, b: Self)
        requires
            a.value() == b.value(),
        ensures
            a == b,
    {
        a.lemma_value();
        b.lemma_value();
        lemma_words_injective(a.inner.0, b.inner.0);
    }

    /// `from_value` gives back the number whose value it is given.
    pub proof fn lemma_from_value(a: Self)
        ensures
            Self::from_value(a.value()) == a,
    {
        let b = Self::from_value(a.value());
        Self::lemma_injective(a, b);
    }

    /// Value 0
    pub fn u0() -> (r: Self)
        ensures
            r.value() == 0,
    {
        Self::from_u128(0)
    }

    /// Value 1
    pub fn p1() -> (r: Self)
        ensures
            r.value() == 1,
    {
        Self::from_u128(1)
    }

    /// Value 2
    pub fn p2() -> (r: Self)
        ensures
            r.value() == 2,
    {
        Self::from_u128(2)
    }

    /// Value 10
    pub fn p10() -> (r: Self)
        ensures
            r.value() == 10,
    {
        Self::from_u128(10)
    }

    /// Value `i128::MAX`
    pub fn i128_max() -> (r: Self)
        ensures
            r.value() == i128::MAX,
    {
        Self::from_u128(0x7fff_ffff_ffff_ffff_ffff_ffff_ffff_ffff)
    }

    /// Value `i128::MIN`. Very useful because `abs` isn't defined for `i128::MIN`
    pub fn i128_min() -> (r: Self)
        ensures
            r.value() == i128::MIN,
    {
        let r = Self::new(
            U256([0, 0x8000_0000_0000_0000, 0xffff_ffff_ffff_ffff, 0xffff_ffff_ffff_ffff]),
        );
        proof {
            r.lemma_value();
        }
        r
    }

    fn new(x: U256) -> (r: Self)
        ensures
            r.inner == x,
    {
        I256 { inner: x }
    }

    /// The number `x`, for `x < 2^128`.
    fn from_u128(x: u128) -> (r: Self)
        ensures
            r.value() == x,
    {
        let r = Self::new(
            U256(
                [
                    (x % 0x1_0000_0000_0000_0000) as u64,
                    (x / 0x1_0000_0000_0000_0000) as u64,
                    0,
                    0,
                ],
            ),
        );
        proof {
            vstd::arithmetic::div_mod::lemma_fundamental_div_mod(
                x as int,
                0x1_0000_0000_0000_0000int,
            );
            r.lemma_value();
        }
        r
    }

    /// Checked multiplication: the signed product, or `Err(Overflow)` when it does not fit in
    /// 256 bits.
    pub fn mul(self, rhs: Self) -> (r: Result<Self, ArithmeticError>)
        ensures
            i256_lo() <= self.value() * rhs.value() <= i256_hi() ==> (r matches Ok(v)
                && v.value() == self.value() * rhs.value()),
            !(i256_lo() <= self.value() * rhs.value() <= i256_hi()) ==> r == Err::<
                Self,
                ArithmeticError,
            >(ArithmeticError::Overflow),
    {
        let lhs_sign = self.sign();
        let rhs_sign = rhs.sign();
        let lhs = self.abs();
        let rhs_abs = rhs.abs();
        proof {
            self.lemma_value();
            rhs.lemma_value();
            lemma_signed_product(
                self.value(),
                rhs.value(),
                (abs(self.value()) * abs(rhs.value())) as int,
            );
        }
        let (value, has_overflow) = ext_u256_overflowing_mul(lhs.inner.0, rhs_abs.inner.0);

        if has_overflow {
            return Err(ArithmeticError::Overflow);
        }
        let result = Self::new(U256(value));
        proof {
            result.lemma_value();
            assert(lhs_sign ^ rhs_sign == 0 <==> lhs_sign == rhs_sign) by (bit_vector);
        }
        if lhs_sign ^ rhs_sign == 0 {
            if result.is_negative() {
                return Err(ArithmeticError::Overflow);
            }
            return Ok(result);
        }
        if result.is_negative() && !result.is_least() {
            return Err(ArithmeticError::Overflow);
        }
        let r = result.neg();
        proof {
            if result.value() == i256_lo() {
                lemma_wrap_periodic(-i256_lo(), -1);
                lemma_wrap_small(i256_lo());
            } else {
                lemma_wrap_small(-result.value());
            }
        }
        Ok(r)
    }

    fn abs(self) -> (r: Self)
        ensures
            r.unsigned() == abs(self.value()),
    {
        proof {
            self.lemma_value();
        }
        if !self.is_negative() {
            // positive or zero
            return self;
        }
        self.neg()
    }

    fn is_negative(self) -> (r: bool)
        ensures
            r == (self.value() < 0),
    {
        proof {
            self.lemma_value();
        }
        self.sign() != 0
    }

    /// 63'rd bit of the last word shows number sign:
    /// 1 -- number < 0 (0x8000_0000_0000_0000),
    /// 0 -- number >= 0 (0).
    /// Other bits are equal to 0.
    fn sign(self) -> (r: u64)
        ensures
            r == 0 || r == 0x8000_0000_0000_0000,
            (r == 0) == (self.value() >= 0),
    {
        proof {
            self.lemma_value();
        }
        let most_significant_word: u64 = self.words()[3];
        let r = most_significant_word & 0x8000_0000_0000_0000;
        proof {
            assert(most_significant_word & 0x8000_0000_0000_0000 == 0 || most_significant_word
                & 0x8000_0000_0000_0000 == 0x8000_0000_0000_0000) by (bit_vector);
            assert((most_significant_word & 0x8000_0000_0000_0000 == 0) == (most_significant_word
                < 0x8000_0000_0000_0000)) by (bit_vector);
        }
        r
    }

    fn words(&self) -> (r: &[u64; 4])
        ensures
            *r == self.inner.0,
    {
        &self.inner.0
    }

    /// Two's complement negation, `!x + 1`. Zero is its own negation, and so is the least
    /// number, whose negation does not fit.
    pub fn neg(self) -> (r: Self)
        ensures
            self.value() != 0 ==> r.unsigned() == pow2_256() - self.unsigned(),
            r.value() == wrap256(-self.value()),
    {
        proof {
            self.lemma_value();
        }
        if self.is_zero() {
            proof {
                lemma_wrap_small(0);
            }
            return self;
        }
        let flipped = ext_u256_not(self.inner.0);
        let one = ext_u256_from_u128(1);
        let r = Self::new(U256(ext_u256_add(flipped, one)));
        proof {
            r.lemma_value();
            lemma_neg_wrap(self.value(), self.unsigned(), r.unsigned());
        }
        r
    }

    /// Whether the number is zero.
    fn is_zero(self) -> (r: bool)
        ensures
            r == (self.value() == 0),
    {
        proof {
            self.lemma_value();
        }
        let w = self.inner.0;
        w[0] == 0 && w[1] == 0 && w[2] == 0 && w[3] == 0
    }

    /// Whether the number is the least 256-bit number, `-2^255`.
    fn is_least(self) -> (r: bool)
        ensures
            r == (self.value() == i256_lo()),
    {
        proof {
            self.lemma_value();
        }
        let w = self.inner.0;
        let r = w[0] == 0 && w[1] == 0 && w[2] == 0 && w[3] == 0x8000_0000_0000_0000;
        proof {
            if self.value() == i256_lo() {
                lemma_words_injective(w, [0, 0, 0, 0x8000_0000_0000_0000]);
            }
        }
        r
    }

    /// The order of two numbers.
    pub fn cmp(&self, other: &Self) -> (r: Ordering)
        ensures
            r == (if self.value() < other.value() {
                Ordering::Less
            } else if self.value() == other.value() {
                Ordering::Equal
            } else {
                Ordering::Greater
            }),
    {
        proof {
            self.lemma_value();
            other.lemma_value();
        }
        match (self.is_negative(), other.is_negative()) {
            (true, false) => Ordering::Less,
            (false, true) => Ordering::Greater,
            _ => ext_u256_cmp(self.inner.0, other.inner.0),
        }
    }

    /// Whether the number is greater than `i128::MAX`.
    fn is_above_i128_max(self) -> (r: bool)
        ensures
            r == (self.value() > i128::MAX),
    {
        match self.cmp(&Self::i128_max()) {
            Ordering::Greater => true,
            _ => false,
        }
    }

    /// Whether the number is less than `i128::MIN`.
    fn is_below_i128_min(self) -> (r: bool)
        ensures
            r == (self.value() < i128::MIN),
    {
        match self.cmp(&Self::i128_min()) {
            Ordering::Less => true,
            _ => false,
        }
    }

    /// Whether the number is `i128::MIN`.
    fn is_i128_min(self) -> (r: bool)
        ensures
            r == (self.value() == i128::MIN),
    {
        match self.cmp(&Self::i128_min()) {
            Ordering::Equal => true,
            _ => false,
        }
    }

    /// The magnitude of the number, which must fit in `i128`.
    fn magnitude_i128(self) -> (r: i128)
        requires
            abs(self.value()) <= i128::MAX,
        ensures
            r == abs(self.value()),
    {
        let m = self.abs();
        ext_u256_as_u128(m.inner.0) as i128
    }
}

impl From<i128> for I256 {
    fn from(x: i128) -> (r: Self)
        ensures
            r.value() == x,
    {
        if x == i128::MIN {
            // `abs` isn't defined for this only value
            let r = Self::i128_min();
            proof {
                Self::lemma_from_value(r);
            }
            return r;
        }
        let was_negative = x < 0;
        let magnitude: u128 = if was_negative {
            (-x) as u128
        } else {
            x as u128
        };
        let value = Self::new(U256(ext_u256_from_u128(magnitude)));
        proof {
            value.lemma_value();
        }
        let r = if was_negative {
            value.neg()
        } else {
            value
        };
        proof {
            if was_negative {
                lemma_wrap_small(x as int);
            }
            Self::lemma_from_value(r);
        }
        r
    }
}

impl FromSpecImpl<i128> for I256 {
    open spec fn obeys_from_spec() -> bool {
        true
    }

    open spec fn from_spec(v: i128) -> Self {
        I256::from_value(v as int)
    }
}

impl TryFrom<I256> for i128 {
    type Error = ArithmeticError;

    fn try_from(x: I256) -> (r: Result<i128, ArithmeticError>) {
        if x.is_above_i128_max() || x.is_below_i128_min() {
            return Err(ArithmeticError::Overflow);
        }
        if x.is_i128_min() {
            return Ok(i128::MIN);
        }
        let was_negative = x.is_negative();
        let m = x.magnitude_i128();
        if was_negative {
            return Ok(-m);
        }
        Ok(m)
    }
}

impl TryFromSpecImpl<I256> for i128 {
    open spec fn obeys_try_from_spec() -> bool {
        true
    }

    open spec fn try_from_spec(v: I256) -> Result<i128, ArithmeticError> {
        i128_outcome(v.value())
    }
}

} // verus!
