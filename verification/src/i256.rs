//! A signed 256-bit number in two's complement, on top of an unsigned 256-bit number whose
//! arithmetic is done by the `i256` crate's `u256`.
use core::cmp::Ordering;
use vstd::prelude::*;

use ::i256::u256 as u256_;

use crate::errors::ArithmeticError;
use crate::i256_polyfill::{i256_hi, i256_lo, pow2_256, words_unsigned, words_value};
use crate::math::{abs, div_trunc};
use vstd::std_specs::convert::{FromSpecImpl, TryFromSpecImpl};
use vstd::std_specs::ops::MulSpecImpl;

verus! {

/// `x` wrapped into the two's complement range of 256 bits.
pub open spec fn wrap256(x: int) -> int {
    let m = (x + 0x8000_0000_0000_0000_0000_0000_0000_0000_0000_0000_0000_0000_0000_0000_0000_0000int)
        % pow2_256();
    m - 0x8000_0000_0000_0000_0000_0000_0000_0000_0000_0000_0000_0000_0000_0000_0000_0000int
}

/// An unsigned 256-bit number: four little-endian 64-bit words.
#[derive(Copy, Clone, Debug, Eq, PartialEq)]
pub struct U256(pub [u64; 4]);

impl U256 {
    /// The number.
    pub open spec fn value(self) -> int {
        words_unsigned(self.0)
    }
}

/// `u256_::overflowing_mul`: the product modulo `2^256`, and whether it overflowed.
#[verifier::external_body]
pub(crate) fn ext_u256_overflowing_mul(a: [u64; 4], b: [u64; 4]) -> (r: ([u64; 4], bool))
    ensures
        words_unsigned(r.0) == (words_unsigned(a) * words_unsigned(b)) % pow2_256(),
        r.1 == (words_unsigned(a) * words_unsigned(b) >= pow2_256()),
{
    let (v, o) = u256_::from_le_u64(a).overflowing_mul(u256_::from_le_u64(b));
    (v.to_le_u64(), o)
}

/// `u256_ / u256_`: the quotient rounded down.
#[verifier::external_body]
pub(crate) fn ext_u256_div(a: [u64; 4], b: [u64; 4]) -> (r: [u64; 4])
    requires
        words_unsigned(b) != 0,
    ensures
        words_unsigned(r) == words_unsigned(a) / words_unsigned(b),
{
    (u256_::from_le_u64(a) / u256_::from_le_u64(b)).to_le_u64()
}

/// `u256_ - u256_` (it panics when the result would be negative, which the precondition
/// rules out).
#[verifier::external_body]
pub(crate) fn ext_u256_sub(a: [u64; 4], b: [u64; 4]) -> (r: [u64; 4])
    requires
        words_unsigned(a) >= words_unsigned(b),
    ensures
        words_unsigned(r) == words_unsigned(a) - words_unsigned(b),
{
    (u256_::from_le_u64(a) - u256_::from_le_u64(b)).to_le_u64()
}

/// `u256_ + u256_` (it panics on overflow, which the precondition rules out).
#[verifier::external_body]
pub(crate) fn ext_u256_add(a: [u64; 4], b: [u64; 4]) -> (r: [u64; 4])
    requires
        words_unsigned(a) + words_unsigned(b) < pow2_256(),
    ensures
        words_unsigned(r) == words_unsigned(a) + words_unsigned(b),
{
    (u256_::from_le_u64(a) + u256_::from_le_u64(b)).to_le_u64()
}

/// `!u256_`: every bit flipped, that is `2^256 - 1 - x`.
#[verifier::external_body]
pub(crate) fn ext_u256_not(a: [u64; 4]) -> (r: [u64; 4])
    ensures
        words_unsigned(r) == pow2_256() - 1 - words_unsigned(a),
{
    (!u256_::from_le_u64(a)).to_le_u64()
}

/// `u256_::cmp`: the order of two numbers.
#[verifier::external_body]
pub(crate) fn ext_u256_cmp(a: [u64; 4], b: [u64; 4]) -> (r: Ordering)
    ensures
        r == (if words_unsigned(a) < words_unsigned(b) {
            Ordering::Less
        } else if words_unsigned(a) == words_unsigned(b) {
            Ordering::Equal
        } else {
            Ordering::Greater
        }),
{
    u256_::from_le_u64(a).cmp(&u256_::from_le_u64(b))
}

/// `u256_::from_u128`.
#[verifier::external_body]
pub(crate) fn ext_u256_from_u128(x: u128) -> (r: [u64; 4])
    ensures
        words_unsigned(r) == x,
{
    u256_::from_u128(x).to_le_u64()
}

/// `u256_::as_u128`: the low 128 bits, which are the number when it fits in `u128`.
#[verifier::external_body]
pub(crate) fn ext_u256_as_u128(a: [u64; 4]) -> (r: u128)
    requires
        words_unsigned(a) <= u128::MAX,
    ensures
        r == words_unsigned(a),
{
    u256_::from_le_u64(a).as_u128()
}

/// Signed and unsigned readings of the same words.
pub proof fn lemma_words(w: [u64; 4])
    ensures
        0 <= words_unsigned(w) < pow2_256(),
        words_value(w) == (if words_unsigned(w) >= pow2_256() / 2 {
            words_unsigned(w) - pow2_256()
        } else {
            words_unsigned(w)
        }),
        (words_value(w) < 0) == (w[3] >= 0x8000_0000_0000_0000),
        i256_lo() <= words_value(w) <= i256_hi(),
{
}


/// Four words are determined by the unsigned number they stand for.
pub proof fn lemma_words_injective(a: [u64; 4], b: [u64; 4])
    requires
        words_unsigned(a) == words_unsigned(b),
    ensures
        a == b,
{
    let ra2 = a[2] + 0x1_0000_0000_0000_0000int * a[3];
    let rb2 = b[2] + 0x1_0000_0000_0000_0000int * b[3];
    let ra1 = a[1] + 0x1_0000_0000_0000_0000int * ra2;
    let rb1 = b[1] + 0x1_0000_0000_0000_0000int * rb2;
    assert(words_unsigned(a) == ra1 * 0x1_0000_0000_0000_0000int + a[0]);
    assert(words_unsigned(b) == rb1 * 0x1_0000_0000_0000_0000int + b[0]);
    vstd::arithmetic::div_mod::lemma_fundamental_div_mod_converse(
        words_unsigned(a),
        0x1_0000_0000_0000_0000int,
        ra1,
        a[0] as int,
    );
    vstd::arithmetic::div_mod::lemma_fundamental_div_mod_converse(
        words_unsigned(b),
        0x1_0000_0000_0000_0000int,
        rb1,
        b[0] as int,
    );
    vstd::arithmetic::div_mod::lemma_fundamental_div_mod_converse(
        ra1,
        0x1_0000_0000_0000_0000int,
        ra2,
        a[1] as int,
    );
    vstd::arithmetic::div_mod::lemma_fundamental_div_mod_converse(
        rb1,
        0x1_0000_0000_0000_0000int,
        rb2,
        b[1] as int,
    );
    vstd::arithmetic::div_mod::lemma_fundamental_div_mod_converse(
        ra2,
        0x1_0000_0000_0000_0000int,
        a[3] as int,
        a[2] as int,
    );
    vstd::arithmetic::div_mod::lemma_fundamental_div_mod_converse(
        rb2,
        0x1_0000_0000_0000_0000int,
        b[3] as int,
        b[2] as int,
    );
    assert(a =~= b);
}

/// A value in the 256-bit range is its own wrap.
pub proof fn lemma_wrap_small(x: int)
    requires
        i256_lo() <= x <= i256_hi(),
    ensures
        wrap256(x) == x,
{
    let h = 0x8000_0000_0000_0000_0000_0000_0000_0000_0000_0000_0000_0000_0000_0000_0000_0000int;
    vstd::arithmetic::div_mod::lemma_small_mod((x + h) as nat, pow2_256() as nat);
}

/// Signed 256-bit number. Works on top of U256 with help of two's complement.
#[derive(Copy, Clone, Debug, Eq, PartialEq)]
pub struct I256 {
    inner: U256,
}

impl I256 {
    /// The number.
    pub closed spec fn value(self) -> int {
        words_value(self.inner.0)
    }

    /// The number as an unsigned 256-bit word.
    pub closed spec fn unsigned(self) -> int {
        words_unsigned(self.inner.0)
    }

    /// The number lies in the 256-bit range, and is the two's complement reading of its
    /// unsigned word.
    pub proof fn lemma_value(self)
        ensures
            0 <= self.unsigned() < pow2_256(),
            self.value() == (if self.unsigned() >= pow2_256() / 2 {
                self.unsigned() - pow2_256()
            } else {
                self.unsigned()
            }),
            i256_lo() <= self.value() <= i256_hi(),
    {
        lemma_words(self.inner.0);
    }

    /// Value `i128::MAX`
    pub fn i128_max() -> (r: Self)
        ensures
            r.value() == i128::MAX,
    {
        Self::from_u127(i128::MAX as u128)
    }

    /// Value `i128::MIN`. Very useful because `abs` isn't defined for `i128::MIN`
    pub fn i128_min() -> (r: Self)
        ensures
            r.value() == i128::MIN,
    {
        let r = Self::new(
            U256([0, 0x8000_0000_0000_0000, 0xffff_ffff_ffff_ffff, 0xffff_ffff_ffff_ffff]),
        );
        proof {
            r.lemma_value();
        }
        r
    }

    fn new(x: U256) -> (r: Self)
        ensures
            r.inner == x,
    {
        I256 { inner: x }
    }

    /// The number `x`.
    pub fn from_u64(x: u64) -> (r: Self)
        ensures
            r.value() == x,
    {
        let mut words = [0u64; 4];
        words[0] = x;
        let r = Self::new(U256(words));
        proof {
            r.lemma_value();
        }
        r
    }

    /// The number `x`, for `x < 2^127`.
    fn from_u127(x: u128) -> (r: Self)
        requires
            x <= i128::MAX,
        ensures
            r.value() == x,
    {
        let r = Self::new(
            U256(
                [
                    (x % 0x1_0000_0000_0000_0000) as u64,
                    (x / 0x1_0000_0000_0000_0000) as u64,
                    0,
                    0,
                ],
            ),
        );
        proof {
            vstd::arithmetic::div_mod::lemma_fundamental_div_mod(
                x as int,
                0x1_0000_0000_0000_0000int,
            );
            r.lemma_value();
        }
        r
    }

    /// Checked multiplication: the signed product, or `Err(Overflow)` when it does not fit in
    /// 256 bits.
    pub fn mul(self, rhs: Self) -> (r: Result<Self, ArithmeticError>)
        ensures
            i256_lo() <= self.value() * rhs.value() <= i256_hi() ==> (r matches Ok(v)
                && v.value() == self.value() * rhs.value()),
            !(i256_lo() <= self.value() * rhs.value() <= i256_hi()) ==> r == Err::<
                Self,
                ArithmeticError,
            >(ArithmeticError::Overflow),
    {
        let lhs_sign = self.sign();
        let rhs_sign = rhs.sign();
        let lhs = self.abs();
        let rhs_abs = rhs.abs();
        proof {
            self.lemma_value();
            rhs.lemma_value();
            lemma_signed_product(
                self.value(),
                rhs.value(),
                (abs(self.value()) * abs(rhs.value())) as int,
            );
        }
        let (value, has_overflow) = ext_u256_overflowing_mul(lhs.inner.0, rhs_abs.inner.0);

        if has_overflow {
            return Err(ArithmeticError::Overflow);
        }
        let result = Self::new(U256(value));
        proof {
            result.lemma_value();
            assert(lhs_sign ^ rhs_sign == 0 <==> lhs_sign == rhs_sign) by (bit_vector);
        }
        if lhs_sign ^ rhs_sign == 0 {
            if result.is_negative() {
                return Err(ArithmeticError::Overflow);
            }
            return Ok(result);
        }
        if result.is_negative() && !result.is_least() {
            return Err(ArithmeticError::Overflow);
        }
        let r = result.neg();
        proof {
            if result.value() == i256_lo() {
                lemma_wrap_periodic(-i256_lo(), -1);
                lemma_wrap_small(i256_lo());
            } else {
                lemma_wrap_small(-result.value());
            }
        }
        Ok(r)
    }

    /// The magnitude of a number is the unsigned reading of its negation (or of itself).
    proof fn lemma_magnitude(self)
        ensures
            self.value() >= 0 ==> self.unsigned() == abs(self.value()),
            self.value() < 0 ==> pow2_256() - self.unsigned() == abs(self.value()),
    {
        self.lemma_value();
    }

    fn abs(self) -> (r: Self)
        ensures
            r.unsigned() == abs(self.value()),
    {
        proof {
            self.lemma_value();
        }
        if !self.is_negative() {
            return self;
        }
        self.neg()
    }

    fn is_negative(self) -> (r: bool)
        ensures
            r == (self.value() < 0),
    {
        proof {
            self.lemma_value();
        }
        self.sign() != 0
    }

    /// 63'rd bit of the last word shows number sign:
    /// 1 -- number < 0 (0x8000_0000_0000_0000),
    /// 0 -- number >= 0 (0).
    /// Other bits are equal to 0.
    fn sign(self) -> (r: u64)
        ensures
            r == 0 || r == 0x8000_0000_0000_0000,
            (r == 0) == (self.value() >= 0),
    {
        proof {
            self.lemma_value();
        }
        let most_significant_word: u64 = self.words()[3];
        let r = most_significant_word & 0x8000_0000_0000_0000;
        proof {
            assert(most_significant_word & 0x8000_0000_0000_0000 == 0 || most_significant_word
                & 0x8000_0000_0000_0000 == 0x8000_0000_0000_0000) by (bit_vector);
            assert((most_significant_word & 0x8000_0000_0000_0000 == 0) == (most_significant_word
                < 0x8000_0000_0000_0000)) by (bit_vector);
        }
        r
    }

    fn words(&self) -> (r: &[u64; 4])
        ensures
            *r == self.inner.0,
    {
        &self.inner.0
    }

    /// Two's complement negation, `!x + 1`. Zero is its own negation, and so is the least
    /// number, whose negation does not fit.
    pub fn neg(self) -> (r: Self)
        ensures
            self.value() != 0 ==> r.unsigned() == pow2_256() - self.unsigned(),
            r.value() == wrap256(-self.value()),
    {
        proof {
            self.lemma_value();
        }
        if self.is_zero() {
            proof {
                lemma_wrap_small(0);
            }
            return self;
        }
        let flipped = ext_u256_not(self.inner.0);
        let one = ext_u256_from_u128(1);
        let r = Self::new(U256(ext_u256_add(flipped, one)));
        proof {
            r.lemma_value();
            lemma_neg_wrap(self.value(), self.unsigned(), r.unsigned());
        }
        r
    }

    /// Whether the number is zero.
    fn is_zero(self) -> (r: bool)
        ensures
            r == (self.value() == 0),
    {
        proof {
            self.lemma_value();
        }
        let w = self.inner.0;
        w[0] == 0 && w[1] == 0 && w[2] == 0 && w[3] == 0
    }

    /// Whether the number is the least 256-bit number, `-2^255`.
    fn is_least(self) -> (r: bool)
        ensures
            r == (self.value() == i256_lo()),
    {
        proof {
            self.lemma_value();
        }
        let w = self.inner.0;
        let r = w[0] == 0 && w[1] == 0 && w[2] == 0 && w[3] == 0x8000_0000_0000_0000;
        proof {
            if self.value() == i256_lo() {
                lemma_words_injective(w, [0, 0, 0, 0x8000_0000_0000_0000]);
            }
        }
        r
    }

    /// The order of two numbers.
    pub fn cmp(&self, other: &Self) -> (r: Ordering)
        ensures
            r == (if self.value() < other.value() {
                Ordering::Less
            } else if self.value() == other.value() {
                Ordering::Equal
            } else {
                Ordering::Greater
            }),
    {
        proof {
            self.lemma_value();
            other.lemma_value();
        }
        match (self.is_negative(), other.is_negative()) {
            (true, false) => Ordering::Less,
            (false, true) => Ordering::Greater,
            _ => ext_u256_cmp(self.inner.0, other.inner.0),
        }
    }
}


impl I256 {
    /// The number whose value is `v` (for `v` in the 256-bit range).
    pub closed spec fn from_value(v: int) -> Self {
        choose|x: Self| x.value() == v
    }

    /// A number is determined by its value.
    pub proof fn lemma_injective(a: Self, b: Self)
        requires
            a.value() == b.value(),
        ensures
            a == b,
    {
        a.lemma_value();
        b.lemma_value();
        lemma_words_injective(a.inner.0, b.inner.0);
    }

    /// `from_value` gives back the number whose value it is given.
    pub proof fn lemma_from_value(a: Self)
        ensures
            Self::from_value(a.value()) == a,
    {
        let b = Self::from_value(a.value());
        Self::lemma_injective(a, b);
    }

    /// Division truncated toward zero, as `i128`'s `/` computes it: the quotient of the
    /// magnitudes, rounded down, with the sign of the quotient. (The least number divided by
    /// `-1` wraps back to itself.)
    pub fn div(self, rhs: Self) -> (r: Self)
        requires
            rhs.value() != 0,
        ensures
            r.value() == wrap256(div_trunc(self.value(), rhs.value())),
    {
        proof {
            self.lemma_value();
            rhs.lemma_value();
            self.lemma_magnitude();
            rhs.lemma_magnitude();
        }
        let lhs_sign = self.sign();
        let rhs_sign = rhs.sign();
        let lhs = self.abs();
        let rhs_abs = rhs.abs();
        let result = Self::new(U256(ext_u256_div(lhs.inner.0, rhs_abs.inner.0)));
        proof {
            result.lemma_value();
            lemma_wrap_unsigned(result.unsigned());
            lemma_magnitude_quotient(self.value(), rhs.value());
            assert(lhs_sign ^ rhs_sign == 0 <==> lhs_sign == rhs_sign) by (bit_vector);
        }
        if lhs_sign ^ rhs_sign == 0 {
            result
        } else {
            proof {
                if result.unsigned() >= pow2_256() / 2 {
                    lemma_wrap_periodic(-result.unsigned(), 1);
                }
            }
            result.neg()
        }
    }

    /// Subtraction: `self - rhs`, which must fit in 256 bits.
    pub fn sub(self, rhs: Self) -> (r: Self)
        requires
            i256_lo() <= self.value() - rhs.value() <= i256_hi(),
        ensures
            r.value() == self.value() - rhs.value(),
    {
        proof {
            self.lemma_value();
            rhs.lemma_value();
        }
        let r = match ext_u256_cmp(self.inner.0, rhs.inner.0) {
            Ordering::Less => {
                let flipped = ext_u256_not(rhs.inner.0);
                let partial = ext_u256_add(self.inner.0, flipped);
                let one = ext_u256_from_u128(1);
                let r = Self::new(U256(ext_u256_add(partial, one)));
                proof {
                    r.lemma_value();
                    lemma_value_congruent(
                        r.unsigned(),
                        self.value() - rhs.value(),
                        1 + (if self.value() < 0 {
                            1int
                        } else {
                            0int
                        }) - (if rhs.value() < 0 {
                            1int
                        } else {
                            0int
                        }),
                    );
                }
                r
            },
            _ => {
                let r = Self::new(U256(ext_u256_sub(self.inner.0, rhs.inner.0)));
                proof {
                    r.lemma_value();
                    lemma_value_congruent(
                        r.unsigned(),
                        self.value() - rhs.value(),
                        (if self.value() < 0 {
                            1int
                        } else {
                            0int
                        }) - (if rhs.value() < 0 {
                            1int
                        } else {
                            0int
                        }),
                    );
                }
                r
            },
        };
        r
    }

    /// The magnitude of the number, which must fit in `i128`.
    fn magnitude_i128(self) -> (r: i128)
        requires
            abs(self.value()) <= i128::MAX,
        ensures
            r == abs(self.value()),
    {
        let m = self.abs();
        ext_u256_as_u128(m.inner.0) as i128
    }
}

/// The magnitude of a truncated quotient is the quotient of the magnitudes.
proof fn lemma_magnitude_quotient(a: int, b: int)
    requires
        b != 0,
    ensures
        abs(div_trunc(a, b)) == abs(a) / abs(b),
        (a < 0) == (b < 0) ==> div_trunc(a, b) == abs(a) / abs(b),
        (a < 0) != (b < 0) ==> div_trunc(a, b) == -(abs(a) / abs(b)),
{
    assert(abs(a) / abs(b) >= 0) by (nonlinear_arith)
        requires
            abs(b) > 0,
    ;
}

impl core::ops::Mul for I256 {
    type Output = Self;

    /// Unchecked multiplication: the signed product, wrapped into 256 bits. The product of the
    /// magnitudes must fit in 256 unsigned bits (the unsigned multiplication panics otherwise).
    fn mul(self, rhs: Self) -> (r: Self) {
        let lhs_sign = self.sign();
        let rhs_sign = rhs.sign();
        let lhs = self.abs();
        let rhs_abs = rhs.abs();
        proof {
            self.lemma_value();
            rhs.lemma_value();
            lemma_signed_product(
                self.value(),
                rhs.value(),
                (abs(self.value()) * abs(rhs.value())) as int,
            );
        }
        let (value, _) = ext_u256_overflowing_mul(lhs.inner.0, rhs_abs.inner.0);
        let result = Self::new(U256(value));
        proof {
            result.lemma_value();
            lemma_wrap_unsigned(result.unsigned());
            assert(lhs_sign ^ rhs_sign == 0 <==> lhs_sign == rhs_sign) by (bit_vector);
        }
        let r = if lhs_sign ^ rhs_sign == 0 {
            result
        } else {
            proof {
                if result.unsigned() >= pow2_256() / 2 {
                    lemma_wrap_periodic(-result.unsigned(), 1);
                }
            }
            result.neg()
        };
        proof {
            Self::lemma_from_value(r);
        }
        r
    }
}

impl MulSpecImpl for I256 {
    open spec fn obeys_mul_spec() -> bool {
        true
    }

    open spec fn mul_req(self, rhs: Self) -> bool {
        abs(self.value()) * abs(rhs.value()) < pow2_256()
    }

    open spec fn mul_spec(self, rhs: Self) -> Self {
        I256::from_value(wrap256(self.value() * rhs.value()))
    }
}

impl From<i128> for I256 {
    fn from(x: i128) -> (r: Self)
        ensures
            r.value() == x,
    {
        if x == i128::MIN {
            // `abs` isn't defined for this only value
            let r = Self::i128_min();
            proof {
                Self::lemma_from_value(r);
            }
            return r;
        }
        let was_negative = x < 0;
        let magnitude: u128 = if was_negative {
            (-x) as u128
        } else {
            x as u128
        };
        let value = Self::new(U256(ext_u256_from_u128(magnitude)));
        proof {
            value.lemma_value();
        }
        let r = if was_negative {
            value.neg()
        } else {
            value
        };
        proof {
            if was_negative {
                lemma_wrap_small(x as int);
            }
            Self::lemma_from_value(r);
        }
        r
    }
}

impl FromSpecImpl<i128> for I256 {
    open spec fn obeys_from_spec() -> bool {
        true
    }

    open spec fn from_spec(v: i128) -> Self {
        I256::from_value(v as int)
    }
}

/// What converting a 256-bit value `v` to `i128` gives: the value when it lies in the range
/// of `i128`, `Overflow` otherwise.
pub open spec fn i128_outcome(v: int) -> Result<i128, ArithmeticError> {
    if i128::MIN <= v <= i128::MAX {
        Ok(v as i128)
    } else {
        Err(ArithmeticError::Overflow)
    }
}

impl TryFrom<I256> for i128 {
    type Error = ArithmeticError;

    fn try_from(x: I256) -> (r: Result<i128, ArithmeticError>) {
        if x.is_above_i128_max() || x.is_below_i128_min() {
            return Err(ArithmeticError::Overflow);
        }
        if x.is_i128_min() {
            return Ok(i128::MIN);
        }
        let was_negative = x.is_negative();
        let m = x.magnitude_i128();
        if was_negative {
            return Ok(-m);
        }
        Ok(m)
    }
}

impl TryFromSpecImpl<I256> for i128 {
    open spec fn obeys_try_from_spec() -> bool {
        true
    }

    open spec fn try_from_spec(v: I256) -> Result<i128, ArithmeticError> {
        i128_outcome(v.value())
    }
}

impl I256 {
    /// Whether the number is greater than `i128::MAX`.
    fn is_above_i128_max(self) -> (r: bool)
        ensures
            r == (self.value() > i128::MAX),
    {
        match self.cmp(&Self::i128_max()) {
            Ordering::Greater => true,
            _ => false,
        }
    }

    /// Whether the number is less than `i128::MIN`.
    fn is_below_i128_min(self) -> (r: bool)
        ensures
            r == (self.value() < i128::MIN),
    {
        match self.cmp(&Self::i128_min()) {
            Ordering::Less => true,
            _ => false,
        }
    }

    /// Whether the number is `i128::MIN`.
    fn is_i128_min(self) -> (r: bool)
        ensures
            r == (self.value() == i128::MIN),
    {
        match self.cmp(&Self::i128_min()) {
            Ordering::Equal => true,
            _ => false,
        }
    }
}

/// An unsigned 256-bit number congruent to `x` modulo `2^256`, read in two's complement, is `x`.
proof fn lemma_value_congruent(u: int, x: int, k: int)
    requires
        0 <= u < pow2_256(),
        i256_lo() <= x <= i256_hi(),
        u == x + k * pow2_256(),
    ensures
        (if u >= pow2_256() / 2 {
            u - pow2_256()
        } else {
            u
        }) == x,
{
    lemma_wrap_unsigned(u);
    lemma_wrap_periodic(x, k);
    lemma_wrap_small(x);
}

/// Negation in words: `2^256 - u` read back in two's complement is `wrap256(-x)`.
pub proof fn lemma_neg_wrap(x: int, u: int, n: int)
    requires
        i256_lo() <= x <= i256_hi(),
        x != 0,
        0 < u < pow2_256(),
        x == (if u >= pow2_256() / 2 { u - pow2_256() } else { u }),
        n == pow2_256() - u,
    ensures
        (if n >= pow2_256() / 2 { n - pow2_256() } else { n }) == wrap256(-x),
{
    let h = pow2_256() / 2;
    if x == i256_lo() {
        vstd::arithmetic::div_mod::lemma_fundamental_div_mod_converse(
            -x + h,
            pow2_256(),
            1,
            0,
        );
    } else {
        lemma_wrap_small(-x);
    }
}

/// The two's complement reading of an unsigned 256-bit number is its wrapped value.
pub proof fn lemma_wrap_unsigned(p: int)
    requires
        0 <= p < pow2_256(),
    ensures
        wrap256(p) == (if p >= pow2_256() / 2 { p - pow2_256() } else { p }),
{
    let h = pow2_256() / 2;
    if p >= h {
        vstd::arithmetic::div_mod::lemma_fundamental_div_mod_converse(p + h, pow2_256(), 1, p + h - pow2_256());
    } else {
        vstd::arithmetic::div_mod::lemma_fundamental_div_mod_converse(p + h, pow2_256(), 0, p + h);
    }
}

/// Wrapping does not change a value modulo `2^256`: `wrap256(x + k * 2^256) == wrap256(x)`.
pub proof fn lemma_wrap_periodic(x: int, k: int)
    ensures
        wrap256(x + k * pow2_256()) == wrap256(x),
{
    let h = pow2_256() / 2;
    vstd::arithmetic::div_mod::lemma_mod_multiples_vanish(k, x + h, pow2_256());
    vstd::arithmetic::mul::lemma_mul_is_commutative(k, pow2_256());
    assert(x + k * pow2_256() + h == pow2_256() * k + (x + h));
}

/// The signed product from the product of the magnitudes `p`: `p` when the signs agree,
/// `-p` otherwise.
pub proof fn lemma_signed_product(a: int, b: int, p: int)
    requires
        p == abs(a) * abs(b),
    ensures
        (a < 0) == (b < 0) ==> a * b == p,
        (a < 0) != (b < 0) ==> a * b == -p,
{
    if a < 0 && b < 0 {
        assert(a * b == (-a) * (-b)) by (nonlinear_arith);
    } else if a < 0 {
        assert(a * b == -((-a) * b)) by (nonlinear_arith);
    } else if b < 0 {
        assert(a * b == -(a * (-b))) by (nonlinear_arith);
    }
}

} // verus!
