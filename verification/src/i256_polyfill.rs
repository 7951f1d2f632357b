//! A 256-bit signed integer, the promotion of the `i128` layout. Its arithmetic is done by
//! the `i256` crate; this type holds the number as four little-endian 64-bit words.
use core::cmp::Ordering;
use vstd::prelude::*;

use ::i256::i256 as i256_;

use crate::errors::{ConvertError, ConvertReason};
use crate::layout::Promotion;
use crate::math::{div_trunc, lemma_div_trunc_in_range, rem_trunc};
use crate::ops::{One, Zero};
use vstd::std_specs::convert::{FromSpecImpl, TryFromSpecImpl};

verus! {

/// `2^64`.
pub open spec fn word() -> int {
    0x1_0000_0000_0000_0000int
}

/// The least value of a 256-bit signed integer.
pub open spec fn i256_lo() -> int {
    -0x8000_0000_0000_0000_0000_0000_0000_0000_0000_0000_0000_0000_0000_0000_0000_0000int
}

/// The greatest value of a 256-bit signed integer.
pub open spec fn i256_hi() -> int {
    0x7fff_ffff_ffff_ffff_ffff_ffff_ffff_ffff_ffff_ffff_ffff_ffff_ffff_ffff_ffff_ffffint
}

/// `2^256`.
pub open spec fn pow2_256() -> int {
    0x1_0000_0000_0000_0000_0000_0000_0000_0000_0000_0000_0000_0000_0000_0000_0000_0000int
}

/// The unsigned number that four little-endian words stand for.
pub open spec fn words_unsigned(w: [u64; 4]) -> int {
    w[0] + w[1] * 0x1_0000_0000_0000_0000int + w[2]
        * 0x1_0000_0000_0000_0000_0000_0000_0000_0000int + w[3]
        * 0x1_0000_0000_0000_0000_0000_0000_0000_0000_0000_0000_0000_0000int
}

/// The number that four little-endian words stand for, read in two's complement.
pub open spec fn words_value(w: [u64; 4]) -> int {
    let u = words_unsigned(w);
    if w[3] >= 0x8000_0000_0000_0000 {
        u - 0x1_0000_0000_0000_0000_0000_0000_0000_0000_0000_0000_0000_0000_0000_0000_0000_0000int
    } else {
        u
    }
}

/// A 256-bit signed integer.
#[allow(non_camel_case_types)]
#[derive(Copy, Clone, Debug, Eq, PartialEq)]
pub struct i256(pub [u64; 4]);

/// `i256_::from_i128`: sign-extends `x` to 256 bits.
#[verifier::external_body]
fn ext_from_i128(x: i128) -> (r: [u64; 4])
    ensures
        words_value(r) == x,
{
    i256_::from_i128(x).to_le_u64()
}

/// `i256_::from_i64`: sign-extends `x` to 256 bits.
#[verifier::external_body]
fn ext_from_i64(x: i64) -> (r: [u64; 4])
    ensures
        words_value(r) == x,
{
    i256_::from_i64(x).to_le_u64()
}

/// `i256_::from_i8`: sign-extends `x` to 256 bits.
#[verifier::external_body]
fn ext_from_i8(x: i8) -> (r: [u64; 4])
    ensures
        words_value(r) == x,
{
    i256_::from_i8(x).to_le_u64()
}

/// `i256_::as_i128`: the low 128 bits, which are the number when it fits in `i128`.
#[verifier::external_body]
fn ext_as_i128(w: [u64; 4]) -> (r: i128)
    requires
        i128::MIN <= words_value(w) <= i128::MAX,
    ensures
        r == words_value(w),
{
    i256_::from_le_u64(w).as_i128()
}

/// `i256_::as_i64`: the low 64 bits, which are the number when it fits in `i64`.
#[verifier::external_body]
fn ext_as_i64(w: [u64; 4]) -> (r: i64)
    requires
        i64::MIN <= words_value(w) <= i64::MAX,
    ensures
        r == words_value(w),
{
    i256_::from_le_u64(w).as_i64()
}

/// `i256_::mul_iwide`: the product with an `i128` (it panics on overflow, which the
/// precondition rules out).
#[verifier::external_body]
fn ext_mul_iwide(w: [u64; 4], n: i128) -> (r: [u64; 4])
    requires
        i256_lo() <= words_value(w) * n <= i256_hi(),
    ensures
        words_value(r) == words_value(w) * n,
{
    i256_::from_le_u64(w).mul_iwide(n).to_le_u64()
}

/// `i256_::div_iwide`: the quotient by an `i128`, rounded towards zero.
#[verifier::external_body]
fn ext_div_iwide(w: [u64; 4], n: i128) -> (r: [u64; 4])
    requires
        n != 0,
        !(words_value(w) == i256_lo() && n == -1),
    ensures
        words_value(r) == div_trunc(words_value(w), n as int),
{
    i256_::from_le_u64(w).div_iwide(n).to_le_u64()
}

/// `i256_::div_rem_iwide`: the quotient by an `i128`, rounded towards zero, and the
/// remainder, which has the sign of the dividend.
#[verifier::external_body]
fn ext_div_rem_iwide(w: [u64; 4], n: i128) -> (r: ([u64; 4], i128))
    requires
        n != 0,
        !(words_value(w) == i256_lo() && n == -1),
    ensures
        words_value(r.0) == div_trunc(words_value(w), n as int),
        r.1 == rem_trunc(words_value(w), n as int),
{
    let (q, rem) = i256_::from_le_u64(w).div_rem_iwide(n);
    (q.to_le_u64(), rem)
}

/// `i256_ + i256_` (it panics on overflow, which the precondition rules out).
#[verifier::external_body]
fn ext_add(a: [u64; 4], b: [u64; 4]) -> (r: [u64; 4])
    requires
        i256_lo() <= words_value(a) + words_value(b) <= i256_hi(),
    ensures
        words_value(r) == words_value(a) + words_value(b),
{
    (i256_::from_le_u64(a) + i256_::from_le_u64(b)).to_le_u64()
}

/// `i256_ - i256_` (it panics on overflow, which the precondition rules out).
#[verifier::external_body]
fn ext_sub(a: [u64; 4], b: [u64; 4]) -> (r: [u64; 4])
    requires
        i256_lo() <= words_value(a) - words_value(b) <= i256_hi(),
    ensures
        words_value(r) == words_value(a) - words_value(b),
{
    (i256_::from_le_u64(a) - i256_::from_le_u64(b)).to_le_u64()
}

/// `i256_ * i256_` (it panics on overflow, which the precondition rules out).
#[verifier::external_body]
fn ext_mul(a: [u64; 4], b: [u64; 4]) -> (r: [u64; 4])
    requires
        i256_lo() <= words_value(a) * words_value(b) <= i256_hi(),
    ensures
        words_value(r) == words_value(a) * words_value(b),
{
    (i256_::from_le_u64(a) * i256_::from_le_u64(b)).to_le_u64()
}

/// `i256_ / i256_`: the quotient rounded towards zero.
#[verifier::external_body]
fn ext_div(a: [u64; 4], b: [u64; 4]) -> (r: [u64; 4])
    requires
        words_value(b) != 0,
        !(words_value(a) == i256_lo() && words_value(b) == -1),
    ensures
        words_value(r) == div_trunc(words_value(a), words_value(b)),
{
    (i256_::from_le_u64(a) / i256_::from_le_u64(b)).to_le_u64()
}

/// `-i256_` (it panics for the least value, which the precondition rules out).
#[verifier::external_body]
fn ext_neg(a: [u64; 4]) -> (r: [u64; 4])
    requires
        words_value(a) != i256_lo(),
    ensures
        words_value(r) == -words_value(a),
{
    (-i256_::from_le_u64(a)).to_le_u64()
}

/// `i256_::cmp`: the order of the two numbers.
#[verifier::external_body]
fn ext_cmp(a: [u64; 4], b: [u64; 4]) -> (r: Ordering)
    ensures
        r == (if words_value(a) < words_value(b) {
            Ordering::Less
        } else if words_value(a) == words_value(b) {
            Ordering::Equal
        } else {
            Ordering::Greater
        }),
{
    i256_::from_le_u64(a).cmp(&i256_::from_le_u64(b))
}

/// `i256_ << n` for `n < 256`: the number times `2^n`, when that fits.
#[verifier::external_body]
fn ext_shl(a: [u64; 4], n: u32) -> (r: [u64; 4])
    requires
        n < 256,
        i256_lo() <= words_value(a) * vstd::arithmetic::power2::pow2(n as nat) <= i256_hi(),
    ensures
        words_value(r) == words_value(a) * vstd::arithmetic::power2::pow2(n as nat),
{
    (i256_::from_le_u64(a) << n).to_le_u64()
}

/// `i256_ >> n` for `n < 256`: the number divided by `2^n`, rounded towards negative
/// infinity.
#[verifier::external_body]
fn ext_shr(a: [u64; 4], n: u32) -> (r: [u64; 4])
    requires
        n < 256,
    ensures
        words_value(r) == words_value(a) / (vstd::arithmetic::power2::pow2(n as nat) as int),
{
    (i256_::from_le_u64(a) >> n).to_le_u64()
}

impl i256 {
    /// The number.
    pub open spec fn value(self) -> int {
        words_value(self.0)
    }

    pub proof fn lemma_range(self)
        ensures
            i256_lo() <= self.value() <= i256_hi(),
    {
    }

    /// The least value.
    pub fn min_value() -> (r: Self)
        ensures
            r.value() == i256_lo(),
    {
        i256([0, 0, 0, 0x8000_0000_0000_0000])
    }

    pub fn from_i128(x: i128) -> (r: Self)
        ensures
            r.value() == x,
    {
        i256(ext_from_i128(x))
    }

    pub fn from_i64(x: i64) -> (r: Self)
        ensures
            r.value() == x,
    {
        i256(ext_from_i64(x))
    }

    pub fn from_i8(x: i8) -> (r: Self)
        ensures
            r.value() == x,
    {
        i256(ext_from_i8(x))
    }

    /// The number `hi * 2^128 + lo`.
    pub fn new(lo: u128, hi: i128) -> (r: Self)
        ensures
            r.value() == hi * 0x1_0000_0000_0000_0000_0000_0000_0000_0000int + lo,
    {
        let w0 = (lo % 0x1_0000_0000_0000_0000) as u64;
        let w1 = (lo / 0x1_0000_0000_0000_0000) as u64;
        let uh: u128 = if hi >= 0 {
            hi as u128
        } else {
            (hi - i128::MIN) as u128 + 0x8000_0000_0000_0000_0000_0000_0000_0000
        };
        let w2 = (uh % 0x1_0000_0000_0000_0000) as u64;
        let w3 = (uh / 0x1_0000_0000_0000_0000) as u64;
        proof {
            let b = 0x1_0000_0000_0000_0000int;
            vstd::arithmetic::div_mod::lemma_fundamental_div_mod(lo as int, b);
            vstd::arithmetic::div_mod::lemma_fundamental_div_mod(uh as int, b);
            vstd::arithmetic::div_mod::lemma_mod_bound(lo as int, b);
            vstd::arithmetic::div_mod::lemma_mod_bound(uh as int, b);
            assert(lo == b * w1 + w0);
            assert(uh == b * w3 + w2);
            assert(hi < 0 <==> w3 >= 0x8000_0000_0000_0000);
        }
        i256([w0, w1, w2, w3])
    }

    /// The order of two numbers.
    pub fn cmp(&self, other: &Self) -> (r: Ordering)
        ensures
            r == (if self.value() < other.value() {
                Ordering::Less
            } else if self.value() == other.value() {
                Ordering::Equal
            } else {
                Ordering::Greater
            }),
    {
        ext_cmp(self.0, other.0)
    }

    /// `self < other`.
    pub fn lt(&self, other: &Self) -> (r: bool)
        ensures
            r == (self.value() < other.value()),
    {
        match ext_cmp(self.0, other.0) {
            Ordering::Less => true,
            _ => false,
        }
    }

    pub fn add(self, rhs: Self) -> (r: Self)
        requires
            i256_lo() <= self.value() + rhs.value() <= i256_hi(),
        ensures
            r.value() == self.value() + rhs.value(),
    {
        i256(ext_add(self.0, rhs.0))
    }

    pub fn sub(self, rhs: Self) -> (r: Self)
        requires
            i256_lo() <= self.value() - rhs.value() <= i256_hi(),
        ensures
            r.value() == self.value() - rhs.value(),
    {
        i256(ext_sub(self.0, rhs.0))
    }

    pub fn mul(self, rhs: Self) -> (r: Self)
        requires
            i256_lo() <= self.value() * rhs.value() <= i256_hi(),
        ensures
            r.value() == self.value() * rhs.value(),
    {
        i256(ext_mul(self.0, rhs.0))
    }

    /// The quotient, rounded towards zero.
    pub fn div(self, rhs: Self) -> (r: Self)
        requires
            rhs.value() != 0,
            !(self.value() == i256_lo() && rhs.value() == -1),
        ensures
            r.value() == div_trunc(self.value(), rhs.value()),
    {
        i256(ext_div(self.0, rhs.0))
    }

    pub fn neg(self) -> (r: Self)
        requires
            self.value() != i256_lo(),
        ensures
            r.value() == -self.value(),
    {
        i256(ext_neg(self.0))
    }

    /// `self * 2^n`.
    pub fn shl(self, n: u32) -> (r: Self)
        requires
            n < 256,
            i256_lo() <= self.value() * vstd::arithmetic::power2::pow2(n as nat) <= i256_hi(),
        ensures
            r.value() == self.value() * vstd::arithmetic::power2::pow2(n as nat),
    {
        i256(ext_shl(self.0, n))
    }

    /// `self / 2^n`, rounded towards negative infinity.
    pub fn shr(self, n: u32) -> (r: Self)
        requires
            n < 256,
        ensures
            r.value() == self.value() / (vstd::arithmetic::power2::pow2(n as nat) as int),
    {
        i256(ext_shr(self.0, n))
    }

    /// The number as an `i128`, when it fits.
    pub fn to_i128(self) -> (r: Result<i128, ConvertError>)
        ensures
            i128::MIN <= self.value() <= i128::MAX ==> r == Ok::<i128, ConvertError>(
                self.value() as i128,
            ),
            !(i128::MIN <= self.value() <= i128::MAX) ==> r == Err::<i128, ConvertError>(
                ConvertError::because(ConvertReason::NotInRange),
            ),
    {
        if self.lt(&i256::from_i128(i128::MIN)) || i256::from_i128(i128::MAX).lt(&self) {
            return Err(ConvertError::new(ConvertReason::NotInRange));
        }
        Ok(ext_as_i128(self.0))
    }

    /// The number as an `i64`, when it fits.
    pub fn to_i64(self) -> (r: Result<i64, ConvertError>)
        ensures
            i64::MIN <= self.value() <= i64::MAX ==> r == Ok::<i64, ConvertError>(
                self.value() as i64,
            ),
            !(i64::MIN <= self.value() <= i64::MAX) ==> r == Err::<i64, ConvertError>(
                ConvertError::because(ConvertReason::NotInRange),
            ),
    {
        if self.lt(&i256::from_i64(i64::MIN)) || i256::from_i64(i64::MAX).lt(&self) {
            return Err(ConvertError::new(ConvertReason::NotInRange));
        }
        Ok(ext_as_i64(self.0))
    }
}


impl i256 {
    /// The number whose value is `v` (for `v` in the 256-bit range).
    pub closed spec fn from_value(v: int) -> Self {
        choose|x: Self| x.value() == v
    }

    /// `from_value` gives back the number whose value it is given.
    pub proof fn lemma_from_value(a: Self)
        ensures
            Self::from_value(a.value()) == a,
    {
        let b = Self::from_value(a.value());
        crate::i256::lemma_words(a.0);
        crate::i256::lemma_words(b.0);
        crate::i256::lemma_words_injective(a.0, b.0);
    }
}

impl From<i8> for i256 {
    fn from(x: i8) -> (r: Self)
        ensures
            r.value() == x,
    {
        let r = Self::from_i8(x);
        proof {
            Self::lemma_from_value(r);
        }
        r
    }
}

impl FromSpecImpl<i8> for i256 {
    open spec fn obeys_from_spec() -> bool {
        true
    }

    open spec fn from_spec(v: i8) -> Self {
        i256::from_value(v as int)
    }
}

impl From<i64> for i256 {
    fn from(x: i64) -> (r: Self)
        ensures
            r.value() == x,
    {
        let r = Self::from_i64(x);
        proof {
            Self::lemma_from_value(r);
        }
        r
    }
}

impl FromSpecImpl<i64> for i256 {
    open spec fn obeys_from_spec() -> bool {
        true
    }

    open spec fn from_spec(v: i64) -> Self {
        i256::from_value(v as int)
    }
}

impl From<i128> for i256 {
    fn from(x: i128) -> (r: Self)
        ensures
            r.value() == x,
    {
        let r = Self::from_i128(x);
        proof {
            Self::lemma_from_value(r);
        }
        r
    }
}

impl FromSpecImpl<i128> for i256 {
    open spec fn obeys_from_spec() -> bool {
        true
    }

    open spec fn from_spec(v: i128) -> Self {
        i256::from_value(v as int)
    }
}

impl TryFrom<i256> for i128 {
    type Error = ConvertError;

    fn try_from(x: i256) -> (r: Result<i128, ConvertError>) {
        x.to_i128()
    }
}

impl TryFromSpecImpl<i256> for i128 {
    open spec fn obeys_try_from_spec() -> bool {
        true
    }

    open spec fn try_from_spec(v: i256) -> Result<i128, ConvertError> {
        if i128::MIN <= v.value() <= i128::MAX {
            Ok(v.value() as i128)
        } else {
            Err(ConvertError::because(ConvertReason::NotInRange))
        }
    }
}

impl TryFrom<i256> for i64 {
    type Error = ConvertError;

    fn try_from(x: i256) -> (r: Result<i64, ConvertError>) {
        x.to_i64()
    }
}

impl TryFromSpecImpl<i256> for i64 {
    open spec fn obeys_try_from_spec() -> bool {
        true
    }

    open spec fn try_from_spec(v: i256) -> Result<i64, ConvertError> {
        if i64::MIN <= v.value() <= i64::MAX {
            Ok(v.value() as i64)
        } else {
            Err(ConvertError::because(ConvertReason::NotInRange))
        }
    }
}

impl Zero for i256 {
    fn zero() -> (r: Self)
        ensures
            r.value() == 0,
    {
        i256::from_i64(0)
    }
}

impl One for i256 {
    fn one() -> (r: Self)
        ensures
            r.value() == 1,
    {
        i256::from_i64(1)
    }
}

impl Promotion for i256 {
    type Layout = i128;

    open spec fn pval(self) -> int {
        self.value()
    }

    open spec fn phi() -> int {
        i256_hi()
    }

    open spec fn lval(x: i128) -> int {
        x as int
    }

    open spec fn llo() -> int {
        i128::MIN as int
    }

    open spec fn lhi() -> int {
        i128::MAX as int
    }

    proof fn lemma_promotion_range(x: Self) {
    }

    fn from_layout(x: i128) -> (r: Self) {
        i256::from_i128(x)
    }

    fn mul_l(&self, rhs: i128) -> (r: Self) {
        i256(ext_mul_iwide(self.0, rhs))
    }

    fn div_l(&self, rhs: i128) -> (r: Self) {
        i256(ext_div_iwide(self.0, rhs))
    }

    fn div_rem_l(&self, rhs: i128) -> (r: (Self, i128)) {
        let (q, rem) = ext_div_rem_iwide(self.0, rhs);
        (i256(q), rem)
    }

    fn sub_p(&self, rhs: &Self) -> (r: Self) {
        self.sub(*rhs)
    }

    fn lt_p(&self, rhs: &Self) -> (b: bool) {
        self.lt(rhs)
    }

    fn try_into_layout(&self) -> (r: Option<i128>) {
        match self.to_i128() {
            Ok(v) => Some(v),
            Err(_) => None,
        }
    }
}

} // verus!
