//! Text of fixed-point numbers: parsing decimal strings and printing them.
use vstd::prelude::*;

use crate::errors::{ConvertError, ConvertReason};
use crate::fixed::pow10_l;
use crate::layout::Layout;
use crate::math::{
    abs, div_nearest, lemma_pow10_add, lemma_pow10_monotonic, lemma_pow10_pos, lemma_trunc_parts,
    pow10,
};
use crate::{coef, FitsIn, FixedPoint, Precision};
use core::str::FromStr;
use vstd::string::StringSliceAdditionalSpecFns;
use vstd::utf8::{
    decode_utf8, encode_utf8, encode_utf8_decode_utf8, encode_utf8_valid_utf8,
    is_ascii_chars_encode_utf8, valid_utf8,
};

verus! {

/// `b` is the ASCII code of a decimal digit.
pub open spec fn is_digit(b: u8) -> bool {
    48 <= b <= 57
}

/// Every byte of `s` is a decimal digit.
pub open spec fn all_digits(s: Seq<u8>) -> bool {
    forall|i: int| 0 <= i < s.len() ==> is_digit(#[trigger] s[i])
}

/// The number that the decimal digits `s` stand for, most significant first (`0` for none).
pub open spec fn digits_value(s: Seq<u8>) -> int
    decreases s.len(),
{
    if s.len() == 0 {
        0
    } else {
        10 * digits_value(s.drop_last()) + (s.last() - 48)
    }
}

/// The integer that `s` writes as Rust's integer parsing reads it: an optional `+` or `-`
/// followed by at least one decimal digit; `None` for any other text.
pub open spec fn int_literal(s: Seq<u8>) -> Option<int> {
    if s.len() > 0 && (s[0] == 43 || s[0] == 45) {
        let d = s.drop_first();
        if d.len() > 0 && all_digits(d) {
            Some(
                if s[0] == 45 {
                    -digits_value(d)
                } else {
                    digits_value(d)
                },
            )
        } else {
            None
        }
    } else if s.len() > 0 && all_digits(s) {
        Some(digits_value(s))
    } else {
        None
    }
}

/// `i` is the position of the first `c` in `s`, or `s.len()` when `c` does not occur.
pub open spec fn is_first_index(s: Seq<u8>, c: u8, i: int) -> bool {
    &&& 0 <= i <= s.len()
    &&& (i == s.len() || s[i] == c)
    &&& forall|j: int| 0 <= j < i ==> s[j] != c
}

/// The position of the first `c` in `s`, or `s.len()` when `c` does not occur.
pub open spec fn first_index(s: Seq<u8>, c: u8) -> int {
    choose|i: int| is_first_index(s, c, i)
}

/// The first position of a byte is unique, and `first_index` finds it.
pub proof fn lemma_first_index(s: Seq<u8>, c: u8, i: int)
    requires
        is_first_index(s, c, i),
    ensures
        first_index(s, c) == i,
{
    let k = first_index(s, c);
    assert(is_first_index(s, c, k));
    if k < i {
        assert(s[k] != c);
    } else if i < k {
        assert(s[i] != c);
    }
}

/// The digits of a prefix are worth no more than the digits of a longer prefix.
pub proof fn lemma_digits_value_prefix(s: Seq<u8>, j: int, k: int)
    requires
        0 <= j <= k <= s.len(),
        all_digits(s),
    ensures
        0 <= digits_value(s.subrange(0, j)) <= digits_value(s.subrange(0, k)),
    decreases k - j,
{
    if j == k {
        lemma_digits_value_nonneg(s.subrange(0, j));
    } else {
        lemma_digits_value_prefix(s, j, k - 1);
        assert(s.subrange(0, k).drop_last() =~= s.subrange(0, k - 1));
        assert(is_digit(s[k - 1]));
    }
}

/// Digits are worth at least zero and less than `10 ^ len`.
pub proof fn lemma_digits_value_nonneg(s: Seq<u8>)
    requires
        all_digits(s),
    ensures
        0 <= digits_value(s) < pow10(s.len()),
    decreases s.len(),
{
    if s.len() > 0 {
        assert(all_digits(s.drop_last()));
        lemma_digits_value_nonneg(s.drop_last());
        assert(is_digit(s.last()));
        assert(pow10(s.len()) == 10 * pow10((s.len() - 1) as nat));
    }
}

/// The position of the first `c` in `b`, or `b.len()` when there is none.
fn find_byte(b: &[u8], c: u8) -> (r: usize)
    ensures
        r == first_index(b@, c),
        is_first_index(b@, c, r as int),
{
    let mut i: usize = 0;
    while i < b.len()
        invariant
            0 <= i <= b@.len(),
            forall|j: int| 0 <= j < i ==> b@[j] != c,
        decreases b@.len() - i,
    {
        if b[i] == c {
            proof {
                lemma_first_index(b@, c, i as int);
            }
            return i;
        }
        i += 1;
    }
    proof {
        lemma_first_index(b@, c, i as int);
    }
    i
}

/// The value of the decimal digits `b[from..to]` (all digits), when it fits in `u128`.
fn digits_u128(b: &[u8], from: usize, to: usize) -> (r: Option<u128>)
    requires
        from <= to <= b@.len(),
        all_digits(b@.subrange(from as int, to as int)),
    ensures
        match r {
            Some(v) => v == digits_value(b@.subrange(from as int, to as int)),
            None => digits_value(b@.subrange(from as int, to as int)) > u128::MAX,
        },
{
    let ghost s = b@.subrange(from as int, to as int);
    let mut acc: u128 = 0;
    let mut i = from;
    while i < to
        invariant
            from <= i <= to <= b@.len(),
            s == b@.subrange(from as int, to as int),
            all_digits(s),
            acc == digits_value(s.subrange(0, i - from)),
        decreases to - i,
    {
        proof {
            assert(s.subrange(0, i - from + 1).drop_last() =~= s.subrange(0, i - from));
            assert(s[i - from] == b@[i as int]);
            assert(is_digit(s[i - from]));
        }
        let d = (b[i] - 48) as u128;
        let next = match acc.checked_mul(10) {
            Some(m) => m.checked_add(d),
            None => None,
        };
        match next {
            Some(v) => {
                acc = v;
            },
            None => {
                proof {
                    lemma_digits_value_prefix(s, i - from + 1, s.len() as int);
                    assert(s.subrange(0, s.len() as int) =~= s);
                }
                return None;
            },
        }
        i += 1;
    }
    proof {
        assert(s.subrange(0, i - from) =~= s);
    }
    Some(acc)
}

/// Reads `b[from..to]` as the layout's integer parsing does: an optional `+` or `-`
/// followed by at least one digit. `None` when the text has another form or the value
/// leaves the layout.
pub fn parse_layout<I: Layout>(b: &[u8], from: usize, to: usize) -> (r: Option<I>)
    requires
        from <= to <= b@.len(),
    ensures
        match int_literal(b@.subrange(from as int, to as int)) {
            Some(v) => if I::lo() <= v <= I::hi() {
                r matches Some(x) && x.val() == v
            } else {
                r is None
            },
            None => r is None,
        },
{
    let ghost s = b@.subrange(from as int, to as int);
    proof {
        I::lemma_bounds();
    }
    if from == to {
        return None;
    }
    let first = b[from];
    let signed = first == 43 || first == 45;
    let negative = first == 45;
    let start = if signed {
        from + 1
    } else {
        from
    };
    let ghost d = b@.subrange(start as int, to as int);
    proof {
        assert(s[0] == first);
        if signed {
            assert(s.drop_first() =~= d);
        } else {
            assert(s =~= d);
        }
    }
    if start == to {
        return None;
    }
    let mut i = start;
    while i < to
        invariant
            start <= i <= to <= b@.len(),
            d == b@.subrange(start as int, to as int),
            s == b@.subrange(from as int, to as int),
            s.len() > 0,
            signed == (s[0] == 43 || s[0] == 45),
            negative == (s[0] == 45),
            signed ==> s.drop_first() == d,
            !signed ==> s == d,
            d.len() > 0,
            I::lo() == -I::hi() - 1,
            0x7fff <= I::hi() <= 0x7fff_ffff_ffff_ffff_ffff_ffff_ffff_ffff,
            forall|j: int| 0 <= j < i - start ==> is_digit(#[trigger] d[j]),
        decreases to - i,
    {
        if !(48 <= b[i] && b[i] <= 57) {
            proof {
                assert(!is_digit(d[i - start]));
            }
            return None;
        }
        i += 1;
    }
    proof {
        assert(all_digits(d));
    }
    let magnitude = match digits_u128(b, start, to) {
        Some(m) => m,
        None => return None,
    };
    if negative {
        if magnitude == 0 {
            return Some(I::from_i64(0));
        }
        match I::try_from_u128(magnitude - 1) {
            Some(m) => {
                proof {
                    I::lemma_range(m);
                }
                let zero = I::from_i64(0);
                let one = I::from_i64(1);
                let neg = zero.checked_sub_l(m).unwrap();
                Some(neg.checked_sub_l(one).unwrap())
            },
            None => None,
        }
    } else {
        let r = I::try_from_u128(magnitude);
        proof {
            if let Some(x) = r {
                I::lemma_range(x);
            }
        }
        r
    }
}

/// `c` is whitespace in the sense of Unicode's `White_Space` property.
pub open spec fn is_whitespace(c: char) -> bool {
    ||| '\u{9}' <= c <= '\u{d}'
    ||| c == ' '
    ||| c == '\u{85}'
    ||| c == '\u{a0}'
    ||| c == '\u{1680}'
    ||| '\u{2000}' <= c <= '\u{200a}'
    ||| c == '\u{2028}'
    ||| c == '\u{2029}'
    ||| c == '\u{202f}'
    ||| c == '\u{205f}'
    ||| c == '\u{3000}'
}

/// `s` without its leading whitespace.
pub open spec fn trim_start(s: Seq<char>) -> Seq<char>
    decreases s.len(),
{
    if s.len() > 0 && is_whitespace(s[0]) {
        trim_start(s.drop_first())
    } else {
        s
    }
}

/// `s` without its trailing whitespace.
pub open spec fn trim_end(s: Seq<char>) -> Seq<char>
    decreases s.len(),
{
    if s.len() > 0 && is_whitespace(s.last()) {
        trim_end(s.drop_last())
    } else {
        s
    }
}

/// `s` without its leading and trailing whitespace.
pub open spec fn trim_whitespace(s: Seq<char>) -> Seq<char> {
    trim_end(trim_start(s))
}

/// `str::trim`: the string slice without its leading and trailing whitespace, where
/// whitespace is what Unicode's `White_Space` property names.
#[verifier::external_body]
fn ext_trim(s: &str) -> (r: &str)
    ensures
        r@ == trim_whitespace(s@),
{
    s.trim()
}

/// What parsing the text `t` (bytes, already trimmed, without scientific notation) gives in
/// the layout `I` with `digits` decimal places: the raw value, or the reason it fails.
///
/// Without a `.`, `t` is an integer of the layout, scaled by `10 ^ digits`. With one, the
/// part before the first `.` is an integer of the layout and the part after it consists of
/// digits. Exact parsing refuses more than `digits` fractional digits; rounding parsing cuts
/// them to `digits` and moves the last one kept away from zero when the first one cut is `5`
/// or more. At least one fractional digit must remain.
pub open spec fn parse_outcome<I: Layout>(t: Seq<u8>, digits: nat, exact: bool) -> Result<
    int,
    ConvertReason,
> {
    let k = first_index(t, 46);
    if k == t.len() {
        integer_outcome::<I>(t, digits)
    } else {
        decimal_outcome::<I>(t, k, digits, exact)
    }
}

/// Parsing an integer `t` (no `.`) with `digits` decimal places.
pub open spec fn integer_outcome<I: Layout>(t: Seq<u8>, digits: nat) -> Result<
    int,
    ConvertReason,
> {
    let c = pow10(digits) as int;
    match int_literal(t) {
        Some(v) => if !(I::lo() <= v <= I::hi()) {
            Err(ConvertReason::CannotParseInteger)
        } else if I::lo() <= v * c <= I::hi() {
            Ok(v * c)
        } else {
            Err(ConvertReason::TooBigNumber)
        },
        None => Err(ConvertReason::CannotParseInteger),
    }
}

/// Parsing `t` whose first `.` is at `k`, with `digits` decimal places.
pub open spec fn decimal_outcome<I: Layout>(t: Seq<u8>, k: int, digits: nat, exact: bool) -> Result<
    int,
    ConvertReason,
> {
    let fp = t.subrange(k + 1, t.len() as int);
    match int_literal(t.subrange(0, k)) {
        Some(integral) => if !(I::lo() <= integral <= I::hi()) {
            Err(ConvertReason::CannotParseIntegral)
        } else if !all_digits(fp) {
            Err(ConvertReason::FractionalNotDigits)
        } else if exact && fp.len() > digits {
            Err(ConvertReason::PrecisionTooHigh)
        } else {
            let rounds = fp.len() > digits;
            let f = if rounds {
                fp.subrange(0, digits as int)
            } else {
                fp
            };
            if f.len() == 0 {
                Err(ConvertReason::CannotParseFractional)
            } else if !(I::lo() <= integral * (pow10(digits) as int) <= I::hi()) {
                Err(ConvertReason::TooBigIntegral)
            } else {
                let value = integral * (pow10(digits) as int) + fraction_value(
                    f,
                    digits,
                    t[0] == 45,
                    rounds && fp[digits as int] >= 53,
                );
                if I::lo() <= value <= I::hi() {
                    Ok(value)
                } else {
                    Err(ConvertReason::TooBigNumber)
                }
            }
        },
        None => Err(ConvertReason::CannotParseIntegral),
    }
}

/// What the fractional digits `f` add to the raw value with `digits` decimal places: `f`
/// scaled to `digits` places, negated for a negative number, plus one unit away from zero
/// when `round_up`.
pub open spec fn fraction_value(f: Seq<u8>, digits: nat, negative: bool, round_up: bool) -> int {
    let m = pow10((digits - f.len()) as nat) * digits_value(f) + (if round_up {
        1int
    } else {
        0
    });
    if negative {
        -m
    } else {
        m
    }
}

/// `r` is the parse result that `spec` describes.
pub open spec fn parse_result<I: Layout, P>(
    r: Result<FixedPoint<I, P>, ConvertError>,
    spec: Result<int, ConvertReason>,
) -> bool {
    match spec {
        Ok(v) => r matches Ok(x) && x.value() == v,
        Err(e) => r == Err::<FixedPoint<I, P>, ConvertError>(ConvertError::because(e)),
    }
}

/// The bytes of the text `cs` once trimmed.
pub open spec fn text_bytes(cs: Seq<char>) -> Seq<u8> {
    encode_utf8(trim_whitespace(cs))
}

/// The bytes of the text of `s` once trimmed.
pub open spec fn trimmed_bytes(s: &str) -> Seq<u8> {
    text_bytes(s@)
}

impl<I: Layout, P: FitsIn<I>> FromStr for FixedPoint<I, P> {
    type Err = ConvertError;

    /// Parses a string slice into a fixed point.
    /// If the value cannot be represented, it will be rounded to the nearest value.
    ///
    /// Use `from_str_exact` to parse without rounding.
    fn from_str(s: &str) -> (r: Result<Self, ConvertError>)
        ensures
            parse_result(r, parse_outcome::<I>(trimmed_bytes(s), P::digits(), false)),
    {
        Self::parse_str(s, false)
    }
}

impl<I: Layout, P: FitsIn<I>> FixedPoint<I, P> {
    /// Parses a string slice into a fixed point.
    /// If the value cannot be represented then this will return an error.
    ///
    /// Use the `FromStr` instance to parse with rounding.
    pub fn from_str_exact(s: &str) -> (r: Result<Self, ConvertError>)
        ensures
            parse_result(r, parse_outcome::<I>(trimmed_bytes(s), P::digits(), true)),
    {
        Self::parse_str(s, true)
    }

    /// Trims the text and parses it.
    fn parse_str(s: &str, exact: bool) -> (r: Result<Self, ConvertError>)
        ensures
            parse_result(r, parse_outcome::<I>(trimmed_bytes(s), P::digits(), exact)),
    {
        let trimmed = ext_trim(s);
        Self::parse_str_without_scientific(trimmed.as_bytes(), exact)
    }

    /// Parses an integer, scaled to a fixed-point number.
    fn parse_integer(b: &[u8]) -> (r: Result<Self, ConvertError>)
        ensures
            parse_result(r, integer_outcome::<I>(b@, P::digits())),
    {
        let len = b.len();
        let c = Self::coef_l();
        proof {
            assert(b@.subrange(0, len as int) =~= b@);
        }
        let v = match parse_layout::<I>(b, 0, len) {
            Some(v) => v,
            None => return Err(ConvertError::new(ConvertReason::CannotParseInteger)),
        };
        match v.checked_mul_l(c) {
            Some(x) => {
                proof {
                    I::lemma_range(x);
                }
                Ok(Self::from_bits(x))
            },
            None => Err(ConvertError::new(ConvertReason::TooBigNumber)),
        }
    }

    /// Parses a fixed-point number without scientific notation.
    ///
    /// Note: the input must be already trimmed (no leading/trailing whitespace).
    fn parse_str_without_scientific(b: &[u8], exact: bool) -> (r: Result<Self, ConvertError>)
        ensures
            parse_result(r, parse_outcome::<I>(b@, P::digits(), exact)),
    {
        let len = b.len();
        let c = Self::coef_l();
        proof {
            I::lemma_bounds();
            P::lemma_digits();
            P::lemma_fits_in();
        }
        let dot = find_byte(b, 46);
        proof {
            assert(b@.subrange(0, len as int) =~= b@);
        }
        if dot == len {
            return Self::parse_integer(b);
        }
        let integral = match parse_layout::<I>(b, 0, dot) {
            Some(v) => v,
            None => return Err(ConvertError::new(ConvertReason::CannotParseIntegral)),
        };
        let frac_from = dot + 1;
        let ghost fp = b@.subrange(frac_from as int, len as int);
        if !digits_only(b, frac_from, len) {
            return Err(ConvertError::new(ConvertReason::FractionalNotDigits));
        }
        let negative = b[0] == 45;
        let prec = P::precision() as usize;
        let frac_len = len - frac_from;
        if exact && frac_len > prec {
            return Err(ConvertError::new(ConvertReason::PrecisionTooHigh));
        }
        let rounds = frac_len > prec;
        let frac_to = if rounds {
            frac_from + prec
        } else {
            len
        };
        let round_up = rounds && b[frac_from + prec] >= 53;
        let ghost f = b@.subrange(frac_from as int, frac_to as int);
        proof {
            if rounds {
                assert(f =~= fp.subrange(0, prec as int));
                assert(fp[prec as int] == b@[frac_from + prec]);
            } else {
                assert(f =~= fp);
            }
        }
        if frac_to == frac_from {
            return Err(ConvertError::new(ConvertReason::CannotParseFractional));
        }
        let final_integral = match integral.checked_mul_l(c) {
            Some(v) => v,
            None => return Err(ConvertError::new(ConvertReason::TooBigIntegral)),
        };
        proof {
            I::lemma_range(final_integral);
        }
        let final_fractional = scaled_fraction::<I, P>(b, frac_from, frac_to, negative, round_up);
        match final_integral.checked_add_l(final_fractional) {
            Some(v) => {
                proof {
                    I::lemma_range(v);
                }
                Ok(Self::from_bits(v))
            },
            None => Err(ConvertError::new(ConvertReason::TooBigNumber)),
        }
    }
}

/// The fractional digits `f`, scaled to `digits <= 18` places, stay below `10 ^ 18`.
proof fn lemma_fraction_bounds(f: Seq<u8>, digits: nat)
    requires
        all_digits(f),
        f.len() <= digits <= 18,
    ensures
        0 <= digits_value(f) < pow10(f.len()) <= 1_000_000_000_000_000_000,
        0 <= pow10((digits - f.len()) as nat) * digits_value(f) < pow10(digits),
        pow10(digits) <= 1_000_000_000_000_000_000,
        pow10((digits - f.len()) as nat) <= 1_000_000_000_000_000_000,
{
    let shift = (digits - f.len()) as nat;
    lemma_digits_value_nonneg(f);
    lemma_pow10_monotonic(f.len(), 18);
    lemma_pow10_monotonic(shift, 18);
    lemma_pow10_monotonic(digits, 18);
    assert(pow10(18) == 1_000_000_000_000_000_000) by {
        reveal_with_fuel(pow10, 19);
    }
    lemma_pow10_add(shift, f.len());
    lemma_pow10_pos(shift);
    assert(pow10(shift) * digits_value(f) < pow10(shift) * pow10(f.len())) by (nonlinear_arith)
        requires
            digits_value(f) < pow10(f.len()),
            pow10(shift) > 0,
    ;
    assert(0 <= pow10(shift) * digits_value(f)) by (nonlinear_arith)
        requires
            digits_value(f) >= 0,
            pow10(shift) > 0,
    ;
}

/// Whether every byte of `b[from..to]` is a digit.
fn digits_only(b: &[u8], from: usize, to: usize) -> (r: bool)
    requires
        from <= to <= b@.len(),
    ensures
        r == all_digits(b@.subrange(from as int, to as int)),
{
    let ghost d = b@.subrange(from as int, to as int);
    let mut i = from;
    while i < to
        invariant
            from <= i <= to <= b@.len(),
            d == b@.subrange(from as int, to as int),
            forall|j: int| 0 <= j < i - from ==> is_digit(#[trigger] d[j]),
        decreases to - i,
    {
        if !(48 <= b[i] && b[i] <= 57) {
            proof {
                assert(!is_digit(d[i - from]));
            }
            return false;
        }
        i += 1;
    }
    true
}

/// What the fractional digits `f = b[from..to]` add to the raw value: `f` scaled to
/// `PRECISION` places, with the sign of the number, plus one unit away from zero when
/// `round_up`.
fn scaled_fraction<I: Layout, P: FitsIn<I>>(
    b: &[u8],
    from: usize,
    to: usize,
    negative: bool,
    round_up: bool,
) -> (r: I)
    requires
        from < to <= b@.len(),
        to - from <= P::digits(),
        all_digits(b@.subrange(from as int, to as int)),
    ensures
        r.val() == fraction_value(b@.subrange(from as int, to as int), P::digits(), negative, round_up),
{
    let ghost f = b@.subrange(from as int, to as int);
    let zero = I::from_i64(0);
    let one = I::from_i64(1);
    let prec = P::precision() as usize;
    let ghost shift = (prec - (to - from)) as nat;
    proof {
        I::lemma_bounds();
        P::lemma_digits();
        P::lemma_fits_in();
        lemma_fraction_bounds(f, P::digits());
        lemma_pow10_monotonic(P::digits(), I::max_digits());
        lemma_pow10_monotonic(f.len(), P::digits());
        lemma_pow10_monotonic(shift, P::digits());
    }
    let fractional = I::try_from_u128(digits_u128(b, from, to).unwrap()).unwrap();
    let scale = pow10_l::<I>((prec - (to - from)) as u32);
    let mut magnitude = scale.checked_mul_l(fractional).unwrap();
    if round_up {
        magnitude = magnitude.checked_add_l(one).unwrap();
    }
    if negative {
        zero.checked_sub_l(magnitude).unwrap()
    } else {
        magnitude
    }
}

/// The decimal digits of `n`, most significant first, without leading zeros (`0` for zero).
pub open spec fn decimal(n: nat) -> Seq<u8>
    decreases n,
{
    if n < 10 {
        seq![(n + 48) as u8]
    } else {
        decimal(n / 10).push((n % 10 + 48) as u8)
    }
}

/// The last `k` decimal digits of `n`, most significant first, with leading zeros.
pub open spec fn padded(n: nat, k: nat) -> Seq<u8>
    decreases k,
{
    if k == 0 {
        seq![]
    } else {
        padded(n / 10, (k - 1) as nat).push((n % 10 + 48) as u8)
    }
}

/// `s` without its trailing `0` digits.
pub open spec fn trim_zeros_end(s: Seq<u8>) -> Seq<u8>
    decreases s.len(),
{
    if s.len() > 0 && s.last() == 48 {
        trim_zeros_end(s.drop_last())
    } else {
        s
    }
}

/// The text of the number whose raw value is `v`, with `digits` decimal places: `-` for a
/// negative number, the digits of the integral part, `.`, and the `digits` fractional digits
/// without their trailing zeros, or `0` when they are all zero.
pub open spec fn format_text(v: int, digits: nat) -> Seq<u8> {
    let c = pow10(digits);
    let a = abs(v);
    let sign: Seq<u8> = if v < 0 {
        seq![45u8]
    } else {
        seq![]
    };
    let fractional = a % c;
    sign + decimal(a / c) + seq![46u8] + (if fractional > 0 {
        trim_zeros_end(padded(fractional, digits))
    } else {
        seq![48u8]
    })
}

/// The characters of ASCII bytes.
pub open spec fn ascii_chars(b: Seq<u8>) -> Seq<char> {
    b.map_values(|x: u8| x as char)
}

/// Every byte is ASCII.
pub open spec fn is_ascii_bytes(b: Seq<u8>) -> bool {
    forall|i: int| 0 <= i < b.len() ==> #[trigger] b[i] < 128
}

/// Digits are ASCII.
proof fn lemma_digits_ascii(s: Seq<u8>)
    requires
        all_digits(s),
    ensures
        is_ascii_bytes(s),
{
    assert forall|i: int| 0 <= i < s.len() implies #[trigger] s[i] < 128 by {
        assert(is_digit(s[i]));
    }
}

/// The decimal text of a number is digits, and has at most `k` of them when the number is
/// below `10 ^ k`.
pub proof fn lemma_decimal(n: nat, k: nat)
    ensures
        all_digits(decimal(n)),
        decimal(n).len() >= 1,
        k >= 1 && n < pow10(k) ==> decimal(n).len() <= k,
        digits_value(decimal(n)) == n,
    decreases n,
{
    if n < 10 {
        assert(decimal(n).drop_last() =~= Seq::<u8>::empty());
        assert(decimal(n).last() == (n + 48) as u8);
        assert(digits_value(Seq::<u8>::empty()) == 0);
    } else {
        vstd::arithmetic::div_mod::lemma_fundamental_div_mod(n as int, 10);
        vstd::arithmetic::div_mod::lemma_mod_bound(n as int, 10);
        let k1: nat = if k >= 1 {
            (k - 1) as nat
        } else {
            0
        };
        lemma_decimal(n / 10, k1);
        if k >= 1 && n < pow10(k) {
            assert(pow10(k) == 10 * pow10(k1));
            assert(k1 >= 1) by {
                if k1 == 0 {
                    assert(pow10(0) == 1);
                }
            }
        }
        let d = decimal(n);
        assert(d.drop_last() =~= decimal(n / 10));
        assert(d.last() == (n % 10 + 48) as u8);
        assert(all_digits(d)) by {
            assert forall|i: int| 0 <= i < d.len() implies is_digit(#[trigger] d[i]) by {
                if i < d.len() - 1 {
                    assert(d[i] == decimal(n / 10)[i]);
                }
            }
        }
    }
}

/// The padded digits of a number are `k` digits worth the number modulo `10 ^ k`.
pub proof fn lemma_padded(n: nat, k: nat)
    ensures
        padded(n, k).len() == k,
        all_digits(padded(n, k)),
        digits_value(padded(n, k)) == n % pow10(k),
    decreases k,
{
    if k > 0 {
        lemma_padded(n / 10, (k - 1) as nat);
        let p = padded(n, k);
        assert(p.drop_last() =~= padded(n / 10, (k - 1) as nat));
        assert(all_digits(p)) by {
            assert forall|i: int| 0 <= i < p.len() implies is_digit(#[trigger] p[i]) by {
                if i < p.len() - 1 {
                    assert(p[i] == padded(n / 10, (k - 1) as nat)[i]);
                }
            }
        }
        let m = pow10((k - 1) as nat);
        lemma_pow10_pos((k - 1) as nat);
        vstd::arithmetic::div_mod::lemma_breakdown(n as int, 10, m as int);
        assert(pow10(k) == 10 * m);
        vstd::arithmetic::mul::lemma_mul_is_commutative(10, m as int);
    }
}

/// Behind the leading `1` of `10 ^ d + f` (for `f < 10 ^ d`) stand the `d` padded digits of `f`.
pub proof fn lemma_decimal_with_leading_one(f: nat, d: nat)
    requires
        f < pow10(d),
    ensures
        decimal(f + pow10(d)).len() == d + 1,
        decimal(f + pow10(d))[0] == 49,
        decimal(f + pow10(d)).drop_first() == padded(f, d),
    decreases d,
{
    if d == 0 {
        assert(decimal(1).drop_first() =~= padded(f, 0));
    } else {
        let m = pow10((d - 1) as nat);
        let n = f + pow10(d);
        assert(pow10(d) == 10 * m);
        lemma_pow10_pos((d - 1) as nat);
        assert(n / 10 == f / 10 + m && n % 10 == f % 10) by {
            vstd::arithmetic::div_mod::lemma_fundamental_div_mod(f as int, 10);
            vstd::arithmetic::div_mod::lemma_mod_bound(f as int, 10);
            vstd::arithmetic::div_mod::lemma_fundamental_div_mod_converse(
                n as int,
                10,
                (f / 10 + m) as int,
                (f % 10) as int,
            );
        }
        assert(f / 10 < m) by {
            vstd::arithmetic::div_mod::lemma_div_by_multiple_is_strongly_ordered(
                f as int,
                pow10(d) as int,
                m as int,
                10,
            );
        }
        lemma_decimal_with_leading_one(f / 10, (d - 1) as nat);
        let w = decimal(f / 10 + m);
        assert(decimal(n) == w.push((f % 10 + 48) as u8));
        assert(decimal(n).drop_first() =~= w.drop_first().push((f % 10 + 48) as u8));
    }
}

/// Trailing zeros removed from digits leave digits, no more of them.
pub proof fn lemma_trim_zeros_end(s: Seq<u8>)
    requires
        all_digits(s),
    ensures
        all_digits(trim_zeros_end(s)),
        trim_zeros_end(s).len() <= s.len(),
        trim_zeros_end(s) == s.subrange(0, trim_zeros_end(s).len() as int),
    decreases s.len(),
{
    if s.len() > 0 && s.last() == 48 {
        lemma_trim_zeros_end(s.drop_last());
        assert(s.drop_last().subrange(0, trim_zeros_end(s).len() as int) =~= s.subrange(
            0,
            trim_zeros_end(s).len() as int,
        ));
    } else {
        assert(s.subrange(0, s.len() as int) =~= s);
    }
}

/// A value of `i128` has fewer than 40 digits.
proof fn lemma_i128_below_pow39(v: int)
    requires
        -0x8000_0000_0000_0000_0000_0000_0000_0000 <= v <= 0x7fff_ffff_ffff_ffff_ffff_ffff_ffff_ffff,
    ensures
        abs(v) < pow10(39),
{
    reveal_with_fuel(pow10, 40);
}

/// A number below `10 ^ 39` has fewer than `10 ^ (39 - d)` whole units of `10 ^ d`.
proof fn lemma_quotient_below(a: nat, d: nat)
    requires
        a < pow10(39),
        d <= 18,
    ensures
        a / pow10(d) < pow10((39 - d) as nat),
{
    let c = pow10(d) as int;
    let e = pow10((39 - d) as nat) as int;
    lemma_pow10_pos(d);
    lemma_pow10_add((39 - d) as nat, d);
    assert(pow10(39) == e * c);
    vstd::arithmetic::div_mod::lemma_div_by_multiple_is_strongly_ordered(a as int, e * c, e, c);
    vstd::arithmetic::div_mod::lemma_div_multiples_vanish(e, c);
}

/// The text of a number of a layout fits in 42 bytes, and is ASCII.
pub proof fn lemma_format_text(v: int, digits: nat)
    requires
        -0x8000_0000_0000_0000_0000_0000_0000_0000 <= v <= 0x7fff_ffff_ffff_ffff_ffff_ffff_ffff_ffff,
        digits <= 18,
    ensures
        format_text(v, digits).len() <= 42,
        is_ascii_bytes(format_text(v, digits)),
{
    let c = pow10(digits);
    let a = abs(v);
    lemma_pow10_pos(digits);
    lemma_i128_below_pow39(v);
    lemma_quotient_below(a, digits);
    lemma_decimal(a / c, (39 - digits) as nat);
    let fractional = a % c;
    lemma_padded(fractional, digits);
    lemma_trim_zeros_end(padded(fractional, digits));
    let tail: Seq<u8> = if fractional > 0 {
        trim_zeros_end(padded(fractional, digits))
    } else {
        seq![48u8]
    };
    assert(all_digits(tail));
    lemma_text_ascii(v < 0, decimal(a / c), tail);
}

/// A sign, digits, a `.` and digits are ASCII.
proof fn lemma_text_ascii(negative: bool, integral: Seq<u8>, tail: Seq<u8>)
    requires
        all_digits(integral),
        all_digits(tail),
    ensures
        is_ascii_bytes(
            (if negative {
                seq![45u8]
            } else {
                seq![]
            }) + integral + seq![46u8] + tail,
        ),
{
    let sign: Seq<u8> = if negative {
        seq![45u8]
    } else {
        seq![]
    };
    let t = sign + integral + seq![46u8] + tail;
    assert forall|i: int| 0 <= i < t.len() implies #[trigger] t[i] < 128 by {
        if i < sign.len() {
        } else if i < sign.len() + integral.len() {
            assert(t[i] == integral[i - sign.len()]);
            assert(is_digit(integral[i - sign.len()]));
        } else if i == sign.len() + integral.len() {
        } else {
            assert(t[i] == tail[i - sign.len() - integral.len() - 1]);
            assert(is_digit(tail[i - sign.len() - integral.len() - 1]));
        }
    }
}

/// `itoa::Buffer::format`: the decimal digits of `n`, without leading zeros.
#[verifier::external_body]
fn ext_itoa(n: u128) -> (r: Vec<u8>)
    ensures
        r@ == decimal(n as nat),
{
    let mut buffer = itoa::Buffer::new();
    buffer.format(n).as_bytes().to_vec()
}

/// `core::str::from_utf8`, for bytes that are valid UTF-8: the string slice they encode.
#[verifier::external_body]
fn ext_from_utf8(b: &[u8]) -> (r: &str)
    requires
        valid_utf8(b@),
    ensures
        r.spec_bytes() == b@,
{
    core::str::from_utf8(b).unwrap()
}

/// The number of bytes a [`StrBuf`] holds.
pub const STR_BUF_CAPACITY: usize = 42;

/// A fixed-capacity buffer of text (valid UTF-8), which numbers are written into.
pub struct StrBuf {
    buffer: [u8; 42],
    len: usize,
}

/// ASCII bytes are valid UTF-8, and decode to their characters.
proof fn lemma_ascii_utf8(b: Seq<u8>)
    requires
        is_ascii_bytes(b),
    ensures
        valid_utf8(b),
        decode_utf8(b) == ascii_chars(b),
{
    let cs = ascii_chars(b);
    assert(vstd::utf8::is_ascii_chars(cs));
    is_ascii_chars_encode_utf8(cs);
    assert(encode_utf8(cs) =~= b);
    encode_utf8_valid_utf8(cs);
    encode_utf8_decode_utf8(cs);
}

impl StrBuf {
    #[verifier::type_invariant]
    spec fn well_formed(self) -> bool {
        &&& self.len <= 42
        &&& valid_utf8(self.buffer@.subrange(0, self.len as int))
    }

    /// The bytes written so far.
    pub closed spec fn bytes(self) -> Seq<u8> {
        self.buffer@.subrange(0, self.len as int)
    }

    /// Appends one ASCII byte.
    fn push(&mut self, c: u8)
        requires
            c < 128,
            old(self)@.len() < STR_BUF_CAPACITY,
        ensures
            final(self)@ == old(self)@.push(c),
    {
        proof {
            use_type_invariant(&*self);
        }
        let len = self.len;
        let mut buffer = self.buffer;
        buffer[len] = c;
        proof {
            assert(buffer@.subrange(0, len + 1) =~= old(self)@ + seq![c]);
            lemma_ascii_utf8(seq![c]);
            vstd::utf8::valid_utf8_concat(old(self)@, seq![c]);
        }
        *self = StrBuf { buffer, len: len + 1 };
        proof {
            assert(self@ =~= old(self)@.push(c));
        }
    }

    /// Appends the bytes of a string slice.
    fn push_str(&mut self, s: &str)
        requires
            old(self)@.len() + s.spec_bytes().len() <= STR_BUF_CAPACITY,
        ensures
            final(self)@ == old(self)@ + s.spec_bytes(),
    {
        proof {
            use_type_invariant(&*self);
        }
        let raw = s.as_bytes();
        let len = self.len;
        let ghost start = old(self)@;
        let mut buffer = self.buffer;
        let mut i: usize = 0;
        while i < raw.len()
            invariant
                0 <= i <= raw@.len(),
                raw@ == s.spec_bytes(),
                len == start.len(),
                len + raw@.len() <= STR_BUF_CAPACITY,
                buffer@.len() == 42,
                buffer@.subrange(0, len + i) == start + raw@.subrange(0, i as int),
            decreases raw@.len() - i,
        {
            let ghost prev = buffer@;
            buffer[len + i] = raw[i];
            proof {
                assert forall|j: int| 0 <= j < len + i implies buffer@[j] == prev.subrange(
                    0,
                    len + i,
                )[j] by {}
                assert(buffer@.subrange(0, len + i + 1) =~= start + raw@.subrange(0, i + 1));
            }
            i += 1;
        }
        proof {
            assert(raw@.subrange(0, i as int) =~= raw@);
            encode_utf8_valid_utf8(s@);
            vstd::utf8::valid_utf8_concat(old(self)@, raw@);
        }
        *self = StrBuf { buffer, len: len + i };
    }

    /// The text written so far.
    pub fn as_str(&self) -> (r: &str)
        ensures
            r.spec_bytes() == self@,
            r@ == decode_utf8(self@),
    {
        proof {
            use_type_invariant(self);
        }
        let b = vstd::slice::slice_subrange(self.buffer.as_slice(), 0, self.len);
        let r = ext_from_utf8(b);
        proof {
            encode_utf8_decode_utf8(r@);
        }
        r
    }
}

impl View for StrBuf {
    type V = Seq<u8>;

    open spec fn view(&self) -> Seq<u8> {
        self.bytes()
    }
}

impl Default for StrBuf {
    fn default() -> (r: Self)
        ensures
            r@ == Seq::<u8>::empty(),
    {
        let r = Self { buffer: [0; 42], len: 0 };
        proof {
            assert(r@ =~= Seq::<u8>::empty());
        }
        r
    }
}

/// Writing a value as text.
pub trait Stringify {
    /// The text of the value, as ASCII bytes.
    spec fn text(&self) -> Seq<u8>;

    /// Appends the text of the value to the buffer.
    fn stringify(&self, buf: &mut StrBuf)
        requires
            old(buf)@.len() + self.text().len() <= STR_BUF_CAPACITY,
        ensures
            final(buf)@ == old(buf)@ + self.text(),
    ;
}

impl<I: Layout, P: FitsIn<I>> Stringify for FixedPoint<I, P> {
    open spec fn text(&self) -> Seq<u8> {
        format_text(self.value(), P::digits())
    }

    fn stringify(&self, buf: &mut StrBuf) {
        let c = Self::coef_l();
        let ghost v = self.value();
        let ghost start = buf@;
        proof {
            I::lemma_bounds();
            I::lemma_range(self.inner);
            P::lemma_digits();
            P::lemma_fits_in();
            lemma_trunc_parts(v, c.val());
            lemma_format_text(v, P::digits());
            lemma_decimal(abs(v) / (c.val() as nat), 0);
        }
        let ghost sign: Seq<u8> = if v < 0 {
            seq![45u8]
        } else {
            seq![]
        };
        if self.inner.lt_l(I::from_i64(0)) {
            buf.push(45);
        }
        proof {
            assert(buf@ == start + sign);
        }
        let (q, rem) = self.inner.div_rem_l(c);
        let integral = q.unsigned_abs_l();
        let fractional = rem.unsigned_abs_l();
        let digits = ext_itoa(integral);
        proof {
            lemma_digits_ascii(digits@);
            lemma_ascii_utf8(digits@);
        }
        buf.push_str(ext_from_utf8(digits.as_slice()));
        buf.push(46);
        if fractional > 0 {
            let c_abs = c.unsigned_abs_l();
            proof {
                lemma_decimal_with_leading_one(fractional as nat, P::digits());
                lemma_padded(fractional as nat, P::digits());
            }
            let with_one = ext_itoa(fractional + c_abs);
            let ghost w = with_one@;
            let mut end = with_one.len();
            while end > 1 && with_one[end - 1] == 48
                invariant
                    1 <= end <= w.len(),
                    w == with_one@,
                    trim_zeros_end(w.subrange(1, end as int)) == trim_zeros_end(
                        w.subrange(1, w.len() as int),
                    ),
                decreases end,
            {
                proof {
                    assert(w.subrange(1, end as int).drop_last() =~= w.subrange(1, end - 1));
                }
                end -= 1;
            }
            let tail = vstd::slice::slice_subrange(with_one.as_slice(), 1, end);
            proof {
                assert(w.subrange(1, w.len() as int) =~= w.drop_first());
                assert(trim_zeros_end(w.subrange(1, end as int)) == w.subrange(1, end as int));
                assert(tail@ == trim_zeros_end(padded(fractional as nat, P::digits())));
                lemma_trim_zeros_end(padded(fractional as nat, P::digits()));
                lemma_digits_ascii(tail@);
                lemma_ascii_utf8(tail@);
            }
            buf.push_str(ext_from_utf8(tail));
        } else {
            buf.push(48);
        }
        proof {
            assert(buf@ =~= start + format_text(v, P::digits()));
        }
    }
}

impl<I: Layout, P: FitsIn<I>> FixedPoint<I, P> {
    /// The text of the number: `-` for a negative number, the integral part, `.`, and the
    /// fractional digits without trailing zeros (`0` when there are none).
    pub fn to_string(&self) -> (r: String)
        ensures
            r@ == ascii_chars(format_text(self.value(), P::digits())),
    {
        let mut buf = StrBuf::default();
        proof {
            I::lemma_bounds();
            I::lemma_range(self.inner);
            P::lemma_digits();
            P::lemma_fits_in();
            lemma_format_text(self.value(), P::digits());
        }
        self.stringify(&mut buf);
        proof {
            assert(buf@ =~= format_text(self.value(), P::digits()));
            lemma_ascii_utf8(buf@);
        }
        buf.as_str().to_owned()
    }
}

/// Trailing zeros take a power of ten out of the value of digits.
proof fn lemma_trim_zeros_value(s: Seq<u8>)
    requires
        all_digits(s),
    ensures
        trim_zeros_end(s).len() <= s.len(),
        digits_value(s) == digits_value(trim_zeros_end(s)) * pow10(
            (s.len() - trim_zeros_end(s).len()) as nat,
        ),
    decreases s.len(),
{
    if s.len() > 0 && s.last() == 48 {
        assert(all_digits(s.drop_last()));
        lemma_trim_zeros_value(s.drop_last());
        let t = trim_zeros_end(s);
        let k = (s.len() - t.len()) as nat;
        assert(k >= 1);
        let p1 = pow10((k - 1) as nat) as int;
        let dt = digits_value(t);
        assert(pow10(k) == 10 * p1);
        assert(digits_value(s) == 10 * digits_value(s.drop_last()));
        assert(t == trim_zeros_end(s.drop_last()));
        assert(digits_value(s.drop_last()) == dt * p1);
        assert(10 * (dt * p1) == dt * (10 * p1)) by (nonlinear_arith);
        assert(digits_value(s) == dt * pow10(k));
        assert(digits_value(s) == digits_value(trim_zeros_end(s)) * pow10(
            (s.len() - trim_zeros_end(s).len()) as nat,
        ));
    } else {
        let k = (s.len() - trim_zeros_end(s).len()) as nat;
        assert(trim_zeros_end(s) == s);
        assert(pow10(k) == 1);
        let d = digits_value(s);
        assert(d * pow10(k) == d) by (nonlinear_arith)
            requires
                pow10(k) == 1,
        ;
    }
}

/// The digits that the text of a number shows after its `.`: the `digits` fractional
/// digits without their trailing zeros, or `0`.
pub open spec fn fraction_text(fractional: nat, digits: nat) -> Seq<u8> {
    if fractional > 0 {
        trim_zeros_end(padded(fractional, digits))
    } else {
        seq![48u8]
    }
}

/// The fractional text is digits, at most `digits` of them, worth `fractional` once scaled.
proof fn lemma_fraction_text(fractional: nat, digits: nat)
    requires
        fractional < pow10(digits),
        digits >= 1,
    ensures
        all_digits(fraction_text(fractional, digits)),
        1 <= fraction_text(fractional, digits).len() <= digits,
        pow10((digits - fraction_text(fractional, digits).len()) as nat) * digits_value(
            fraction_text(fractional, digits),
        ) == fractional,
{
    let ft = fraction_text(fractional, digits);
    if fractional > 0 {
        let p = padded(fractional, digits);
        lemma_padded(fractional, digits);
        vstd::arithmetic::div_mod::lemma_small_mod(fractional, pow10(digits));
        lemma_trim_zeros_value(p);
        lemma_trim_zeros_end(p);
        let scale = pow10((digits - ft.len()) as nat) as int;
        assert(digits_value(p) == fractional);
        assert(digits_value(p) == digits_value(ft) * scale);
        assert(scale * digits_value(ft) == digits_value(ft) * scale) by (nonlinear_arith);
        if ft.len() == 0 {
            assert(digits_value(ft) == 0);
        }
        assert(pow10((digits - ft.len()) as nat) * digits_value(ft) == fractional);
    } else {
        assert(ft.drop_last() =~= Seq::<u8>::empty());
        assert(ft.last() == 48);
        assert(digits_value(Seq::<u8>::empty()) == 0);
        assert(all_digits(ft)) by {
            assert(is_digit(ft[0]));
        }
        assert(digits_value(ft) == 0);
        let scale = pow10((digits - ft.len()) as nat) as int;
        assert(scale * 0 == 0);
    }
}

/// The text of a number has no whitespace at its ends, and is read back as its bytes.
proof fn lemma_text_bytes_of_ascii(t: Seq<u8>)
    requires
        is_ascii_bytes(t),
        t.len() > 0,
        t[0] == 45 || is_digit(t[0]),
        is_digit(t.last()),
    ensures
        text_bytes(ascii_chars(t)) == t,
{
    let cs = ascii_chars(t);
    assert(!is_whitespace(cs[0]));
    assert(cs.last() == t.last() as char);
    assert(!is_whitespace(cs.last()));
    assert(trim_start(cs) == cs);
    assert(trim_end(cs) == cs);
    assert(vstd::utf8::is_ascii_chars(cs));
    is_ascii_chars_encode_utf8(cs);
    assert(encode_utf8(cs) =~= t);
}

/// Reading back the text of a number of the layout `I` with `digits >= 1` decimal places
/// gives the number, whether the reading is exact or rounds.
pub proof fn lemma_parse_format<I: Layout>(v: int, digits: nat, exact: bool)
    requires
        I::lo() <= v <= I::hi(),
        1 <= digits <= 18,
    ensures
        parse_outcome::<I>(format_text(v, digits), digits, exact) == Ok::<int, ConvertReason>(v),
{
    I::lemma_bounds();
    let c = pow10(digits);
    let a = abs(v);
    lemma_pow10_pos(digits);
    let q = a / c;
    let fractional = a % c;
    vstd::arithmetic::div_mod::lemma_fundamental_div_mod(a as int, c as int);
    vstd::arithmetic::div_mod::lemma_mod_bound(a as int, c as int);
    assert(0 <= q * c <= a) by (nonlinear_arith)
        requires
            a == c * q + fractional,
            0 <= fractional,
            c > 0,
            q >= 0,
    ;
    let sign: Seq<u8> = if v < 0 {
        seq![45u8]
    } else {
        seq![]
    };
    let d = decimal(q);
    lemma_decimal(q, 0);
    let ft = fraction_text(fractional, digits);
    lemma_fraction_text(fractional, digits);
    let t = format_text(v, digits);
    assert(t =~= sign + d + seq![46u8] + ft);
    let k: int = (sign.len() + d.len()) as int;
    // The first `.` follows the integral digits.
    assert forall|j: int| 0 <= j < k implies t[j] != 46 by {
        if j >= sign.len() {
            assert(t[j] == d[j - sign.len()]);
            assert(is_digit(d[j - sign.len()]));
        }
    }
    assert(t[k] == 46);
    lemma_first_index(t, 46, k);
    // The integral part.
    let ip = t.subrange(0, k);
    assert(ip =~= sign + d);
    let integral: int = if v < 0 {
        -q
    } else {
        q as int
    };
    if v < 0 {
        assert(ip.drop_first() =~= d);
    } else {
        assert(ip =~= d);
        assert(is_digit(d[0]));
    }
    assert(int_literal(ip) == Some(integral));
    // The fractional part.
    let fp = t.subrange(k + 1, t.len() as int);
    assert(fp =~= ft);
    assert(t[0] == 45 <==> v < 0) by {
        if v >= 0 {
            assert(t[0] == d[0]);
            assert(is_digit(d[0]));
        }
    }
    assert(integral * (c as int) == (if v < 0 {
        -(q * c)
    } else {
        (q * c) as int
    })) by (nonlinear_arith)
        requires
            integral == (if v < 0 {
                -q
            } else {
                q as int
            }),
    ;
    assert(decimal_outcome::<I>(t, k, digits, exact) == Ok::<int, ConvertReason>(v));
}

/// Printing a number and reading the text back, exactly or with rounding, gives the number
/// again, when the numbers have at least one decimal place.
pub proof fn lemma_to_string_from_str<I: Layout, P: FitsIn<I>>(x: FixedPoint<I, P>, exact: bool)
    requires
        P::digits() >= 1,
    ensures
        parse_outcome::<I>(
            text_bytes(ascii_chars(format_text(x.value(), P::digits()))),
            P::digits(),
            exact,
        ) == Ok::<int, ConvertReason>(x.value()),
{
    I::lemma_bounds();
    I::lemma_range(x.bits());
    P::lemma_digits();
    P::lemma_fits_in();
    let v = x.value();
    let t = format_text(v, P::digits());
    lemma_format_text(v, P::digits());
    lemma_parse_format::<I>(v, P::digits(), exact);
    let c = pow10(P::digits());
    let q = abs(v) / c;
    lemma_pow10_pos(P::digits());
    vstd::arithmetic::div_mod::lemma_mod_bound(abs(v) as int, c as int);
    lemma_decimal(q, 0);
    lemma_fraction_text(abs(v) % c, P::digits());
    let sign: Seq<u8> = if v < 0 {
        seq![45u8]
    } else {
        seq![]
    };
    let ft = fraction_text(abs(v) % c, P::digits());
    assert(t =~= sign + decimal(q) + seq![46u8] + ft);
    assert(t.last() == ft.last());
    assert(is_digit(ft[ft.len() - 1]));
    if v >= 0 {
        assert(t[0] == decimal(q)[0]);
        assert(is_digit(decimal(q)[0]));
    }
    lemma_text_bytes_of_ascii(t);
}

/// The text round trip: whatever `from_str` or `from_str_exact` returns for the text that
/// `to_string` gives of a number is `Ok` of that number, when the numbers have at least one
/// decimal place.
pub proof fn lemma_text_round_trip<I: Layout, P: FitsIn<I>>(
    x: FixedPoint<I, P>,
    s: &str,
    exact: bool,
    r: Result<FixedPoint<I, P>, ConvertError>,
)
    requires
        P::digits() >= 1,
        s@ == ascii_chars(format_text(x.value(), P::digits())),
        parse_result(r, parse_outcome::<I>(trimmed_bytes(s), P::digits(), exact)),
    ensures
        r == Ok::<FixedPoint<I, P>, ConvertError>(x),
{
    lemma_to_string_from_str(x, exact);
    let y = r->Ok_0;
    FixedPoint::<I, P>::lemma_with_value(x);
    FixedPoint::<I, P>::lemma_with_value(y);
}

/// A `+` before a digit changes nothing in the integer it starts.
proof fn lemma_int_literal_plus(s: Seq<u8>)
    requires
        s.len() > 0,
        is_digit(s[0]),
    ensures
        int_literal(seq![43u8] + s) == int_literal(s),
{
    let t = seq![43u8] + s;
    assert(t.drop_first() =~= s);
}

/// A leading `+` changes nothing in what a text of a number parses to: `"+1.5"` parses as
/// `"1.5"` and `"+5"` as `"5"`, exactly and with rounding, for any layout and precision.
pub proof fn lemma_parse_plus_sign<I: Layout>(d: Seq<u8>, digits: nat, exact: bool)
    requires
        d.len() > 0,
        is_digit(d[0]),
    ensures
        parse_outcome::<I>(seq![43u8] + d, digits, exact) == parse_outcome::<I>(d, digits, exact),
{
    let t = seq![43u8] + d;
    let k = first_index(d, 46);
    lemma_first_index_exists(d, 46);
    assert(is_first_index(d, 46, k));
    assert(is_first_index(t, 46, k + 1)) by {
        assert forall|j: int| 0 <= j < k + 1 implies t[j] != 46 by {
            if j > 0 {
                assert(t[j] == d[j - 1]);
            }
        }
    }
    lemma_first_index(t, 46, k + 1);
    if k == d.len() {
        lemma_int_literal_plus(d);
    } else {
        assert(k > 0);
        let dk = d.subrange(0, k);
        assert(t.subrange(0, k + 1) =~= seq![43u8] + dk);
        assert(dk[0] == d[0]);
        lemma_int_literal_plus(dk);
        assert(t.subrange(k + 2, t.len() as int) =~= d.subrange(k + 1, d.len() as int));
    }
}

/// Parsing an integer `N` gives what parsing `N.0` gives, when the number fits: the integer
/// scaled by `10^digits` (for at least one decimal place), exactly and with rounding.
pub proof fn lemma_parse_integer_as_decimal<I: Layout>(t: Seq<u8>, digits: nat, exact: bool)
    requires
        int_literal(t) is Some,
        digits >= 1,
        I::lo() <= int_literal(t)->0 * pow10(digits) <= I::hi(),
    ensures
        parse_outcome::<I>(t, digits, exact) == Ok::<int, ConvertReason>(
            int_literal(t)->0 * pow10(digits),
        ),
        parse_outcome::<I>(t + seq![46u8, 48u8], digits, exact) == parse_outcome::<I>(
            t,
            digits,
            exact,
        ),
{
    let v = int_literal(t)->0;
    let c = pow10(digits) as int;
    let u = t + seq![46u8, 48u8];
    I::lemma_bounds();
    lemma_pow10_pos(digits);
    assert(I::lo() <= v <= I::hi()) by (nonlinear_arith)
        requires
            I::lo() <= v * c <= I::hi(),
            c >= 1,
            I::lo() < 0 < I::hi(),
    ;
    assert forall|j: int| 0 <= j < t.len() implies t[j] != 46 by {
        if t[0] == 43 || t[0] == 45 {
            if j > 0 {
                assert(t.drop_first()[j - 1] == t[j]);
            }
        } else {
            assert(is_digit(t[j]));
        }
    }
    assert(is_first_index(t, 46, t.len() as int));
    lemma_first_index(t, 46, t.len() as int);
    assert(is_first_index(u, 46, t.len() as int));
    lemma_first_index(u, 46, t.len() as int);
    assert(u.subrange(0, t.len() as int) =~= t);
    let fp = u.subrange(t.len() as int + 1, u.len() as int);
    assert(fp =~= seq![48u8]);
    assert(fp.drop_last() =~= Seq::<u8>::empty());
    assert(digits_value(fp.drop_last()) == 0);
    assert(fp.last() == 48);
    assert(digits_value(fp) == 0);
    assert(u[0] == t[0]);
    assert(pow10((digits - 1) as nat) * 0 == 0);
}

/// Digits split at `j`: the value of the first `j` digits shifted past the rest, plus the
/// value of the rest.
pub proof fn lemma_digits_value_split(s: Seq<u8>, j: int)
    requires
        all_digits(s),
        0 <= j <= s.len(),
    ensures
        digits_value(s) == digits_value(s.subrange(0, j)) * pow10((s.len() - j) as nat)
            + digits_value(s.subrange(j, s.len() as int)),
    decreases s.len(),
{
    if j == s.len() {
        assert(s.subrange(0, j) =~= s);
        assert(s.subrange(j, s.len() as int) =~= Seq::<u8>::empty());
        assert(pow10(0) == 1);
        let d = digits_value(s);
        assert(d * pow10(0) == d);
    } else {
        let m = (s.len() - j) as nat;
        let sd = s.drop_last();
        assert(all_digits(sd));
        lemma_digits_value_split(sd, j);
        assert(sd.subrange(0, j) =~= s.subrange(0, j));
        let tail = s.subrange(j, s.len() as int);
        assert(tail.drop_last() =~= sd.subrange(j, sd.len() as int));
        assert(tail.last() == s.last());
        let a = digits_value(s.subrange(0, j));
        let b = digits_value(sd.subrange(j, sd.len() as int));
        let p = pow10((m - 1) as nat) as int;
        assert(pow10(m) == 10 * p);
        assert(10 * (a * p + b) == a * (10 * p) + 10 * b) by (nonlinear_arith);
    }
}

/// Digits are at least half of `10 ^ len` exactly when the first one is `5` or more.
pub proof fn lemma_first_digit_half(s: Seq<u8>)
    requires
        all_digits(s),
        s.len() > 0,
    ensures
        (2 * digits_value(s) >= pow10(s.len())) == (s[0] >= 53),
{
    lemma_digits_value_split(s, 1);
    let first = s.subrange(0, 1);
    let rest = s.subrange(1, s.len() as int);
    assert(first.drop_last() =~= Seq::<u8>::empty());
    assert(first.last() == s[0]);
    assert(digits_value(Seq::<u8>::empty()) == 0);
    assert(digits_value(first) == s[0] - 48);
    assert(all_digits(rest));
    lemma_digits_value_nonneg(rest);
    let p = pow10((s.len() - 1) as nat) as int;
    assert(pow10(s.len()) == 10 * p);
    assert(is_digit(s[0]));
    let d = s[0] - 48;
    let r = digits_value(rest);
    assert((2 * (d * p + r) >= 10 * p) == (d >= 5)) by (nonlinear_arith)
        requires
            0 <= d <= 9,
            0 <= r < p,
    ;
}

/// Rounding to nearest of `s * (q * b + r)` by `b`, for `0 <= r < b`: `q`, moved one step
/// away from zero when `2 * r >= b`, with the sign `s`.
proof fn lemma_div_nearest_parts(s: int, q: int, r: int, b: int)
    requires
        s == 1 || s == -1,
        q >= 0,
        0 <= r < b,
    ensures
        div_nearest(s * (q * b + r), b) == s * (q + (if 2 * r >= b {
            1int
        } else {
            0
        })),
{
    let a = q * b + r;
    let up: int = if 2 * r >= b {
        1
    } else {
        0
    };
    assert(a >= 0) by (nonlinear_arith)
        requires
            q >= 0,
            r >= 0,
            b > 0,
            a == q * b + r,
    ;
    assert(2 * a + b == (2 * b) * q + (2 * r + b)) by (nonlinear_arith)
        requires
            a == q * b + r,
    ;
    assert(2 * a + b == (q + up) * (2 * b) + (2 * r + b - 2 * b * up)) by (nonlinear_arith)
        requires
            2 * a + b == (2 * b) * q + (2 * r + b),
    ;
    vstd::arithmetic::div_mod::lemma_fundamental_div_mod_converse(
        2 * a + b,
        2 * b,
        q + up,
        2 * r + b - 2 * b * up,
    );
    assert(abs(s * a) == a) by (nonlinear_arith)
        requires
            s == 1 || s == -1,
            a >= 0,
    ;
    if q > 0 {
        assert(q * b >= b) by (nonlinear_arith)
            requires
                q >= 1,
                b > 0,
        ;
    }
}

/// The value of the decimal text `integral.fp` (with the sign of `negative`), times
/// `10 ^ fp.len()`.
pub open spec fn decimal_scaled(integral: int, negative: bool, fp: Seq<u8>) -> int {
    integral * pow10(fp.len()) + (if negative {
        -1int
    } else {
        1
    }) * digits_value(fp)
}

/// The exact value of a decimal text scaled by `10 ^ fp.len()`, brought to `digits` places:
/// rounded to nearest (half-way cases away from zero) when there are more fractional
/// digits than places.
pub open spec fn rounded_to_places(scaled: int, len: nat, digits: nat) -> int {
    if len > digits {
        div_nearest(scaled, pow10((len - digits) as nat) as int)
    } else {
        scaled * pow10((digits - len) as nat)
    }
}

/// Parsing with rounding gives the number that the text stands for, rounded to nearest
/// (half-way cases away from zero) to the decimal places of the type; parsing exactly gives
/// it unrounded.
pub proof fn lemma_parse_rounds_to_nearest<I: Layout>(t: Seq<u8>, digits: nat, exact: bool)
    requires
        first_index(t, 46) < t.len(),
        parse_outcome::<I>(t, digits, exact) is Ok,
    ensures
        ({
            let k = first_index(t, 46);
            let fp = t.subrange(k + 1, t.len() as int);
            let integral = int_literal(t.subrange(0, k))->0;
            parse_outcome::<I>(t, digits, exact) == Ok::<int, ConvertReason>(
                rounded_to_places(decimal_scaled(integral, t[0] == 45, fp), fp.len(), digits),
            )
        }),
{
    let k = first_index(t, 46);
    lemma_first_index_exists(t, 46);
    assert(is_first_index(t, 46, k));
    let ip = t.subrange(0, k);
    let fp = t.subrange(k + 1, t.len() as int);
    let integral = int_literal(ip)->0;
    let negative = t[0] == 45;
    let sgn: int = if negative {
        -1
    } else {
        1
    };
    let c = pow10(digits) as int;
    let l = fp.len();
    assert(ip.len() > 0);
    assert(ip[0] == t[0]);
    // The integral part has the sign of the text.
    let mag = abs(integral) as int;
    assert(integral == sgn * mag) by {
        if ip[0] == 45 {
            lemma_digits_value_nonneg(ip.drop_first());
        } else if ip[0] == 43 {
            lemma_digits_value_nonneg(ip.drop_first());
        } else {
            lemma_digits_value_nonneg(ip);
        }
    }
    lemma_digits_value_nonneg(fp);
    lemma_pow10_pos(digits);
    if l > digits {
        let kk = (l - digits) as nat;
        let b = pow10(kk) as int;
        lemma_pow10_pos(kk);
        let f = fp.subrange(0, digits as int);
        let rest = fp.subrange(digits as int, l as int);
        lemma_digits_value_split(fp, digits as int);
        assert(all_digits(rest));
        lemma_first_digit_half(rest);
        assert(rest[0] == fp[digits as int]);
        lemma_digits_value_nonneg(rest);
        lemma_digits_value_nonneg(f);
        lemma_pow10_add(digits, kk);
        assert(pow10((digits - f.len()) as nat) == 1);
        let fv = digits_value(f);
        let q = mag * c + fv;
        let r = digits_value(rest);
        let pl = pow10(l) as int;
        let dfp = digits_value(fp);
        assert(pl == c * b);
        assert(dfp == fv * b + r);
        assert(decimal_scaled(integral, negative, fp) == integral * pl + sgn * dfp);
        assert(integral * pl == sgn * (mag * c * b)) by (nonlinear_arith)
            requires
                integral == sgn * mag,
                pl == c * b,
        ;
        assert(sgn * (mag * c * b) + sgn * (fv * b + r) == sgn * (q * b + r)) by (nonlinear_arith)
            requires
                q == mag * c + fv,
        ;
        assert(q >= 0) by (nonlinear_arith)
            requires
                mag >= 0,
                c > 0,
                digits_value(f) >= 0,
                q == mag * c + digits_value(f),
        ;
        lemma_div_nearest_parts(sgn, q, r, b);
        assert(integral * c + fraction_value(f, digits, negative, fp[digits as int] >= 53) == sgn
            * (q + (if 2 * r >= b {
            1int
        } else {
            0
        }))) by (nonlinear_arith)
            requires
                integral == sgn * mag,
                sgn == 1 || sgn == -1,
                q == mag * c + digits_value(f),
                fraction_value(f, digits, negative, fp[digits as int] >= 53) == sgn * (1
                    * digits_value(f) + (if 2 * r >= b {
                    1int
                } else {
                    0
                })),
        ;
    } else {
        let kk = (digits - l) as nat;
        lemma_pow10_add(l, kk);
        assert(integral * c + fraction_value(fp, digits, negative, false) == decimal_scaled(
            integral,
            negative,
            fp,
        ) * pow10(kk)) by (nonlinear_arith)
            requires
                c == pow10(l) * pow10(kk),
                fraction_value(fp, digits, negative, false) == sgn * (pow10(kk) * digits_value(
                    fp,
                ) + 0),
                decimal_scaled(integral, negative, fp) == integral * pow10(l) + sgn * digits_value(
                    fp,
                ),
        ;
    }
}

/// Some position is the first position of a byte (or the end).
proof fn lemma_first_index_exists(s: Seq<u8>, c: u8)
    ensures
        exists|i: int| is_first_index(s, c, i),
    decreases s.len(),
{
    if s.len() == 0 {
        assert(is_first_index(s, c, 0));
    } else if s[0] == c {
        assert(is_first_index(s, c, 0));
    } else {
        lemma_first_index_exists(s.drop_first(), c);
        let i = choose|i: int| is_first_index(s.drop_first(), c, i);
        assert forall|j: int| 0 <= j < i + 1 implies s[j] != c by {
            if j > 0 {
                assert(s[j] == s.drop_first()[j - 1]);
            }
        }
        assert(is_first_index(s, c, i + 1));
    }
}

} // verus!
