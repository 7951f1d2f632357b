//! Errors of arithmetic operations and of conversions.
use vstd::prelude::*;

verus! {

/// What went wrong in an arithmetic operation.
#[derive(Clone, Copy, Debug, PartialEq, Eq, Structural)]
#[non_exhaustive]
pub enum ArithmeticError {
    Overflow,
    DivisionByZero,
    /// When someone tries to use operand out of the set of departure of the function.
    /// E.g.: when you try to compute the square root of a negative number.
    DomainViolation,
}

impl ArithmeticError {
    /// A short description of the error.
    pub fn as_str(&self) -> (s: &'static str)
        ensures
            s@ == match self {
                ArithmeticError::Overflow => "overflow"@,
                ArithmeticError::DivisionByZero => "division by zero"@,
                ArithmeticError::DomainViolation => "domain violation"@,
            },
    {
        match self {
            ArithmeticError::Overflow => "overflow",
            ArithmeticError::DivisionByZero => "division by zero",
            ArithmeticError::DomainViolation => "domain violation",
        }
    }
}

/// Why a conversion failed.
#[derive(Clone, Copy, Debug, PartialEq, Eq, Structural)]
pub enum ConvertReason {
    UnsupportedExponent,
    TooBigMantissa,
    TooBigNumber,
    CannotParseInteger,
    CannotParseIntegral,
    FractionalNotDigits,
    PrecisionTooHigh,
    CannotParseFractional,
    TooBigIntegral,
    NotInRange,
}

impl ConvertReason {
    /// The message of the reason.
    pub open spec fn message(self) -> Seq<char> {
        match self {
            ConvertReason::UnsupportedExponent => "unsupported exponent"@,
            ConvertReason::TooBigMantissa => "too big mantissa"@,
            ConvertReason::TooBigNumber => "too big number"@,
            ConvertReason::CannotParseInteger => "can't parse integer"@,
            ConvertReason::CannotParseIntegral => "can't parse integral part"@,
            ConvertReason::FractionalNotDigits => "can't parse fractional part: must contain digits only"@,
            ConvertReason::PrecisionTooHigh => "requested precision is too high"@,
            ConvertReason::CannotParseFractional => "can't parse fractional part"@,
            ConvertReason::TooBigIntegral => "too big integral"@,
            ConvertReason::NotInRange => "not in range"@,
        }
    }
}

/// A conversion into a fixed-point number (or out of a wider integer) failed; the reason
/// says why.
#[derive(Clone, Copy, Debug, PartialEq, Eq, Structural)]
pub struct ConvertError {
    reason: ConvertReason,
}

impl ConvertError {
    /// The reason this error was made with.
    pub closed spec fn reason(self) -> ConvertReason {
        self.reason
    }

    /// The error with the given reason.
    pub closed spec fn because(reason: ConvertReason) -> ConvertError {
        ConvertError { reason }
    }

    pub broadcast proof fn lemma_because(reason: ConvertReason)
        ensures
            #[trigger] ConvertError::because(reason).reason() == reason,
    {
    }

    pub broadcast proof fn lemma_reason(e: ConvertError)
        ensures
            ConvertError::because(#[trigger] e.reason()) == e,
    {
    }

    pub(crate) fn new(reason: ConvertReason) -> (e: Self)
        ensures
            e == ConvertError::because(reason),
    {
        Self { reason }
    }

    /// The reason of the error.
    pub fn as_str(&self) -> (s: &'static str)
        ensures
            s@ == self.reason().message(),
    {
        match self.reason {
            ConvertReason::UnsupportedExponent => "unsupported exponent",
            ConvertReason::TooBigMantissa => "too big mantissa",
            ConvertReason::TooBigNumber => "too big number",
            ConvertReason::CannotParseInteger => "can't parse integer",
            ConvertReason::CannotParseIntegral => "can't parse integral part",
            ConvertReason::FractionalNotDigits => "can't parse fractional part: must contain digits only",
            ConvertReason::PrecisionTooHigh => "requested precision is too high",
            ConvertReason::CannotParseFractional => "can't parse fractional part",
            ConvertReason::TooBigIntegral => "too big integral",
            ConvertReason::NotInRange => "not in range",
        }
    }
}

pub broadcast group group_convert_error {
    ConvertError::lemma_because,
    ConvertError::lemma_reason,
}

} // verus!
