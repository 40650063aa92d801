//! What can go wrong when a decimal is parsed or converted.

use vstd::prelude::*;

verus! {

/// Enum to store the various types of errors that can cause parsing an integer to fail.
#[derive(Debug, Clone, Copy, PartialEq, Eq, Structural)]
pub enum AmountErrorKind {
    /// Value being parsed doesn't have any digits (could have sign and point though)
    ///
    /// Among other causes, this variant will be constructed when parsing an empty string.
    Empty,
    /// Contains an invalid digit.
    ///
    /// Among other causes, this variant will be constructed when parsing a string that
    /// contains a letter.
    InvalidDigit,
    /// Value is too large to store in target integer type.
    Overflow,
    /// Value cannot be represented exactly at the target decimal scale.
    ///
    /// Constructed when a value has more fractional digits than the target type
    /// can hold, so converting it would silently drop precision (e.g. building a
    /// 4-digit `Amount64` from `(mantissa: 1, exponent: -5)`).
    Inexact,
}

impl AmountErrorKind {
    /// Returns the kind of the error.
    pub fn kind(&self) -> (r: &AmountErrorKind)
        ensures
            *r == *self,
    {
        self
    }

    /// The message that belongs to an error.
    pub open spec fn message(self) -> Seq<char> {
        match self {
            AmountErrorKind::Empty => "cannot parse integer from empty string"@,
            AmountErrorKind::InvalidDigit => "invalid symbol found in string"@,
            AmountErrorKind::Overflow => "number too large to fit in target type"@,
            AmountErrorKind::Inexact => "value cannot be represented exactly at the target scale"@,
        }
    }

    /// A description of the error for people to read.
    pub fn __description(&self) -> (r: &str)
        ensures
            r@ == self.message(),
    {
        match self {
            AmountErrorKind::Empty => "cannot parse integer from empty string",
            AmountErrorKind::InvalidDigit => "invalid symbol found in string",
            AmountErrorKind::Overflow => "number too large to fit in target type",
            AmountErrorKind::Inexact => "value cannot be represented exactly at the target scale",
        }
    }
}

} // verus!
