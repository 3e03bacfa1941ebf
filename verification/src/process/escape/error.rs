use crate::process::filter::error::FilterErrorCode;
use vstd::prelude::*;

verus! {

/// An error while resolving the escape sequences of an object: the escaped
/// bytes, and why.
#[derive(Debug, PartialEq, Clone)]
pub struct EscapeErr<'buffer> {
    pub buffer: &'buffer [u8],
    pub code: EscapeErrorCode,
}

#[derive(Debug, PartialEq, Clone)]
pub enum EscapeErrorCode {
    /// A hexadecimal string could not be decoded.
    Hexadecimal(FilterErrorCode),
    /// Name: a non-hexadecimal character follows the number sign.
    InvalidHexDigit(char),
    /// Name: a hexadecimal code is followed by a non-hexadecimal character.
    IncompleteHexCode(u8, char),
    /// Name: the name ends with a number sign.
    TraillingNumberSign,
    /// Name: the name ends with a single hexadecimal digit.
    TraillingHexDigit(u8),
}

impl<'buffer> EscapeErr<'buffer> {
    pub fn new(buffer: &'buffer [u8], code: EscapeErrorCode) -> (err: Self)
        ensures
            err.buffer == buffer,
            err.code == code,
    {
        Self { buffer, code }
    }
}

} // verus!
