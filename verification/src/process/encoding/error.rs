use super::Encoding;
use crate::process::escape::error::EscapeErr;
use crate::process::escape::error::EscapeErrorCode;
use vstd::std_specs::convert::FromSpecImpl;
use crate::process::filter::error::FilterErr;
use vstd::prelude::*;

verus! {

/// The UTF-8 error of the standard library, carried in decoding errors.
#[verifier::external_type_specification]
#[verifier::external_body]
pub struct ExUtf8Error(std::str::Utf8Error);

/// An error while decoding the bytes of an object as text: the bytes, and why.
#[derive(Debug, PartialEq)]
pub struct EncodingErr<'buffer> {
    pub buffer: &'buffer [u8],
    pub code: EncodingErrorCode,
}

#[derive(Debug, PartialEq)]
pub enum EncodingErrorCode {
    /// The bytes do not start with the byte order marker of the encoding.
    ByteOrderMarker(Encoding),
    Invalid(Encoding),
    Escape(EscapeErrorCode),
    Filter(FilterErr),
    Utf8(std::str::Utf8Error),
}

impl<'buffer> EncodingErr<'buffer> {
    pub fn new(buffer: &'buffer [u8], code: EncodingErrorCode) -> (err: Self)
        ensures
            err.buffer == buffer,
            err.code == code,
    {
        Self { buffer, code }
    }
}

/// An error of escaping the bytes of an object is one of decoding them.
impl<'buffer> From<EscapeErr<'buffer>> for EncodingErr<'buffer> {
    fn from(err: EscapeErr<'buffer>) -> (r: Self) {
        Self { buffer: err.buffer, code: EncodingErrorCode::Escape(err.code) }
    }
}

impl<'buffer> FromSpecImpl<EscapeErr<'buffer>> for EncodingErr<'buffer> {
    open spec fn obeys_from_spec() -> bool {
        true
    }

    open spec fn from_spec(err: EscapeErr<'buffer>) -> Self {
        EncodingErr { buffer: err.buffer, code: EncodingErrorCode::Escape(err.code) }
    }
}

} // verus!
