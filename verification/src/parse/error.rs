use super::ErrorKind;
use crate::object::error::ObjectErr;
use vstd::prelude::*;

verus! {

/// Errors of the parsers. A recoverable error says that the buffer does not
/// hold the object that was sought, and that another parser may be tried; a
/// failure says that the object was found but could not be parsed completely.
#[derive(Debug, PartialEq)]
pub enum ParseErr<'buffer> {
    Recoverable(ParseError<'buffer>),
    Failure(ParseError<'buffer>),
}

/// The input at which a parser failed, the object that it sought, and why.
#[derive(Debug, PartialEq)]
pub struct ParseError<'buffer> {
    pub buffer: &'buffer [u8],
    pub object: &'static str,
    pub code: ParseErrorCode,
}

#[derive(Debug, PartialEq)]
pub enum ParseErrorCode {
    // Whole buffer errors
    TooSmallBuffer,
    // Whole object errors
    WrongObjectType,
    NotFound(ErrorKind),
    StreamData(ErrorKind),
    MissingClosing(ErrorKind),
    UnsupportedVersion(Vec<u8>),
    // Union errors
    NotFoundUnion,
    // Collection errors
    RecNotFound(Box<ParseErrorCode>),
    RecMissingSubobject(&'static str, Box<ParseErrorCode>),
    RecMissingValue(Vec<u8>, Box<ParseErrorCode>),
    RecMissingClosing(Box<ParseErrorCode>),
    // Number errors
    ObjectNumber,
    GenerationNumber,
    ParseIntError,
    ParseFloatError,
    Object(ObjectErr),
}

/// The parse failed with a recoverable error at the input `buffer`, while
/// seeking `object`, for the reason `code`.
pub open spec fn recoverable<T>(
    r: Result<T, ParseErr>,
    buffer: Seq<u8>,
    object: Seq<char>,
    code: ParseErrorCode,
) -> bool {
    r matches Err(ParseErr::Recoverable(e)) && e.buffer@ == buffer && e.object@ == object && e.code
        == code
}

/// The parse failed with an unrecoverable error at the input `buffer`, while
/// seeking `object`, for the reason `code`.
pub open spec fn failure<T>(
    r: Result<T, ParseErr>,
    buffer: Seq<u8>,
    object: Seq<char>,
    code: ParseErrorCode,
) -> bool {
    r matches Err(ParseErr::Failure(e)) && e.buffer@ == buffer && e.object@ == object && e.code
        == code
}

impl<'buffer> ParseError<'buffer> {
    pub fn new(buffer: &'buffer [u8], object: &'static str, code: ParseErrorCode) -> (err: Self)
        ensures
            err.buffer == buffer,
            err.object == object,
            err.code == code,
    {
        Self { buffer, object, code }
    }
}

impl<'buffer> ParseErr<'buffer> {
    pub open spec fn spec_error(self) -> ParseError<'buffer> {
        match self {
            ParseErr::Recoverable(err) => err,
            ParseErr::Failure(err) => err,
        }
    }

    /// The input at which the parser failed.
    pub fn buffer(&self) -> (buffer: &'buffer [u8])
        ensures
            buffer == self.spec_error().buffer,
    {
        match self {
            ParseErr::Recoverable(err) => err.buffer,
            ParseErr::Failure(err) => err.buffer,
        }
    }

    /// Why the parser failed.
    pub fn code(self) -> (code: ParseErrorCode)
        ensures
            code == self.spec_error().code,
    {
        match self {
            ParseErr::Recoverable(err) => err.code,
            ParseErr::Failure(err) => err.code,
        }
    }
}

} // verus!
