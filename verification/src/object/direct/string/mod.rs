pub mod hexadecimal;
pub mod literal;

use self::hexadecimal::hexadecimal_outcome;
use self::hexadecimal::Hexadecimal;
use self::literal::literal_outcome;
use self::literal::spec_literal_escape;
use self::literal::Literal;
use crate::parse::bytes_eq;
use crate::parse::error::recoverable;
use crate::parse::error::ParseErr;
use crate::parse::error::ParseError;
use crate::parse::error::ParseErrorCode;
use crate::parse::Span;
use crate::process::escape::error::EscapeErr;
use crate::process::escape::error::EscapeErrorCode;
use crate::process::filter::ascii_hex::spec_ahx_decode;
use crate::process::filter::error::FilterErrorCode;
use vstd::prelude::*;
use vstd::slice::slice_subrange;
use vstd::std_specs::cmp::PartialEqSpecImpl;

verus! {

/// REFERENCE: [7.3.4 String objects, p25]
#[derive(Debug, Clone, Copy)]
pub enum String_<'buffer> {
    Hexadecimal(Hexadecimal<'buffer>),
    Literal(Literal<'buffer>),
}

/// The outcome of reading a string at `offset`: a literal string, or else
/// a hexadecimal one.
pub open spec fn string_outcome(s: Seq<u8>, offset: int, r: Result<String_, ParseErr>) -> bool {
    if offset < s.len() && s[offset] == 40 {
        match r {
            Ok(String_::Literal(l)) => literal_outcome(s, offset, Ok(l)),
            Ok(String_::Hexadecimal(_)) => false,
            Err(e) => literal_outcome(s, offset, Err(e)),
        }
    } else if offset < s.len() && s[offset] == 60 {
        match r {
            Ok(String_::Hexadecimal(h)) => hexadecimal_outcome(s, offset, Ok(h)),
            Ok(String_::Literal(_)) => false,
            Err(e) => hexadecimal_outcome(s, offset, Err(e)),
        }
    } else {
        recoverable(r, s.skip(offset), "String"@, ParseErrorCode::NotFoundUnion)
    }
}

/// What a string stands for once its escapes are resolved.
pub open spec fn spec_string_escape(string: String_) -> Result<Seq<u8>, EscapeErrorCode> {
    match string {
        String_::Hexadecimal(h) => match spec_ahx_decode(h.value@) {
            Ok(decoded) => Ok(decoded),
            Err(code) => Err(EscapeErrorCode::Hexadecimal(FilterErrorCode::AHx(code))),
        },
        String_::Literal(l) => Ok(spec_literal_escape(l.value@)),
    }
}

impl<'buffer> String_<'buffer> {
    /// Parses a literal or a hexadecimal string at `offset`.
    pub fn parse(buffer: &'buffer [u8], offset: usize) -> (r: Result<Self, ParseErr<'buffer>>)
        requires
            offset <= buffer@.len(),
        ensures
            string_outcome(buffer@, offset as int, r),
            r matches Ok(x) ==> x.spec_span().start == offset && offset < x.spec_span().end <= buffer@.len(),
    {
        let n = buffer.len();
        proof {
            if offset < buffer@.len() {
                self::literal::lemma_literal_content_end_bounds(buffer@, offset + 1);
                crate::parse::character_set::lemma_white_space_or_comment_end_bounds(buffer@, offset + 1);
                self::hexadecimal::lemma_hex_body_end_bounds(
                    buffer@,
                    crate::parse::character_set::white_space_or_comment_end(buffer@, offset + 1),
                );
            }
        }
        match Literal::parse(buffer, offset) {
            Ok(l) => Ok(String_::Literal(l)),
            Err(ParseErr::Failure(e)) => Err(ParseErr::Failure(e)),
            Err(ParseErr::Recoverable(_)) => match Hexadecimal::parse(buffer, offset) {
                Ok(h) => Ok(String_::Hexadecimal(h)),
                Err(ParseErr::Failure(e)) => Err(ParseErr::Failure(e)),
                Err(ParseErr::Recoverable(_)) => Err(
                    ParseErr::Recoverable(
                        ParseError::new(
                            slice_subrange(buffer, offset, buffer.len()),
                            "String",
                            ParseErrorCode::NotFoundUnion,
                        ),
                    ),
                ),
            },
        }
    }

    pub open spec fn spec_span(self) -> Span {
        match self {
            String_::Hexadecimal(h) => h.span,
            String_::Literal(l) => l.span,
        }
    }

    pub fn span(&self) -> (span: Span)
        ensures
            span == self.spec_span(),
    {
        match self {
            String_::Hexadecimal(h) => h.span,
            String_::Literal(l) => l.span,
        }
    }

    /// The bytes that the string stands for.
    pub fn escape(&self) -> (r: Result<Vec<u8>, EscapeErr<'buffer>>)
        ensures
            match spec_string_escape(*self) {
                Ok(escaped) => (r matches Ok(v) && v@ == escaped),
                Err(code) => (r matches Err(e) && e.code == code),
            },
    {
        match self {
            String_::Hexadecimal(h) => h.escape(),
            String_::Literal(l) => l.escape(),
        }
    }

    pub fn as_hexadecimal(&self) -> (r: Option<&Hexadecimal<'buffer>>)
        ensures
            r == (match self {
                String_::Hexadecimal(h) => Some(h),
                String_::Literal(_) => None::<&Hexadecimal>,
            }),
    {
        match self {
            String_::Hexadecimal(h) => Some(h),
            String_::Literal(_) => None,
        }
    }

    pub fn as_literal(&self) -> (r: Option<&Literal<'buffer>>)
        ensures
            r == (match self {
                String_::Literal(l) => Some(l),
                String_::Hexadecimal(_) => None::<&Literal>,
            }),
    {
        match self {
            String_::Literal(l) => Some(l),
            String_::Hexadecimal(_) => None,
        }
    }
}

/// Two hexadecimal strings are equal as hexadecimal strings; otherwise two
/// strings are equal when they stand for the same bytes.
impl<'buffer> PartialEq for String_<'buffer> {
    fn eq(&self, other: &Self) -> (r: bool) {
        match (self, other) {
            (String_::Hexadecimal(a), String_::Hexadecimal(b)) => a == b,
            _ => match (self.escape(), other.escape()) {
                (Ok(a), Ok(b)) => bytes_eq(a.as_slice(), b.as_slice()),
                _ => false,
            },
        }
    }
}

impl<'buffer> PartialEqSpecImpl for String_<'buffer> {
    open spec fn obeys_eq_spec() -> bool {
        true
    }

    open spec fn eq_spec(&self, other: &Self) -> bool {
        match (*self, *other) {
            (String_::Hexadecimal(a), String_::Hexadecimal(b)) => match (spec_ahx_decode(a.value@), spec_ahx_decode(b.value@)) {
                (Ok(x), Ok(y)) => x == y && a.span == b.span,
                _ => false,
            },
            _ => match (spec_string_escape(*self), spec_string_escape(*other)) {
                (Ok(a), Ok(b)) => a == b,
                _ => false,
            },
        }
    }
}

} // verus!
