use super::integer::sign_len;
use crate::parse::character_set::run_end;
use crate::parse::character_set::scan_while;
use crate::parse::character_set::ByteClass;
use crate::parse::error::failure;
use crate::parse::error::recoverable;
use crate::parse::error::ParseErr;
use crate::parse::error::ParseError;
use crate::parse::error::ParseErrorCode;
use crate::parse::num::ascii_to_decimal;
use crate::parse::num::spec_ascii_to_decimal;
use crate::parse::num::Decimal;
use crate::parse::ErrorKind;
use crate::parse::Span;
use vstd::prelude::*;
use vstd::slice::slice_subrange;

verus! {

/// REFERENCE: [7.3.3 Numeric objects, p24]: a real number, kept as the
/// decimal number that it writes.
#[derive(Debug, PartialEq, Eq, Structural, Clone, Copy)]
pub struct Real {
    pub value: Decimal,
    pub span: Span,
}

/// The end of the digits and point of a real number at `offset`: digits,
/// optionally followed by a point and digits, or a point and at least one
/// digit.
pub open spec fn real_end(s: Seq<u8>, offset: int) -> int {
    let a = offset + sign_len(s, offset);
    let d = run_end(s, a, ByteClass::Digit);
    if d > a {
        if d < s.len() && s[d] == 46 {
            run_end(s, d + 1, ByteClass::Digit)
        } else {
            d
        }
    } else {
        run_end(s, a + 1, ByteClass::Digit)
    }
}

/// Reading a real number at `offset` gives a recoverable error: neither
/// digits nor a point followed by a digit.
pub open spec fn real_recoverable(s: Seq<u8>, offset: int) -> bool {
    let a = offset + sign_len(s, offset);
    let d = run_end(s, a, ByteClass::Digit);
    d == a && (!(a < s.len() && s[a] == 46) || real_end(s, offset) == a + 1)
}

/// The outcome of reading a real number at `offset`.
pub open spec fn real_outcome(s: Seq<u8>, offset: int, r: Result<Real, ParseErr>) -> bool {
    let a = offset + sign_len(s, offset);
    let d = run_end(s, a, ByteClass::Digit);
    let end = real_end(s, offset);
    if d == a && !(a < s.len() && s[a] == 46) {
        recoverable(r, s.skip(a), "Real"@, ParseErrorCode::NotFound(ErrorKind::Char))
    } else if d == a && end == a + 1 {
        recoverable(r, s.skip(a + 1), "Real"@, ParseErrorCode::NotFound(ErrorKind::Digit))
    } else {
        match spec_ascii_to_decimal(s.subrange(offset, end)) {
            Some(value) => r == Ok::<Real, ParseErr>(
                Real { value, span: Span { start: offset as usize, end: end as usize } },
            ),
            None => failure(r, s.subrange(offset, end), "Real"@, ParseErrorCode::ParseFloatError),
        }
    }
}

impl Real {
    pub fn new(value: Decimal, span: Span) -> (x: Self)
        ensures
            x.value == value,
            x.span == span,
    {
        Self { value, span }
    }

    /// Parses a real number at `offset`.
    pub fn parse(buffer: &[u8], offset: usize) -> (r: Result<Self, ParseErr>)
        requires
            offset <= buffer@.len(),
            buffer@.len() <= usize::MAX,
        ensures
            real_outcome(buffer@, offset as int, r),
            r matches Ok(x) ==> x.span.start == offset && offset < x.span.end <= buffer@.len(),
    {
        let sign: usize = if offset < buffer.len() && (buffer[offset] == 45 || buffer[offset] == 43) {
            1
        } else {
            0
        };
        let a = offset + sign;
        let d = scan_while(buffer, a, ByteClass::Digit);
        let end = if d > a {
            if d < buffer.len() && buffer[d] == 46 {
                scan_while(buffer, d + 1, ByteClass::Digit)
            } else {
                d
            }
        } else {
            if !(a < buffer.len() && buffer[a] == 46) {
                return Err(
                    ParseErr::Recoverable(
                        ParseError::new(
                            slice_subrange(buffer, a, buffer.len()),
                            "Real",
                            ParseErrorCode::NotFound(ErrorKind::Char),
                        ),
                    ),
                );
            }
            let b = scan_while(buffer, a + 1, ByteClass::Digit);
            if b == a + 1 {
                return Err(
                    ParseErr::Recoverable(
                        ParseError::new(
                            slice_subrange(buffer, a + 1, buffer.len()),
                            "Real",
                            ParseErrorCode::NotFound(ErrorKind::Digit),
                        ),
                    ),
                );
            }
            b
        };
        let text = slice_subrange(buffer, offset, end);
        match ascii_to_decimal(text) {
            Some(value) => Ok(Self { value, span: Span { start: offset, end } }),
            None => Err(ParseErr::Failure(ParseError::new(text, "Real", ParseErrorCode::ParseFloatError))),
        }
    }

    pub fn span(&self) -> (span: Span)
        ensures
            span == self.span,
    {
        self.span
    }
}

} // verus!
