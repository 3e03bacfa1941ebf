use crate::parse::character_set::run_end;
use crate::parse::character_set::scan_while;
use crate::parse::character_set::ByteClass;
use crate::parse::error::recoverable;
use crate::parse::error::ParseErr;
use crate::parse::error::ParseError;
use crate::parse::error::ParseErrorCode;
use crate::parse::num::ascii_to_i128;
use crate::parse::num::signed_decimal_value;
use crate::parse::ErrorKind;
use crate::parse::Span;
use vstd::prelude::*;
use vstd::slice::slice_subrange;

verus! {

/// REFERENCE: [7.3.3 Numeric objects, p24]
#[derive(Debug, PartialEq, Eq, Structural, Clone, Copy)]
pub struct Integer {
    pub value: i128,
    pub span: Span,
}

/// The length of the sign at `i` (0 or 1).
pub open spec fn sign_len(s: Seq<u8>, i: int) -> int {
    if 0 <= i < s.len() && (s[i] == 45 || s[i] == 43) {
        1
    } else {
        0
    }
}

/// The end of the optionally signed run of digits at `i`.
pub open spec fn integer_end(s: Seq<u8>, i: int) -> int {
    run_end(s, i + sign_len(s, i), ByteClass::Digit)
}

/// Reading an integer at `offset` gives a recoverable error: no digits, a
/// point after them, or a value out of range.
pub open spec fn integer_recoverable(s: Seq<u8>, offset: int) -> bool {
    let digits = offset + sign_len(s, offset);
    let end = integer_end(s, offset);
    end == digits || (end < s.len() && s[end] == 46) || match signed_decimal_value(s.subrange(offset, end)) {
        Some(v) => !(i128::MIN <= v <= i128::MAX),
        None => true,
    }
}

/// The outcome of reading an integer at `offset`.
pub open spec fn integer_outcome(s: Seq<u8>, offset: int, r: Result<Integer, ParseErr>) -> bool {
            ({
                                let digits = offset + sign_len(s, offset);
                let end = integer_end(s, offset);
                if end == digits {
                    recoverable(
                        r,
                        s.skip(digits),
                        "Integer"@,
                        ParseErrorCode::NotFound(ErrorKind::Digit),
                    )
                } else if end < s.len() && s[end] == 46 {
                    recoverable(r, s.skip(offset), "Integer"@, ParseErrorCode::WrongObjectType)
                } else {
                    match signed_decimal_value(s.subrange(offset, end)) {
                        Some(v) => if i128::MIN <= v <= i128::MAX {
                            r == Ok::<Integer, ParseErr>(
                                Integer {
                                    value: v as i128,
                                    span: Span { start: offset as usize, end: end as usize },
                                },
                            )
                        } else {
                            recoverable(
                                r,
                                s.subrange(offset, end),
                                "Integer"@,
                                ParseErrorCode::ParseIntError,
                            )
                        },
                        None => false,
                    }
                }
            })
}

impl Integer {
    pub fn new(value: i128, span: Span) -> (integer: Self)
        ensures
            integer.value == value,
            integer.span == span,
    {
        Self { value, span }
    }

    /// Parses an optionally signed integer at `offset`. A number followed by
    /// `.` is a real number, not an integer; a number outside the range of
    /// `i128` is reported as recoverable, since it may still be read as a
    /// real number.
    pub fn parse(buffer: &[u8], offset: usize) -> (r: Result<Self, ParseErr>)
        requires
            offset <= buffer@.len(),
        ensures
            integer_outcome(buffer@, offset as int, r),
    {
        let sign: usize = if offset < buffer.len() && (buffer[offset] == 45 || buffer[offset] == 43) {
            1
        } else {
            0
        };
        let digits = offset + sign;
        let end = scan_while(buffer, digits, ByteClass::Digit);
        proof {
            crate::parse::character_set::lemma_run_end_bounds(buffer@, digits as int, ByteClass::Digit);
        }
        if end == digits {
            return Err(
                ParseErr::Recoverable(
                    ParseError::new(
                        slice_subrange(buffer, digits, buffer.len()),
                        "Integer",
                        ParseErrorCode::NotFound(ErrorKind::Digit),
                    ),
                ),
            );
        }
        if end < buffer.len() && buffer[end] == 46 {
            return Err(
                ParseErr::Recoverable(
                    ParseError::new(
                        slice_subrange(buffer, offset, buffer.len()),
                        "Integer",
                        ParseErrorCode::WrongObjectType,
                    ),
                ),
            );
        }
        let text = slice_subrange(buffer, offset, end);
        proof {
            let t = text@;
            assert(t.skip(sign as int) =~= buffer@.subrange(digits as int, end as int));
            assert forall|j: int| 0 <= j < t.skip(sign as int).len() implies crate::parse::num::is_digit(
                #[trigger] t.skip(sign as int)[j],
            ) by {
                assert(t.skip(sign as int)[j] == buffer@[digits + j]);
            }
        }
        match ascii_to_i128(text) {
            Some(value) => Ok(Self { value, span: Span::new(offset, end - offset) }),
            None => Err(
                ParseErr::Recoverable(ParseError::new(text, "Integer", ParseErrorCode::ParseIntError)),
            ),
        }
    }

    pub fn span(&self) -> (span: Span)
        ensures
            span == self.span,
    {
        self.span
    }

    /// The value, if it is a `u64`.
    pub fn as_u64(&self) -> (r: Option<u64>)
        ensures
            r == (if 0 <= self.value <= u64::MAX {
                Some(self.value as u64)
            } else {
                None::<u64>
            }),
    {
        if 0 <= self.value && self.value <= 0xffff_ffff_ffff_ffff {
            Some(self.value as u64)
        } else {
            None
        }
    }

    /// The value, if it is a `usize`.
    pub fn as_usize(&self) -> (r: Option<usize>)
        ensures
            r == (if 0 <= self.value <= usize::MAX {
                Some(self.value as usize)
            } else {
                None::<usize>
            }),
    {
        if 0 <= self.value && self.value <= usize::MAX as i128 {
            Some(self.value as usize)
        } else {
            None
        }
    }
}

} // verus!
