use crate::parse::error::ParseErr;
use crate::parse::error::ParseError;
use crate::parse::error::ParseErrorCode;
use crate::parse::error::recoverable;
use crate::parse::has_tag;
use crate::parse::tag_at;
use crate::parse::ErrorKind;
use crate::parse::Span;
use crate::parse::KW_FALSE;
use crate::parse::KW_TRUE;
use vstd::prelude::*;
use vstd::slice::slice_subrange;

verus! {

/// REFERENCE: [7.3.2 Boolean objects, p24]
#[derive(Debug, PartialEq, Eq, Structural, Clone, Copy)]
pub struct Boolean {
    pub value: bool,
    pub span: Span,
}

/// The outcome of reading `true` or `false` at `offset`.
pub open spec fn boolean_outcome(s: Seq<u8>, offset: int, r: Result<Boolean, ParseErr>) -> bool {
    if has_tag(s, offset, KW_TRUE@) {
        r == Ok::<Boolean, ParseErr>(Boolean { value: true, span: Span { start: offset as usize, end: (offset + 4) as usize } })
    } else if has_tag(s, offset, KW_FALSE@) {
        r == Ok::<Boolean, ParseErr>(Boolean { value: false, span: Span { start: offset as usize, end: (offset + 5) as usize } })
    } else {
        recoverable(r, s.skip(offset), "Boolean"@, ParseErrorCode::NotFound(ErrorKind::Tag))
    }
}

impl Boolean {
    pub fn new(value: bool, span: Span) -> (boolean: Self)
        ensures
            boolean.value == value,
            boolean.span == span,
    {
        Self { value, span }
    }

    /// Parses the keyword `true` or `false` at `offset`.
    pub fn parse(buffer: &[u8], offset: usize) -> (r: Result<Self, ParseErr>)
        requires
            offset <= buffer@.len(),
        ensures
            boolean_outcome(buffer@, offset as int, r),
            has_tag(buffer@, offset as int, KW_TRUE@) ==> r == Ok::<Self, ParseErr>(
                Boolean { value: true, span: Span { start: offset, end: (offset + 4) as usize } },
            ),
            !has_tag(buffer@, offset as int, KW_TRUE@) && has_tag(
                buffer@,
                offset as int,
                KW_FALSE@,
            ) ==> r == Ok::<Self, ParseErr>(
                Boolean { value: false, span: Span { start: offset, end: (offset + 5) as usize } },
            ),
            !has_tag(buffer@, offset as int, KW_TRUE@) && !has_tag(
                buffer@,
                offset as int,
                KW_FALSE@,
            ) ==> recoverable(
                r,
                buffer@.skip(offset as int),
                "Boolean"@,
                ParseErrorCode::NotFound(ErrorKind::Tag),
            ),
    {
        assert(KW_TRUE@.len() == 4 && KW_FALSE@.len() == 5);
        if tag_at(buffer, offset, &KW_TRUE) {
            Ok(Self { value: true, span: Span::new(offset, 4) })
        } else if tag_at(buffer, offset, &KW_FALSE) {
            Ok(Self { value: false, span: Span::new(offset, 5) })
        } else {
            Err(
                ParseErr::Recoverable(
                    ParseError::new(
                        slice_subrange(buffer, offset, buffer.len()),
                        "Boolean",
                        ParseErrorCode::NotFound(ErrorKind::Tag),
                    ),
                ),
            )
        }
    }

    pub fn span(&self) -> (span: Span)
        ensures
            span == self.span,
    {
        self.span
    }
}

} // verus!
