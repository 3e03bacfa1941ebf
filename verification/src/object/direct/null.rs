use crate::parse::error::recoverable;
use crate::parse::error::ParseErr;
use crate::parse::error::ParseError;
use crate::parse::error::ParseErrorCode;
use crate::parse::has_tag;
use crate::parse::tag_at;
use crate::parse::ErrorKind;
use crate::parse::Span;
use crate::parse::KW_NULL;
use vstd::prelude::*;
use vstd::slice::slice_subrange;

verus! {

/// REFERENCE: [7.3.9 Null object, p33]
#[derive(Debug, PartialEq, Eq, Structural, Clone, Copy)]
pub struct Null {
    pub span: Span,
}

/// The outcome of reading `null` at `offset`.
pub open spec fn null_outcome(s: Seq<u8>, offset: int, r: Result<Null, ParseErr>) -> bool {
    if has_tag(s, offset, KW_NULL@) {
        r == Ok::<Null, ParseErr>(Null { span: Span { start: offset as usize, end: (offset + 4) as usize } })
    } else {
        recoverable(r, s.skip(offset), "Null"@, ParseErrorCode::NotFound(ErrorKind::Tag))
    }
}

impl Null {
    pub fn new(span: Span) -> (null: Self)
        ensures
            null.span == span,
    {
        Self { span }
    }

    /// Parses the keyword `null` at `offset`.
    pub fn parse(buffer: &[u8], offset: usize) -> (r: Result<Self, ParseErr>)
        requires
            offset <= buffer@.len(),
        ensures
            null_outcome(buffer@, offset as int, r),
            has_tag(buffer@, offset as int, KW_NULL@) ==> r == Ok::<Self, ParseErr>(
                Null { span: Span { start: offset, end: (offset + 4) as usize } },
            ),
            !has_tag(buffer@, offset as int, KW_NULL@) ==> recoverable(
                r,
                buffer@.skip(offset as int),
                "Null"@,
                ParseErrorCode::NotFound(ErrorKind::Tag),
            ),
    {
        assert(KW_NULL@.len() == 4);
        if tag_at(buffer, offset, &KW_NULL) {
            Ok(Self { span: Span::new(offset, 4) })
        } else {
            Err(
                ParseErr::Recoverable(
                    ParseError::new(
                        slice_subrange(buffer, offset, buffer.len()),
                        "Null",
                        ParseErrorCode::NotFound(ErrorKind::Tag),
                    ),
                ),
            )
        }
    }

    pub fn span(&self) -> (span: Span)
        ensures
            span == self.span,
    {
        self.span
    }
}

} // verus!
