use super::id::id_outcome;
use super::id::spec_id;
use super::id::Id;
use crate::parse::error::recoverable;
use crate::parse::error::ParseErr;
use crate::parse::error::ParseError;
use crate::parse::error::ParseErrorCode;
use crate::parse::has_tag;
use crate::parse::tag_at;
use crate::parse::ErrorKind;
use crate::parse::Span;
use crate::parse::KW_R;
use vstd::prelude::*;
use vstd::slice::slice_subrange;

verus! {

/// REFERENCE: [7.3.10 Indirect Objects, p33]: a reference to an indirect
/// object by its identifier, followed by the keyword `R`.
#[derive(Debug, PartialEq, Eq, Structural, Clone, Copy)]
pub struct Reference {
    pub id: Id,
    pub span: Span,
}

/// A reference is read at `offset` as `rf`.
pub open spec fn reference_ok(s: Seq<u8>, offset: int, rf: Reference) -> bool {
    &&& spec_id(s, offset) == Some(rf.id)
    &&& has_tag(s, rf.id.span.end as int, KW_R@)
    &&& rf.span == Span { start: offset as usize, end: (rf.id.span.end + 1) as usize }
}

/// Reading a reference at `offset` gives a recoverable error.
pub open spec fn reference_recoverable(s: Seq<u8>, offset: int) -> bool {
    match spec_id(s, offset) {
        None => true,
        Some(id) => !has_tag(s, id.span.end as int, KW_R@),
    }
}

impl Reference {
    pub fn new(id: Id, span: Span) -> (reference: Self)
        ensures
            reference.id == id,
            reference.span == span,
    {
        Self { id, span }
    }

    /// Parses a reference at `offset`. An identifier that is not followed
    /// by `R` may be two integers, so every error here is recoverable.
    pub fn parse(buffer: &[u8], offset: usize) -> (r: Result<Self, ParseErr>)
        requires
            offset <= buffer@.len(),
        ensures
            match r {
                Ok(rf) => reference_ok(buffer@, offset as int, rf) && rf.span.start == offset && offset < rf.span.end <= buffer@.len(),
                Err(e) => reference_recoverable(buffer@, offset as int) && e is Recoverable,
            },
            forall|id_r: Result<Id, ParseErr>| #[trigger] id_outcome(buffer@, offset as int, id_r) ==> match id_r {
                Err(ParseErr::Recoverable(e)) => recoverable(
                    r,
                    e.buffer@,
                    "Reference"@,
                    ParseErrorCode::RecNotFound(Box::new(e.code)),
                ),
                Err(ParseErr::Failure(_)) => false,
                Ok(id) => if has_tag(buffer@, id.span.end as int, KW_R@) {
                    r == Ok::<Reference, ParseErr>(
                        Reference { id, span: Span { start: offset, end: (id.span.end + 1) as usize } },
                    )
                } else {
                    recoverable(
                        r,
                        buffer@.skip(id.span.end as int),
                        "Reference"@,
                        ParseErrorCode::NotFound(ErrorKind::Tag),
                    )
                },
            },
    {
        let id = match Id::parse(buffer, offset) {
            Ok(id) => id,
            Err(err) => {
                let b = err.buffer();
                let code = err.code();
                return Err(
                    ParseErr::Recoverable(
                        ParseError::new(b, "Reference", ParseErrorCode::RecNotFound(Box::new(code))),
                    ),
                );
            },
        };
        let end = id.span.end;
        if !tag_at(buffer, end, &KW_R) {
            return Err(
                ParseErr::Recoverable(
                    ParseError::new(
                        slice_subrange(buffer, end, buffer.len()),
                        "Reference",
                        ParseErrorCode::NotFound(ErrorKind::Tag),
                    ),
                ),
            );
        }
        Ok(Self { id, span: Span { start: offset, end: end + 1 } })
    }

    pub fn span(&self) -> (span: Span)
        ensures
            span == self.span,
    {
        self.span
    }
}

} // verus!
