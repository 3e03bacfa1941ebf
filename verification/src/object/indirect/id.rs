use crate::parse::character_set::run_end;
use crate::parse::character_set::scan_while;
use crate::parse::character_set::scan_white_space_or_comment;
use crate::parse::character_set::white_space_or_comment_end;
use crate::parse::character_set::ByteClass;
use crate::parse::error::recoverable;
use crate::parse::error::ParseErr;
use crate::parse::error::ParseError;
use crate::parse::error::ParseErrorCode;
use crate::parse::num::ascii_to_u16;
use crate::parse::num::ascii_to_u64;
use crate::parse::num::spec_ascii_to_unsigned;
use crate::parse::ErrorKind;
use crate::parse::Span;
use vstd::prelude::*;
use vstd::slice::slice_subrange;

verus! {

/// REFERENCE: [3.33 indirect object, p10]: the object number, which is
/// positive, and the generation number of an indirect object.
#[derive(Debug, PartialEq, Eq, Structural, Hash, Clone, Copy)]
pub struct Id {
    pub object_number: u64,
    pub generation_number: u16,
    pub span: Span,
}

/// The identifier read at `offset`, if the reading succeeds.
pub open spec fn spec_id(s: Seq<u8>, offset: int) -> Option<Id> {
    let d1 = run_end(s, offset, ByteClass::Digit);
    let w1 = white_space_or_comment_end(s, d1);
    let d2 = run_end(s, w1, ByteClass::Digit);
    let w2 = white_space_or_comment_end(s, d2);
    if d1 == offset || w1 == d1 || d2 == w1 || w2 == d2 {
        None
    } else {
        match spec_ascii_to_unsigned(s.subrange(offset, d1), u64::MAX as nat) {
            Some(object_number) if object_number > 0 => match spec_ascii_to_unsigned(
                s.subrange(w1, d2),
                u16::MAX as nat,
            ) {
                Some(generation_number) => Some(
                    Id {
                        object_number: object_number as u64,
                        generation_number: generation_number as u16,
                        span: Span { start: offset as usize, end: w2 as usize },
                    },
                ),
                None => None,
            },
            _ => None,
        }
    }
}

/// The outcome of reading an object identifier at `offset`: two numbers,
/// each followed by white space or comments.
pub open spec fn id_outcome(s: Seq<u8>, offset: int, r: Result<Id, ParseErr>) -> bool {
    let d1 = run_end(s, offset, ByteClass::Digit);
    let w1 = white_space_or_comment_end(s, d1);
    let d2 = run_end(s, w1, ByteClass::Digit);
    let w2 = white_space_or_comment_end(s, d2);
    if d1 == offset {
        recoverable(r, s.skip(offset), "Id"@, ParseErrorCode::NotFound(ErrorKind::Digit))
    } else if w1 == d1 {
        recoverable(r, s.skip(d1), "Id"@, ParseErrorCode::NotFound(ErrorKind::Char))
    } else if d2 == w1 {
        recoverable(r, s.skip(w1), "Id"@, ParseErrorCode::NotFound(ErrorKind::Digit))
    } else if w2 == d2 {
        recoverable(r, s.skip(d2), "Id"@, ParseErrorCode::NotFound(ErrorKind::Char))
    } else {
        match spec_ascii_to_unsigned(s.subrange(offset, d1), u64::MAX as nat) {
            Some(object_number) if object_number > 0 => match spec_ascii_to_unsigned(
                s.subrange(w1, d2),
                u16::MAX as nat,
            ) {
                Some(generation_number) => r == Ok::<Id, ParseErr>(
                    Id {
                        object_number: object_number as u64,
                        generation_number: generation_number as u16,
                        span: Span { start: offset as usize, end: w2 as usize },
                    },
                ),
                None => recoverable(r, s.subrange(w1, d2), "Id"@, ParseErrorCode::GenerationNumber),
            },
            _ => recoverable(r, s.subrange(offset, d1), "Id"@, ParseErrorCode::ObjectNumber),
        }
    }
}

fn id_not_found(buffer: &[u8], at: usize, kind: ErrorKind) -> (r: Result<Id, ParseErr>)
    requires
        at <= buffer@.len(),
    ensures
        recoverable(r, buffer@.skip(at as int), "Id"@, ParseErrorCode::NotFound(kind)),
{
    Err(
        ParseErr::Recoverable(
            ParseError::new(slice_subrange(buffer, at, buffer.len()), "Id", ParseErrorCode::NotFound(kind)),
        ),
    )
}

impl Id {
    pub fn new(object_number: u64, generation_number: u16, span: Span) -> (id: Self)
        requires
            object_number > 0,
        ensures
            id.object_number == object_number,
            id.generation_number == generation_number,
            id.span == span,
    {
        Self { object_number, generation_number, span }
    }

    /// Parses an object identifier at `offset`.
    pub fn parse(buffer: &[u8], offset: usize) -> (r: Result<Self, ParseErr>)
        requires
            offset <= buffer@.len(),
        ensures
            id_outcome(buffer@, offset as int, r),
            match r {
                Ok(id) => spec_id(buffer@, offset as int) == Some(id),
                Err(_) => spec_id(buffer@, offset as int) is None,
            },
            r matches Ok(id) ==> id.object_number > 0 && id.span.start == offset && offset < id.span.end <= buffer@.len(),
    {
        let d1 = scan_while(buffer, offset, ByteClass::Digit);
        if d1 == offset {
            return id_not_found(buffer, offset, ErrorKind::Digit);
        }
        let w1 = scan_white_space_or_comment(buffer, d1);
        if w1 == d1 {
            return id_not_found(buffer, d1, ErrorKind::Char);
        }
        let d2 = scan_while(buffer, w1, ByteClass::Digit);
        if d2 == w1 {
            return id_not_found(buffer, w1, ErrorKind::Digit);
        }
        let w2 = scan_white_space_or_comment(buffer, d2);
        if w2 == d2 {
            return id_not_found(buffer, d2, ErrorKind::Char);
        }
        let object_text = slice_subrange(buffer, offset, d1);
        let object_number = match ascii_to_u64(object_text) {
            Some(n) if n > 0 => n,
            _ => {
                return Err(
                    ParseErr::Recoverable(ParseError::new(object_text, "Id", ParseErrorCode::ObjectNumber)),
                );
            },
        };
        let generation_text = slice_subrange(buffer, w1, d2);
        let generation_number = match ascii_to_u16(generation_text) {
            Some(n) => n,
            None => {
                return Err(
                    ParseErr::Recoverable(
                        ParseError::new(generation_text, "Id", ParseErrorCode::GenerationNumber),
                    ),
                );
            },
        };
        Ok(Self { object_number, generation_number, span: Span { start: offset, end: w2 } })
    }

    pub fn span(&self) -> (span: Span)
        ensures
            span == self.span,
    {
        self.span
    }
}

} // verus!
