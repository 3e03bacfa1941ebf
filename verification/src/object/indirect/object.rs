use super::id::spec_id;
use super::id::id_outcome;
use super::id::Id;
use super::indirect_value_outcome;
use super::stream::no_file_data;
use super::IndirectValue;
use crate::parse::character_set::scan_white_space_or_comment;
use crate::parse::character_set::white_space_or_comment_end;
use crate::parse::error::failure;
use crate::parse::error::recoverable;
use crate::parse::error::ParseErr;
use crate::parse::error::ParseError;
use crate::parse::error::ParseErrorCode;
use crate::parse::has_tag;
use crate::parse::tag_at;
use crate::parse::ErrorKind;
use crate::parse::Span;
use crate::pdf::objects::InUseEntry;
use crate::pdf::objects::InUseObjects;
use crate::pdf::objects::ObjectKey;
use crate::parse::KW_ENDOBJ;
use crate::parse::KW_OBJ;
use vstd::prelude::*;
use vstd::slice::slice_subrange;

verus! {

/// REFERENCE: [7.3.10 Indirect objects, p33]: an identifier, the keyword
/// `obj`, a value, and the keyword `endobj`.
#[derive(Debug, PartialEq)]
pub struct IndirectObject<'buffer> {
    pub id: Id,
    pub value: IndirectValue<'buffer>,
    pub span: Span,
}

/// Where the value of the object whose identifier is `id` starts.
pub open spec fn value_start(s: Seq<u8>, id: Id) -> int {
    white_space_or_comment_end(s, id.span.end + KW_OBJ@.len())
}

/// The data of the stream of the object at `offset` is not in another
/// file.
pub open spec fn object_data_in_buffer(s: Seq<u8>, offset: int) -> bool {
    match spec_id(s, offset) {
        Some(id) => has_tag(s, id.span.end as int, KW_OBJ@) ==> no_file_data(s, value_start(s, id)),
        None => true,
    }
}

/// The outcome of reading an indirect object at `offset`, with the objects
/// in use `m`.
pub open spec fn object_outcome(
    s: Seq<u8>,
    offset: int,
    m: Map<ObjectKey, InUseEntry>,
    r: Result<IndirectObject, ParseErr>,
) -> bool {
    match spec_id(s, offset) {
        None => exists|ie: ParseErr|
            #![trigger id_outcome(s, offset, Err(ie))]
            id_outcome(s, offset, Err(ie)) && recoverable(
                r,
                ie.spec_error().buffer@,
                "Id"@,
                ParseErrorCode::RecNotFound(Box::new(ie.spec_error().code)),
            ),
        Some(id) => if !has_tag(s, id.span.end as int, KW_OBJ@) {
            recoverable(r, s.skip(id.span.end as int), "IndirectObject"@, ParseErrorCode::NotFound(ErrorKind::Tag))
        } else {
            let start = value_start(s, id);
            match r {
                Ok(obj) => {
                    let after = white_space_or_comment_end(s, obj.value.spec_span().end as int);
                    &&& obj.id == id
                    &&& indirect_value_outcome(s, start, m, Ok(obj.value))
                    &&& has_tag(s, after, KW_ENDOBJ@)
                    &&& obj.span == Span {
                        start: offset as usize,
                        end: white_space_or_comment_end(s, after + KW_ENDOBJ@.len()) as usize,
                    }
                },
                Err(_) => {
                    ||| exists|ve: ParseErr|
                        #![trigger indirect_value_outcome(s, start, m, Err(ve))]
                        indirect_value_outcome(s, start, m, Err(ve)) && failure(
                            r,
                            ve.spec_error().buffer@,
                            "IndirectObject"@,
                            ParseErrorCode::RecMissingSubobject("IndirectValue", Box::new(ve.spec_error().code)),
                        )
                    ||| exists|v: IndirectValue|
                        #![trigger indirect_value_outcome(s, start, m, Ok(v))]
                        indirect_value_outcome(s, start, m, Ok(v)) && {
                            let after = white_space_or_comment_end(s, v.spec_span().end as int);
                            &&& !has_tag(s, after, KW_ENDOBJ@)
                            &&& failure(r, s.skip(after), "IndirectObject"@, ParseErrorCode::MissingClosing(ErrorKind::Tag))
                        }
                },
            }
        },
    }
}

impl<'buffer> IndirectObject<'buffer> {
    pub fn new(id: Id, value: IndirectValue<'buffer>, span: Span) -> (obj: Self)
        ensures
            obj.id == id,
            obj.value == value,
            obj.span == span,
    {
        Self { id, value, span }
    }

    pub fn span(&self) -> (span: Span)
        ensures
            span == self.span,
    {
        self.span
    }

    /// Parses an indirect object at `offset`. Once the identifier and `obj`
    /// are read, an error is a failure of the object.
    pub fn parse(buffer: &'buffer [u8], offset: usize, parsed_objects: &InUseObjects<'buffer>) -> (r: Result<
        Self,
        ParseErr<'buffer>,
    >)
        requires
            offset <= buffer@.len(),
            buffer@.len() <= usize::MAX,
            object_data_in_buffer(buffer@, offset as int),
        ensures
            object_outcome(buffer@, offset as int, parsed_objects@, r),
            r matches Ok(obj) ==> obj.span.start == offset && offset < obj.span.end <= buffer@.len(),
    {
        let id = match Id::parse(buffer, offset) {
            Ok(id) => id,
            Err(err) => {
                let b = err.buffer();
                let code = err.code();
                return Err(
                    ParseErr::Recoverable(ParseError::new(b, "Id", ParseErrorCode::RecNotFound(Box::new(code)))),
                );
            },
        };
        let id_end = id.span.end;
        if !tag_at(buffer, id_end, &KW_OBJ) {
            return Err(
                ParseErr::Recoverable(
                    ParseError::new(
                        slice_subrange(buffer, id_end, buffer.len()),
                        "IndirectObject",
                        ParseErrorCode::NotFound(ErrorKind::Tag),
                    ),
                ),
            );
        }
        let start = scan_white_space_or_comment(buffer, id_end + 3);
        let value = match IndirectValue::parse(buffer, start, parsed_objects) {
            Ok(value) => value,
            Err(err) => {
                let b = err.buffer();
                let code = err.code();
                return Err(
                    ParseErr::Failure(
                        ParseError::new(
                            b,
                            "IndirectObject",
                            ParseErrorCode::RecMissingSubobject("IndirectValue", Box::new(code)),
                        ),
                    ),
                );
            },
        };
        let after = scan_white_space_or_comment(buffer, value.span().end);
        if !tag_at(buffer, after, &KW_ENDOBJ) {
            return Err(
                ParseErr::Failure(
                    ParseError::new(
                        slice_subrange(buffer, after, buffer.len()),
                        "IndirectObject",
                        ParseErrorCode::MissingClosing(ErrorKind::Tag),
                    ),
                ),
            );
        }
        let end = scan_white_space_or_comment(buffer, after + 6);
        Ok(Self { id, value, span: Span { start: offset, end } })
    }
}

} // verus!
