pub mod id;
pub mod object;
pub mod reference;
pub mod stream;

use self::stream::no_file_data;
use self::stream::stream_outcome;
use self::stream::Stream;
use crate::object::direct::direct_err;
use crate::object::direct::direct_ok;
use crate::object::direct::DirectValue;
use crate::parse::error::recoverable;
use crate::parse::error::ParseErr;
use crate::parse::error::ParseError;
use crate::parse::error::ParseErrorCode;
use crate::parse::Span;
use crate::pdf::objects::InUseEntry;
use crate::pdf::objects::InUseObjects;
use crate::pdf::objects::ObjectKey;
use vstd::prelude::*;
use vstd::slice::slice_subrange;

verus! {

/// REFERENCE: [7.3.8 Stream objects, p31]: the value of an indirect object,
/// which may be a stream.
#[derive(Debug, PartialEq)]
pub enum IndirectValue<'buffer> {
    Stream(Stream<'buffer>),
    Direct(DirectValue<'buffer>),
}

/// Reading a stream at `offset` gives a recoverable error.
pub open spec fn stream_recoverable(s: Seq<u8>, offset: int, m: Map<ObjectKey, InUseEntry>) -> bool {
    exists|e: ParseError| #[trigger] stream_outcome(s, offset, m, Err(ParseErr::Recoverable(e)))
}

/// The outcome of reading the value of an indirect object at `offset`, with
/// the objects in use `m`: a stream, or else a direct value.
pub open spec fn indirect_value_outcome(
    s: Seq<u8>,
    offset: int,
    m: Map<ObjectKey, InUseEntry>,
    r: Result<IndirectValue, ParseErr>,
) -> bool {
    match r {
        Ok(IndirectValue::Stream(st)) => stream_outcome(s, offset, m, Ok(st)),
        Ok(IndirectValue::Direct(v)) => stream_recoverable(s, offset, m) && direct_ok(s, offset, v),
        Err(ParseErr::Failure(e)) => stream_outcome(s, offset, m, Err(ParseErr::Failure(e))) || (stream_recoverable(
            s,
            offset,
            m,
        ) && direct_err(s, offset, ParseErr::Failure(e))),
        Err(ParseErr::Recoverable(e)) => stream_recoverable(s, offset, m) && (exists|d: ParseError| #[trigger] direct_err(s, offset, ParseErr::Recoverable(d)))
            && recoverable(r, s.skip(offset), "IndirectValue"@, ParseErrorCode::NotFoundUnion),
    }
}

impl<'buffer> IndirectValue<'buffer> {
    pub open spec fn spec_span(&self) -> Span {
        match self {
            IndirectValue::Stream(st) => st.span,
            IndirectValue::Direct(v) => v.spec_span(),
        }
    }

    pub fn span(&self) -> (span: Span)
        ensures
            span == self.spec_span(),
    {
        match self {
            IndirectValue::Stream(st) => st.span,
            IndirectValue::Direct(v) => v.span(),
        }
    }

    /// Parses a stream or, failing that, a direct value at `offset`.
    pub fn parse(buffer: &'buffer [u8], offset: usize, parsed_objects: &InUseObjects<'buffer>) -> (r: Result<
        Self,
        ParseErr<'buffer>,
    >)
        requires
            offset <= buffer@.len(),
            buffer@.len() <= usize::MAX,
            no_file_data(buffer@, offset as int),
        ensures
            indirect_value_outcome(buffer@, offset as int, parsed_objects@, r),
            r matches Ok(v) ==> v.spec_span().start == offset && offset < v.spec_span().end <= buffer@.len(),
    {
        match Stream::parse(buffer, offset, parsed_objects) {
            Ok(st) => Ok(IndirectValue::Stream(st)),
            Err(ParseErr::Failure(e)) => Err(ParseErr::Failure(e)),
            Err(ParseErr::Recoverable(se)) => {
                assert(stream_recoverable(buffer@, offset as int, parsed_objects@));
                match DirectValue::parse(buffer, offset) {
                    Ok(v) => Ok(IndirectValue::Direct(v)),
                    Err(ParseErr::Failure(e)) => Err(ParseErr::Failure(e)),
                    Err(ParseErr::Recoverable(de)) => {
                        assert(direct_err(buffer@, offset as int, ParseErr::Recoverable(de)));
                        Err(
                            ParseErr::Recoverable(
                                ParseError::new(
                                    slice_subrange(buffer, offset, buffer.len()),
                                    "IndirectValue",
                                    ParseErrorCode::NotFoundUnion,
                                ),
                            ),
                        )
                    },
                }
            },
        }
    }

    pub fn as_stream(&self) -> (r: Option<&Stream<'buffer>>)
        ensures
            r == (match self {
                IndirectValue::Stream(st) => Some(st),
                _ => None::<&Stream>,
            }),
    {
        match self {
            IndirectValue::Stream(st) => Some(st),
            _ => None,
        }
    }

    pub fn as_direct(&self) -> (r: Option<&DirectValue<'buffer>>)
        ensures
            r == (match self {
                IndirectValue::Direct(v) => Some(v),
                _ => None::<&DirectValue>,
            }),
    {
        match self {
            IndirectValue::Direct(v) => Some(v),
            _ => None,
        }
    }
}

} // verus!
