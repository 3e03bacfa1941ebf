pub mod array;
pub mod boolean;
pub mod dictionary;
pub mod name;
pub mod null;
pub mod numeric;
pub mod string;

use self::array::array_err;
use self::array::array_ok;
use self::array::Array;
use self::boolean::boolean_outcome;
use self::boolean::Boolean;
use self::dictionary::dictionary_err;
use self::dictionary::dictionary_ok;
use self::dictionary::Dictionary;
use self::name::name_outcome;
use self::name::Name;
use self::null::null_outcome;
use self::null::Null;
use self::numeric::integer::Integer;
use self::numeric::numeric_outcome;
use self::numeric::numeric_recoverable;
use self::numeric::Numeric;
use self::string::string_outcome;
use self::string::String_;
use crate::object::indirect::reference::reference_ok;
use crate::object::indirect::reference::reference_recoverable;
use crate::object::indirect::reference::Reference;
use crate::parse::error::recoverable;
use crate::parse::error::ParseErr;
use crate::parse::error::ParseError;
use crate::parse::error::ParseErrorCode;
use crate::parse::has_tag;
use crate::parse::Span;
use crate::parse::KW_FALSE;
use crate::parse::KW_NULL;
use crate::parse::KW_TRUE;
use vstd::prelude::*;
use vstd::slice::slice_subrange;

verus! {

/// The opening of a dictionary, `<<`.
pub const DICTIONARY_OPEN: [u8; 2] = [60, 60];
/// The closing of a dictionary, `>>`.
pub const DICTIONARY_CLOSE: [u8; 2] = [62, 62];

/// REFERENCE: [7.3 Objects, p24]: a direct object, or a reference, which can
/// stand for one in most places.
#[derive(Debug, PartialEq)]
pub enum DirectValue<'buffer> {
    Reference(Reference),
    Array(Array<'buffer>),
    Boolean(Boolean),
    Dictionary(Dictionary<'buffer>),
    Name(Name<'buffer>),
    Null(Null),
    Numeric(Numeric),
    String(String_<'buffer>),
}

/// The kinds of direct values, in the order in which a parser tries them.
/// Before `n`, every kind gives a recoverable error at `offset`.
pub open spec fn kinds_recoverable(s: Seq<u8>, offset: int, n: nat) -> bool {
    &&& n > 0 ==> reference_recoverable(s, offset)
    &&& n > 1 ==> !has_tag(s, offset, KW_NULL@)
    &&& n > 2 ==> !has_tag(s, offset, KW_TRUE@) && !has_tag(s, offset, KW_FALSE@)
    &&& n > 3 ==> numeric_recoverable(s, offset)
    &&& n > 4 ==> !(offset < s.len() && s[offset] == 47)
    &&& n > 5 ==> !(offset < s.len() && s[offset] == 91)
    &&& n > 6 ==> !has_tag(s, offset, DICTIONARY_OPEN@)
    &&& n > 7 ==> !(offset < s.len() && (s[offset] == 40 || s[offset] == 60))
}

/// The value `v` is what a parser reads at `offset`.
#[verifier::opaque]
pub open spec fn direct_ok(s: Seq<u8>, offset: int, v: DirectValue) -> bool
    decreases v, 0nat,
{
    match v {
        DirectValue::Reference(rf) => reference_ok(s, offset, rf),
        DirectValue::Null(n) => kinds_recoverable(s, offset, 1) && null_outcome(s, offset, Ok(n)),
        DirectValue::Boolean(b) => kinds_recoverable(s, offset, 2) && boolean_outcome(s, offset, Ok(b)),
        DirectValue::Numeric(x) => kinds_recoverable(s, offset, 3) && numeric_outcome(s, offset, Ok(x)),
        DirectValue::Name(n) => kinds_recoverable(s, offset, 4) && name_outcome(s, offset, Ok(n)),
        DirectValue::Array(a) => kinds_recoverable(s, offset, 5) && array_ok(s, offset, a),
        DirectValue::Dictionary(d) => kinds_recoverable(s, offset, 6) && dictionary_ok(s, offset, d),
        DirectValue::String(st) => kinds_recoverable(s, offset, 7) && string_outcome(s, offset, Ok(st)),
    }
}

/// The error `e` is the one that a parser gives at `offset`: that of the
/// first kind of value that the bytes there start, or, when none does, a
/// recoverable error.
pub open spec fn direct_err(s: Seq<u8>, offset: int, e: ParseErr) -> bool
    decreases s.len() - offset, 1nat,
{
    if !kinds_recoverable(s, offset, 3) {
        false
    } else if !kinds_recoverable(s, offset, 4) {
        numeric_outcome(s, offset, Err(e))
    } else if !kinds_recoverable(s, offset, 5) {
        false
    } else if !kinds_recoverable(s, offset, 6) {
        array_err(s, offset, e)
    } else if !kinds_recoverable(s, offset, 7) {
        dictionary_err(s, offset, e)
    } else if !kinds_recoverable(s, offset, 8) {
        string_outcome(s, offset, Err(e))
    } else {
        recoverable(Err::<DirectValue, ParseErr>(e), s.skip(offset), "DirectValue"@, ParseErrorCode::NotFoundUnion)
    }
}

/// The outcome of reading a direct value at `offset`.
pub open spec fn direct_outcome(s: Seq<u8>, offset: int, r: Result<DirectValue, ParseErr>) -> bool {
    match r {
        Ok(v) => direct_ok(s, offset, v),
        Err(e) => direct_err(s, offset, e),
    }
}

impl<'buffer> DirectValue<'buffer> {
    pub open spec fn spec_span(&self) -> Span {
        match self {
            DirectValue::Reference(v) => v.span,
            DirectValue::Array(v) => v.span,
            DirectValue::Boolean(v) => v.span,
            DirectValue::Dictionary(v) => v.span,
            DirectValue::Name(v) => v.span,
            DirectValue::Null(v) => v.span,
            DirectValue::Numeric(v) => v.spec_span(),
            DirectValue::String(v) => v.spec_span(),
        }
    }

    pub fn span(&self) -> (span: Span)
        ensures
            span == self.spec_span(),
    {
        match self {
            DirectValue::Reference(v) => v.span,
            DirectValue::Array(v) => v.span,
            DirectValue::Boolean(v) => v.span,
            DirectValue::Dictionary(v) => v.span,
            DirectValue::Name(v) => v.span,
            DirectValue::Null(v) => v.span,
            DirectValue::Numeric(v) => v.span(),
            DirectValue::String(v) => v.span(),
        }
    }

    /// Parses a direct value at `offset`: the first kind of value that does
    /// not give a recoverable error.
    pub fn parse(buffer: &'buffer [u8], offset: usize) -> (r: Result<Self, ParseErr<'buffer>>)
        requires
            offset <= buffer@.len(),
            buffer@.len() <= usize::MAX,
        ensures
            direct_outcome(buffer@, offset as int, r),
            r matches Ok(v) ==> v.spec_span().start == offset && offset < v.spec_span().end <= buffer@.len(),
        decreases buffer@.len() - offset, 2nat,
    {
        reveal(direct_ok);
        match Reference::parse(buffer, offset) {
            Ok(v) => return Ok(DirectValue::Reference(v)),
            Err(_) => {},
        }
        match Null::parse(buffer, offset) {
            Ok(v) => return Ok(DirectValue::Null(v)),
            Err(_) => {},
        }
        match Boolean::parse(buffer, offset) {
            Ok(v) => return Ok(DirectValue::Boolean(v)),
            Err(_) => {},
        }
        match Numeric::parse(buffer, offset) {
            Ok(v) => return Ok(DirectValue::Numeric(v)),
            Err(ParseErr::Failure(e)) => return Err(ParseErr::Failure(e)),
            Err(ParseErr::Recoverable(_)) => {},
        }
        match Name::parse(buffer, offset) {
            Ok(v) => return Ok(DirectValue::Name(v)),
            Err(_) => {},
        }
        match Array::parse(buffer, offset) {
            Ok(v) => return Ok(DirectValue::Array(v)),
            Err(ParseErr::Failure(e)) => return Err(ParseErr::Failure(e)),
            Err(ParseErr::Recoverable(_)) => {},
        }
        match Dictionary::parse(buffer, offset) {
            Ok(v) => return Ok(DirectValue::Dictionary(v)),
            Err(ParseErr::Failure(e)) => return Err(ParseErr::Failure(e)),
            Err(ParseErr::Recoverable(_)) => {},
        }
        match String_::parse(buffer, offset) {
            Ok(v) => return Ok(DirectValue::String(v)),
            Err(ParseErr::Failure(e)) => return Err(ParseErr::Failure(e)),
            Err(ParseErr::Recoverable(_)) => {},
        }
        Err(
            ParseErr::Recoverable(
                ParseError::new(
                    slice_subrange(buffer, offset, buffer.len()),
                    "DirectValue",
                    ParseErrorCode::NotFoundUnion,
                ),
            ),
        )
    }

    pub fn as_reference(&self) -> (r: Option<&Reference>)
        ensures
            r == (match self {
                DirectValue::Reference(v) => Some(v),
                _ => None::<&Reference>,
            }),
    {
        match self {
            DirectValue::Reference(v) => Some(v),
            _ => None,
        }
    }

    pub fn as_array(&self) -> (r: Option<&Array<'buffer>>)
        ensures
            r == (match self {
                DirectValue::Array(v) => Some(v),
                _ => None::<&Array>,
            }),
    {
        match self {
            DirectValue::Array(v) => Some(v),
            _ => None,
        }
    }

    pub fn as_boolean(&self) -> (r: Option<&Boolean>)
        ensures
            r == (match self {
                DirectValue::Boolean(v) => Some(v),
                _ => None::<&Boolean>,
            }),
    {
        match self {
            DirectValue::Boolean(v) => Some(v),
            _ => None,
        }
    }

    pub fn as_dictionary(&self) -> (r: Option<&Dictionary<'buffer>>)
        ensures
            r == (match self {
                DirectValue::Dictionary(v) => Some(v),
                _ => None::<&Dictionary>,
            }),
    {
        match self {
            DirectValue::Dictionary(v) => Some(v),
            _ => None,
        }
    }

    pub fn as_name(&self) -> (r: Option<&Name<'buffer>>)
        ensures
            r == (match self {
                DirectValue::Name(v) => Some(v),
                _ => None::<&Name>,
            }),
    {
        match self {
            DirectValue::Name(v) => Some(v),
            _ => None,
        }
    }

    pub fn as_null(&self) -> (r: Option<&Null>)
        ensures
            r == (match self {
                DirectValue::Null(v) => Some(v),
                _ => None::<&Null>,
            }),
    {
        match self {
            DirectValue::Null(v) => Some(v),
            _ => None,
        }
    }

    pub fn as_numeric(&self) -> (r: Option<&Numeric>)
        ensures
            r == (match self {
                DirectValue::Numeric(v) => Some(v),
                _ => None::<&Numeric>,
            }),
    {
        match self {
            DirectValue::Numeric(v) => Some(v),
            _ => None,
        }
    }

    pub fn as_string(&self) -> (r: Option<&String_<'buffer>>)
        ensures
            r == (match self {
                DirectValue::String(v) => Some(v),
                _ => None::<&String_>,
            }),
    {
        match self {
            DirectValue::String(v) => Some(v),
            _ => None,
        }
    }

    /// The integer that the value is, if it is one that fits a `u64`.
    pub open spec fn spec_as_u64(&self) -> Option<u64> {
        match self {
            DirectValue::Numeric(Numeric::Integer(i)) => if 0 <= i.value <= u64::MAX {
                Some(i.value as u64)
            } else {
                None
            },
            _ => None,
        }
    }

    /// The integer that the value is, if it is one that fits a `usize`.
    pub open spec fn spec_as_usize(&self) -> Option<usize> {
        match self {
            DirectValue::Numeric(Numeric::Integer(i)) => if 0 <= i.value <= usize::MAX {
                Some(i.value as usize)
            } else {
                None
            },
            _ => None,
        }
    }

    pub fn as_u64(&self) -> (r: Option<u64>)
        ensures
            r == self.spec_as_u64(),
    {
        match self {
            DirectValue::Numeric(Numeric::Integer(i)) => i.as_u64(),
            _ => None,
        }
    }

    pub fn as_usize(&self) -> (r: Option<usize>)
        ensures
            r == self.spec_as_usize(),
    {
        match self {
            DirectValue::Numeric(Numeric::Integer(i)) => i.as_usize(),
            _ => None,
        }
    }
}

} // verus!
