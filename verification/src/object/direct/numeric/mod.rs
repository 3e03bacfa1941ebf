pub mod integer;
pub mod real_number;

use self::integer::integer_outcome;
use self::integer::integer_recoverable;
use self::integer::Integer;
use self::real_number::real_outcome;
use self::real_number::real_recoverable;
use self::real_number::Real;
use crate::parse::error::recoverable;
use crate::parse::error::ParseErr;
use crate::parse::error::ParseError;
use crate::parse::error::ParseErrorCode;
use crate::parse::Span;
use vstd::prelude::*;
use vstd::slice::slice_subrange;

verus! {

/// REFERENCE: [7.3.3 Numeric objects, p24]
#[derive(Debug, PartialEq, Eq, Structural, Clone, Copy)]
pub enum Numeric {
    Integer(Integer),
    Real(Real),
}

/// The outcome of reading a number at `offset`: an integer, or else a real
/// number.
pub open spec fn numeric_outcome(s: Seq<u8>, offset: int, r: Result<Numeric, ParseErr>) -> bool {
    if !integer_recoverable(s, offset) {
        r matches Ok(Numeric::Integer(i)) && integer_outcome(s, offset, Ok(i))
    } else if !real_recoverable(s, offset) {
        match r {
            Ok(Numeric::Real(x)) => real_outcome(s, offset, Ok(x)),
            Ok(Numeric::Integer(_)) => false,
            Err(e) => real_outcome(s, offset, Err(e)),
        }
    } else {
        recoverable(r, s.skip(offset), "Numeric"@, ParseErrorCode::NotFoundUnion)
    }
}

/// Reading a number at `offset` gives a recoverable error.
pub open spec fn numeric_recoverable(s: Seq<u8>, offset: int) -> bool {
    integer_recoverable(s, offset) && real_recoverable(s, offset)
}

impl Numeric {
    /// Parses an integer or, failing that, a real number at `offset`.
    pub fn parse(buffer: &[u8], offset: usize) -> (r: Result<Self, ParseErr>)
        requires
            offset <= buffer@.len(),
            buffer@.len() <= usize::MAX,
        ensures
            numeric_outcome(buffer@, offset as int, r),
            r matches Ok(n) ==> n.spec_span().start == offset && offset < n.spec_span().end <= buffer@.len(),
    {
        let ri = Integer::parse(buffer, offset);
        let rr = Real::parse(buffer, offset);
        proof {
            lemma_integer_span(buffer@, offset as int, ri);
        }
        match ri {
            Ok(i) => Ok(Numeric::Integer(i)),
            Err(ParseErr::Failure(e)) => Err(ParseErr::Failure(e)),
            Err(ParseErr::Recoverable(_)) => match rr {
                Ok(x) => Ok(Numeric::Real(x)),
                Err(ParseErr::Failure(e)) => Err(ParseErr::Failure(e)),
                Err(ParseErr::Recoverable(_)) => Err(
                    ParseErr::Recoverable(
                        ParseError::new(
                            slice_subrange(buffer, offset, buffer.len()),
                            "Numeric",
                            ParseErrorCode::NotFoundUnion,
                        ),
                    ),
                ),
            },
        }
    }

    pub open spec fn spec_span(self) -> Span {
        match self {
            Numeric::Integer(i) => i.span,
            Numeric::Real(x) => x.span,
        }
    }

    pub fn span(&self) -> (span: Span)
        ensures
            span == self.spec_span(),
    {
        match self {
            Numeric::Integer(i) => i.span,
            Numeric::Real(x) => x.span,
        }
    }

    pub fn as_integer(&self) -> (r: Option<&Integer>)
        ensures
            r == (match self {
                Numeric::Integer(i) => Some(i),
                Numeric::Real(_) => None::<&Integer>,
            }),
    {
        match self {
            Numeric::Integer(i) => Some(i),
            Numeric::Real(_) => None,
        }
    }
}

proof fn lemma_integer_span(s: Seq<u8>, offset: int, r: Result<Integer, ParseErr>)
    requires
        0 <= offset <= s.len(),
        s.len() <= usize::MAX,
        integer_outcome(s, offset, r),
    ensures
        r matches Ok(i) ==> i.span.start == offset && offset < i.span.end <= s.len(),
{
    crate::parse::character_set::lemma_run_end_bounds(s, offset + integer::sign_len(s, offset), crate::parse::character_set::ByteClass::Digit);
}

} // verus!
