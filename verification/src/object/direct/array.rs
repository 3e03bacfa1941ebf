use super::direct_err;
use super::direct_ok;
use super::direct_outcome;
use super::DirectValue;
use crate::parse::character_set::scan_white_space_or_comment;
use crate::parse::character_set::white_space_or_comment_end;
use crate::parse::error::failure;
use crate::parse::error::recoverable;
use crate::parse::error::ParseErr;
use crate::parse::error::ParseError;
use crate::parse::error::ParseErrorCode;
use crate::parse::ErrorKind;
use crate::parse::Span;
use vstd::prelude::*;
use vstd::slice::slice_subrange;

verus! {

/// REFERENCE: [7.3.6 Array objects, p29]
#[derive(Debug, PartialEq)]
pub struct Array<'buffer> {
    pub array: Vec<DirectValue<'buffer>>,
    pub span: Span,
}

/// Where the `k`th of `items` starts, the first at `start` and each other
/// after the white space and comments that follow the one before.
pub open spec fn item_position(s: Seq<u8>, items: Seq<DirectValue>, start: int, k: int) -> int {
    if k <= 0 {
        start
    } else {
        white_space_or_comment_end(s, items[k - 1].spec_span().end as int)
    }
}

/// `s` holds `]` at `p`.
pub open spec fn closes_array(s: Seq<u8>, p: int) -> bool {
    0 <= p < s.len() && s[p] == 93
}

/// Each of `items` is read where it starts, and no `]` is there.
pub open spec fn items_ok(s: Seq<u8>, items: Seq<DirectValue>, start: int) -> bool {
    forall|k: int|
        #![trigger items[k]]
        0 <= k < items.len() ==> !closes_array(s, item_position(s, items, start, k)) && direct_ok(
            s,
            item_position(s, items, start, k),
            items[k],
        )
}

/// The array `a` is what a parser reads at `offset`: `[`, white space or
/// comments, then values, each followed by white space or comments, up to
/// the first `]` where a value would start.
pub open spec fn array_ok(s: Seq<u8>, offset: int, a: Array) -> bool
    decreases a, a.array@.len() + 1,
{
    let items = a.array@;
    let start = white_space_or_comment_end(s, offset + 1);
    &&& 0 <= offset < s.len() && s[offset] == 91
    &&& a.span.start == offset
    &&& forall|k: int|
        #![trigger items[k]]
        0 <= k < items.len() ==> !closes_array(s, item_position(s, items, start, k)) && direct_ok(
            s,
            item_position(s, items, start, k),
            items[k],
        )
    &&& closes_array(s, item_position(s, items, start, items.len() as int))
    &&& a.span.end == item_position(s, items, start, items.len() as int) + 1
}

/// Adding a value read where the next one starts keeps every value read
/// where it starts.
pub proof fn lemma_items_push(s: Seq<u8>, items: Seq<DirectValue>, pushed: Seq<DirectValue>, start: int)
    requires
        pushed.len() == items.len() + 1,
        forall|k: int| 0 <= k < items.len() ==> pushed[k] == items[k],
        items_ok(s, items, start),
        !closes_array(s, item_position(s, items, start, items.len() as int)),
        direct_ok(s, item_position(s, items, start, items.len() as int), pushed[items.len() as int]),
    ensures
        items_ok(s, pushed, start),
{
    assert forall|k: int| 0 <= k < pushed.len() implies !closes_array(s, item_position(s, pushed, start, k)) && direct_ok(
        s,
        item_position(s, pushed, start, k),
        pushed[k],
    ) by {
        if k < items.len() {
            assert(items[k] == pushed[k]);
        }
        if k > 0 {
            assert(pushed[k - 1] == items[k - 1]);
        }
    }
}

/// The parser fails at `offset` with `e`: after values read where they
/// start, a value cannot be read where the next one starts, and the array's
/// failure carries that value's input and error.
#[verifier::opaque]
pub open spec fn array_err(s: Seq<u8>, offset: int, e: ParseErr) -> bool
    decreases s.len() - offset, 0nat,
{
    let start = white_space_or_comment_end(s, offset + 1);
    exists|items: Seq<DirectValue>, de: ParseErr|
        #![trigger items_ok(s, items, start), de.spec_error()]
        {
            let p = item_position(s, items, start, items.len() as int);
            &&& offset < p <= s.len()
            &&& items_ok(s, items, start)
            &&& !closes_array(s, p)
            &&& direct_err(s, p, de)
            &&& e matches ParseErr::Failure(f) && f.buffer@ == de.spec_error().buffer@ && f.object@ == "Array"@
                && f.code == ParseErrorCode::RecMissingClosing(Box::new(de.spec_error().code))
        }
}

impl<'buffer> Array<'buffer> {
    pub fn new(array: Vec<DirectValue<'buffer>>, span: Span) -> (a: Self)
        ensures
            a.array == array,
            a.span == span,
    {
        Self { array, span }
    }

    pub fn span(&self) -> (span: Span)
        ensures
            span == self.span,
    {
        self.span
    }

    #[verifier::rlimit(60)]
    /// Parses an array at `offset`. Once `[` is read, an error in a value
    /// is a failure of the array.
    pub fn parse(buffer: &'buffer [u8], offset: usize) -> (r: Result<Self, ParseErr<'buffer>>)
        requires
            offset <= buffer@.len(),
            buffer@.len() <= usize::MAX,
        ensures
            !(offset < buffer@.len() && buffer@[offset as int] == 91) ==> recoverable(
                r,
                buffer@.skip(offset as int),
                "Array"@,
                ParseErrorCode::NotFound(ErrorKind::Char),
            ),
            offset < buffer@.len() && buffer@[offset as int] == 91 ==> match r {
                Ok(a) => array_ok(buffer@, offset as int, a),
                Err(e) => array_err(buffer@, offset as int, e),
            },
            offset < buffer@.len() && buffer@[offset as int] == 91 ==> !(r matches Err(ParseErr::Recoverable(_))),
            r matches Ok(a) ==> a.span.start == offset && offset < a.span.end <= buffer@.len(),
        decreases buffer@.len() - offset, 1nat,
    {
        if !(offset < buffer.len() && buffer[offset] == 91) {
            return Err(
                ParseErr::Recoverable(
                    ParseError::new(
                        slice_subrange(buffer, offset, buffer.len()),
                        "Array",
                        ParseErrorCode::NotFound(ErrorKind::Char),
                    ),
                ),
            );
        }
        let ghost s = buffer@;
        let start = scan_white_space_or_comment(buffer, offset + 1);
        let mut p = start;
        let mut values: Vec<DirectValue<'buffer>> = Vec::new();
        loop
            invariant
                offset < start <= p <= buffer@.len(),
                offset < buffer@.len() && buffer@[offset as int] == 91,
                buffer@.len() <= usize::MAX,
                s == buffer@,
                start == white_space_or_comment_end(s, offset + 1),
                p == item_position(s, values@, start as int, values@.len() as int),
                items_ok(s, values@, start as int),
            decreases buffer@.len() - p,
        {
            if p < buffer.len() && buffer[p] == 93 {
                let a = Array { array: values, span: Span { start: offset, end: p + 1 } };
                assert(a.array@ == values@);
                return Ok(a);
            }
            let value = match DirectValue::parse(buffer, p) {
                Ok(value) => value,
                Err(err) => {
                    let ghost de = err;
                    let b = err.buffer();
                    let code = err.code();
                    let e = ParseErr::Failure(
                        ParseError::new(b, "Array", ParseErrorCode::RecMissingClosing(Box::new(code))),
                    );
                    assert(array_err(s, offset as int, e)) by {
                        reveal(array_err);
                        assert(direct_outcome(s, p as int, Err(de)));
                    }
                    return Err(e);
                },
            };
            let end = value.span().end;
            let ghost old_values = values@;
            values.push(value);
            proof {
                lemma_items_push(s, old_values, values@, start as int);
            }
            p = scan_white_space_or_comment(buffer, end);
        }
    }
}

} // verus!
