pub mod character_set;
pub mod error;
pub mod num;

use vstd::prelude::*;

verus! {

pub const KW_TRUE: [u8; 4] = [116, 114, 117, 101];
pub const KW_FALSE: [u8; 5] = [102, 97, 108, 115, 101];
pub const KW_NULL: [u8; 4] = [110, 117, 108, 108];
pub const KW_R: [u8; 1] = [82];
pub const KW_OBJ: [u8; 3] = [111, 98, 106];
pub const KW_ENDOBJ: [u8; 6] = [101, 110, 100, 111, 98, 106];
pub const KW_STREAM: [u8; 6] = [115, 116, 114, 101, 97, 109];
pub const KW_ENDSTREAM: [u8; 9] = [101, 110, 100, 115, 116, 114, 101, 97, 109];

/// `s` holds the bytes of `tag` at `i`.
pub open spec fn has_tag(s: Seq<u8>, i: int, tag: Seq<u8>) -> bool {
    0 <= i && i + tag.len() <= s.len() && s.subrange(i, i + tag.len()) == tag
}

/// Whether `buffer` holds the bytes of `tag` at `offset`.
pub fn tag_at(buffer: &[u8], offset: usize, tag: &[u8]) -> (r: bool)
    requires
        offset <= buffer@.len(),
    ensures
        r == has_tag(buffer@, offset as int, tag@),
        r ==> offset + tag@.len() <= buffer.len(),
{
    if tag.len() > buffer.len() - offset {
        return false;
    }
    let mut i: usize = 0;
    while i < tag.len()
        invariant
            i <= tag@.len(),
            offset + tag@.len() <= buffer.len(),
            forall|j: int| 0 <= j < i ==> buffer@[offset + j] == tag@[j],
        decreases tag@.len() - i,
    {
        if buffer[offset + i] != tag[i] {
            assert(buffer@.subrange(offset as int, offset + tag@.len())[i as int] != tag@[i as int]);
            return false;
        }
        i = i + 1;
    }
    assert(buffer@.subrange(offset as int, offset + tag@.len()) =~= tag@);
    true
}

/// Whether `a` and `b` hold the same bytes.
pub fn bytes_eq(a: &[u8], b: &[u8]) -> (r: bool)
    ensures
        r == (a@ == b@),
{
    if a.len() != b.len() {
        return false;
    }
    let mut i: usize = 0;
    while i < a.len()
        invariant
            i <= a@.len(),
            a@.len() == b@.len(),
            forall|j: int| 0 <= j < i ==> a@[j] == b@[j],
        decreases a@.len() - i,
    {
        if a[i] != b[i] {
            return false;
        }
        i = i + 1;
    }
    assert(a@ =~= b@);
    true
}

/// A half-open range `start..end` of byte offsets into a buffer.
#[derive(Debug, PartialEq, Eq, Structural, Hash, Clone, Copy, PartialOrd, Ord)]
pub struct Span {
    pub start: usize,
    pub end: usize,
}

impl Span {
    /// The span that starts at `start` and covers `len` bytes.
    pub fn new(start: usize, len: usize) -> (span: Self)
        requires
            start + len <= usize::MAX,
        ensures
            span.start == start,
            span.end == start + len,
    {
        Self { start, end: start + len }
    }

    pub fn start(&self) -> (start: usize)
        ensures
            start == self.start,
    {
        self.start
    }

    pub fn end(&self) -> (end: usize)
        ensures
            end == self.end,
    {
        self.end
    }
}

/// The primitive match that failed at the start of an input.
#[derive(Debug, PartialEq, Eq, Structural, Clone, Copy)]
pub enum ErrorKind {
    /// An expected keyword or marker was missing.
    Tag,
    /// An expected single character was missing.
    Char,
    /// At least one decimal digit was expected.
    Digit,
    /// At least one byte of a class was expected.
    TakeWhile1,
    /// More bytes were expected than the input holds.
    Eof,
}

/// A failed primitive match: the input at which it failed, and its kind.
#[derive(Debug, PartialEq, Clone, Copy)]
pub struct MatchError<'a> {
    pub input: &'a [u8],
    pub code: ErrorKind,
}

/// The result of a primitive match: the remaining input and the matched bytes.
pub type MatchResult<'a> = Result<(&'a [u8], &'a [u8]), MatchError<'a>>;

} // verus!
