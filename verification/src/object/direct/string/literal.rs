use crate::parse::error::failure;
use crate::parse::error::recoverable;
use crate::parse::error::ParseErr;
use crate::parse::error::ParseError;
use crate::parse::error::ParseErrorCode;
use crate::parse::ErrorKind;
use crate::parse::Span;
use crate::process::escape::error::EscapeErr;
use crate::parse::bytes_eq;
use vstd::std_specs::cmp::PartialEqSpecImpl;
use vstd::prelude::*;
use vstd::slice::slice_subrange;

verus! {

/// REFERENCE: [7.3.4.2 Literal strings, p25-28]. The value holds the bytes
/// between the outer parentheses, with their escape sequences unresolved.
#[derive(Debug, Clone, Copy)]
pub struct Literal<'buffer> {
    pub value: &'buffer [u8],
    pub span: Span,
}

/// The end of the bytes at `i` that hold no unescaped parenthesis: any byte
/// but `\`, `(` and `)`, or `\` and the byte after it.
pub open spec fn not_parentheses_end(s: Seq<u8>, i: int) -> int
    decreases s.len() - i,
{
    if 0 <= i < s.len() {
        if s[i] == 92 {
            if i + 1 < s.len() {
                not_parentheses_end(s, i + 2)
            } else {
                i
            }
        } else if s[i] == 40 || s[i] == 41 {
            i
        } else {
            not_parentheses_end(s, i + 1)
        }
    } else {
        i
    }
}

pub proof fn lemma_not_parentheses_end_bounds(s: Seq<u8>, i: int)
    requires
        0 <= i <= s.len(),
    ensures
        i <= not_parentheses_end(s, i) <= s.len(),
    decreases s.len() - i,
{
    if i < s.len() {
        if s[i] == 92 {
            if i + 1 < s.len() {
                lemma_not_parentheses_end_bounds(s, i + 2);
            }
        } else if !(s[i] == 40 || s[i] == 41) {
            lemma_not_parentheses_end_bounds(s, i + 1);
        }
    }
}

/// The end of the content at `i` of a literal string or of a group in it:
/// bytes without unescaped parentheses and balanced groups `(...)`. A group
/// that is never closed ends the content at its `(`.
pub open spec fn literal_content_end(s: Seq<u8>, i: int) -> int
    decreases s.len() - i, 1int,
{
    if 0 <= i <= s.len() {
        proof {
            lemma_not_parentheses_end_bounds(s, i);
        }
        let j = not_parentheses_end(s, i);
        if j < s.len() && s[j] == 40 {
            match literal_group_end(s, j) {
                Some(k) => if j < k <= s.len() {
                    literal_content_end(s, k)
                } else {
                    j
                },
                None => j,
            }
        } else {
            j
        }
    } else {
        i
    }
}

/// The content of a literal string never ends before it starts.
pub proof fn lemma_literal_content_end_bounds(s: Seq<u8>, i: int)
    requires
        0 <= i <= s.len(),
    ensures
        i <= literal_content_end(s, i) <= s.len(),
    decreases s.len() - i,
{
    lemma_not_parentheses_end_bounds(s, i);
    let j = not_parentheses_end(s, i);
    if j < s.len() && s[j] == 40 {
        match literal_group_end(s, j) {
            Some(k) => if j < k <= s.len() {
                lemma_literal_content_end_bounds(s, k);
            },
            None => {},
        }
    }
}

/// The end of the group whose `(` is at `i`, if the group is closed.
pub open spec fn literal_group_end(s: Seq<u8>, i: int) -> Option<int>
    decreases s.len() - i, 0int,
{
    if 0 <= i < s.len() {
        let j = literal_content_end(s, i + 1);
        if 0 <= j < s.len() && s[j] == 41 {
            Some(j + 1)
        } else {
            None
        }
    } else {
        None
    }
}

fn scan_not_parentheses(buffer: &[u8], offset: usize) -> (end: usize)
    requires
        offset <= buffer@.len(),
    ensures
        end == not_parentheses_end(buffer@, offset as int),
        offset <= end <= buffer@.len(),
{
    proof {
        lemma_not_parentheses_end_bounds(buffer@, offset as int);
    }
    let mut i = offset;
    while i < buffer.len()
        invariant
            offset <= i <= buffer@.len(),
            not_parentheses_end(buffer@, i as int) == not_parentheses_end(buffer@, offset as int),
        decreases buffer@.len() - i,
    {
        let byte = buffer[i];
        if byte == 92 {
            if i + 1 < buffer.len() {
                i = i + 2;
            } else {
                return i;
            }
        } else if byte == 40 || byte == 41 {
            return i;
        } else {
            i = i + 1;
        }
    }
    i
}

/// Splits `buffer` after its first bytes that hold no unescaped
/// parenthesis: the rest, and those bytes.
pub fn not_parentheses(buffer: &[u8]) -> (r: (&[u8], &[u8]))
    ensures
        r.1@ == buffer@.take(not_parentheses_end(buffer@, 0)),
        r.0@ == buffer@.skip(not_parentheses_end(buffer@, 0)),
{
    let end = scan_not_parentheses(buffer, 0);
    (slice_subrange(buffer, end, buffer.len()), slice_subrange(buffer, 0, end))
}

fn scan_literal_content(buffer: &[u8], offset: usize) -> (end: usize)
    requires
        offset <= buffer@.len(),
    ensures
        end == literal_content_end(buffer@, offset as int),
        offset <= end <= buffer@.len(),
    decreases buffer@.len() - offset, 1int,
{
    let mut i = offset;
    loop
        invariant
            offset <= i <= buffer@.len(),
            literal_content_end(buffer@, i as int) == literal_content_end(buffer@, offset as int),
        decreases buffer@.len() - i,
    {
        let j = scan_not_parentheses(buffer, i);
        if j < buffer.len() && buffer[j] == 40 {
            match scan_literal_group(buffer, j) {
                Some(k) => {
                    if j < k && k <= buffer.len() {
                        i = k;
                    } else {
                        return j;
                    }
                },
                None => {
                    return j;
                },
            }
        } else {
            return j;
        }
    }
}

fn scan_literal_group(buffer: &[u8], offset: usize) -> (end: Option<usize>)
    requires
        offset < buffer.len(),
    ensures
        end == (match literal_group_end(buffer@, offset as int) {
            Some(k) => Some(k as usize),
            None => None::<usize>,
        }),
    decreases buffer@.len() - offset, 0int,
{
    let j = scan_literal_content(buffer, offset + 1);
    if j < buffer.len() && buffer[j] == 41 {
        Some(j + 1)
    } else {
        None
    }
}

/// What the escape resolution of a literal string has seen of the current
/// sequence.
#[derive(Debug, PartialEq, Eq, Structural, Clone, Copy)]
pub enum LiteralPrev {
    Solidus,
    Cr,
    Octal { digits: u8, value: u8 },
    Other,
}

/// Appends the octal digit `digit` to `octal`, unless the value would exceed
/// a byte.
pub open spec fn spec_extend_octal(octal: u8, digit: u8) -> Option<u8> {
    if octal >= 32 {
        None
    } else {
        Some((octal * 8 + digit) as u8)
    }
}

/// REFERENCE: [7.3.4.2 Literal strings, p25-26] and [Table 3 — Escape
/// sequences in literal strings]: one step of the escape resolution.
pub open spec fn literal_escape_step(prev: LiteralPrev, byte: u8) -> (LiteralPrev, Seq<u8>) {
    let is_octal = 48 <= byte <= 55;
    match prev {
        LiteralPrev::Solidus => if byte == 92 {
            (LiteralPrev::Other, seq![92u8])
        } else if byte == 110 {
            (LiteralPrev::Other, seq![10u8])
        } else if byte == 114 {
            (LiteralPrev::Other, seq![13u8])
        } else if byte == 116 {
            (LiteralPrev::Other, seq![9u8])
        } else if byte == 98 {
            (LiteralPrev::Other, seq![8u8])
        } else if byte == 102 {
            (LiteralPrev::Other, seq![12u8])
        } else if byte == 40 {
            (LiteralPrev::Other, seq![40u8])
        } else if byte == 41 {
            (LiteralPrev::Other, seq![41u8])
        } else if byte == 13 {
            // \CR is removed, and so is an LF after it
            (LiteralPrev::Cr, Seq::empty())
        } else if byte == 10 {
            // \LF is removed
            (LiteralPrev::Other, Seq::empty())
        } else if is_octal {
            (LiteralPrev::Octal { digits: 1, value: (byte - 48) as u8 }, Seq::empty())
        } else {
            // An unsupported escape: the reverse solidus is ignored
            (LiteralPrev::Other, seq![byte])
        },
        LiteralPrev::Cr => if byte == 92 {
            (LiteralPrev::Solidus, Seq::empty())
        } else if byte == 13 {
            (LiteralPrev::Cr, seq![10u8])
        } else if byte == 10 {
            // CRLF is one end-of-line marker
            (LiteralPrev::Other, Seq::empty())
        } else {
            (LiteralPrev::Other, seq![byte])
        },
        LiteralPrev::Octal { digits, value } => if byte == 92 {
            (LiteralPrev::Solidus, seq![value])
        } else if byte == 13 {
            (LiteralPrev::Cr, seq![value, 10u8])
        } else if is_octal {
            match spec_extend_octal(value, (byte - 48) as u8) {
                Some(extended) => if digits == 1 || digits == 2 {
                    (LiteralPrev::Octal { digits: (digits + 1) as u8, value: extended }, Seq::empty())
                } else {
                    (LiteralPrev::Other, seq![value, byte])
                },
                None => (LiteralPrev::Other, seq![value, byte]),
            }
        } else {
            (LiteralPrev::Other, seq![value, byte])
        },
        LiteralPrev::Other => if byte == 92 {
            (LiteralPrev::Solidus, Seq::empty())
        } else if byte == 13 {
            // An end-of-line marker becomes a line feed
            (LiteralPrev::Cr, seq![10u8])
        } else {
            (LiteralPrev::Other, seq![byte])
        },
    }
}

/// The state and output of the escape resolution after the bytes of `s`.
pub open spec fn literal_escape_fold(s: Seq<u8>) -> (LiteralPrev, Seq<u8>)
    decreases s.len(),
{
    if s.len() == 0 {
        (LiteralPrev::Other, Seq::empty())
    } else {
        let (prev, out) = literal_escape_fold(s.drop_last());
        let (next, more) = literal_escape_step(prev, s.last());
        (next, out + more)
    }
}

/// The bytes that a literal string's value stands for.
pub open spec fn spec_literal_escape(s: Seq<u8>) -> Seq<u8> {
    match literal_escape_fold(s) {
        (LiteralPrev::Octal { value, .. }, out) => out.push(value),
        (_, out) => out,
    }
}

/// Appends the octal digit `digit` to `octal`, unless the value would exceed
/// a byte.
pub fn extend_octal(octal: u8, digit: u8) -> (r: Option<u8>)
    requires
        digit <= 7,
    ensures
        r == spec_extend_octal(octal, digit),
{
    if octal >= 32 {
        return None;
    }
    Some(octal * 8 + digit)
}

/// The outcome of reading a literal string at `offset`.
pub open spec fn literal_outcome(s: Seq<u8>, offset: int, r: Result<Literal, ParseErr>) -> bool {
    let end = literal_content_end(s, offset + 1);
    if !(offset < s.len() && s[offset] == 40) {
        recoverable(r, s.skip(offset), "Literal"@, ParseErrorCode::NotFound(ErrorKind::Char))
    } else if end < s.len() && s[end] == 41 {
        r matches Ok(literal) && literal.value@ == s.subrange(offset + 1, end)
            && literal.span == Span { start: offset as usize, end: (end + 1) as usize }
    } else {
        failure(r, s.skip(end), "Literal"@, ParseErrorCode::MissingClosing(ErrorKind::Char))
    }
}

impl<'buffer> Literal<'buffer> {
    pub fn new(value: &'buffer [u8], span: Span) -> (literal: Self)
        ensures
            literal.value == value,
            literal.span == span,
    {
        Self { value, span }
    }

    /// Parses a literal string at `offset`. Once the opening `(` is found, a
    /// missing closing `)` is a failure.
    pub fn parse(buffer: &'buffer [u8], offset: usize) -> (r: Result<Self, ParseErr<'buffer>>)
        requires
            offset <= buffer@.len(),
        ensures
            literal_outcome(buffer@, offset as int, r),
            ({
                let s = buffer@;
                let end = literal_content_end(s, offset + 1);
                if !(offset < s.len() && s[offset as int] == 40) {
                    recoverable(r, s.skip(offset as int), "Literal"@, ParseErrorCode::NotFound(ErrorKind::Char))
                } else if end < s.len() && s[end] == 41 {
                    r matches Ok(literal) && literal.value@ == s.subrange(offset + 1, end)
                        && literal.span == Span { start: offset, end: (end + 1) as usize }
                } else {
                    failure(r, s.skip(end), "Literal"@, ParseErrorCode::MissingClosing(ErrorKind::Char))
                }
            }),
    {
        if !(offset < buffer.len() && buffer[offset] == 40) {
            return Err(
                ParseErr::Recoverable(
                    ParseError::new(
                        slice_subrange(buffer, offset, buffer.len()),
                        "Literal",
                        ParseErrorCode::NotFound(ErrorKind::Char),
                    ),
                ),
            );
        }
        let end = scan_literal_content(buffer, offset + 1);
        if end < buffer.len() && buffer[end] == 41 {
            Ok(Self { value: slice_subrange(buffer, offset + 1, end), span: Span::new(offset, end + 1 - offset) })
        } else {
            Err(
                ParseErr::Failure(
                    ParseError::new(
                        slice_subrange(buffer, end, buffer.len()),
                        "Literal",
                        ParseErrorCode::MissingClosing(ErrorKind::Char),
                    ),
                ),
            )
        }
    }

    pub fn span(&self) -> (span: Span)
        ensures
            span == self.span,
    {
        self.span
    }

    /// REFERENCE: [7.3.4.2 Literal strings, p25-26]: resolves the escape
    /// sequences and end-of-line markers of the string.
    pub fn escape(&self) -> (r: Result<Vec<u8>, EscapeErr<'buffer>>)
        ensures
            r matches Ok(v) && v@ == spec_literal_escape(self.value@),
    {
        let value = self.value;
        let mut escaped: Vec<u8> = Vec::new();
        let mut prev = LiteralPrev::Other;
        let mut i: usize = 0;
        assert(value@.take(0) =~= Seq::<u8>::empty());
        while i < value.len()
            invariant
                i <= value@.len(),
                literal_escape_fold(value@.take(i as int)) == (prev, escaped@),
            decreases value@.len() - i,
        {
            let byte = value[i];
            assert(value@.take(i + 1).drop_last() =~= value@.take(i as int));
            let ghost old = escaped@;
            let ghost expected = literal_escape_step(prev, byte);
            let is_octal = 48 <= byte && byte <= 55;
            match prev {
                LiteralPrev::Solidus => {
                    if byte == 92 {
                        escaped.push(92);
                        prev = LiteralPrev::Other;
                    } else if byte == 110 {
                        escaped.push(10);
                        prev = LiteralPrev::Other;
                    } else if byte == 114 {
                        escaped.push(13);
                        prev = LiteralPrev::Other;
                    } else if byte == 116 {
                        escaped.push(9);
                        prev = LiteralPrev::Other;
                    } else if byte == 98 {
                        escaped.push(8);
                        prev = LiteralPrev::Other;
                    } else if byte == 102 {
                        escaped.push(12);
                        prev = LiteralPrev::Other;
                    } else if byte == 40 {
                        escaped.push(40);
                        prev = LiteralPrev::Other;
                    } else if byte == 41 {
                        escaped.push(41);
                        prev = LiteralPrev::Other;
                    } else if byte == 13 {
                        prev = LiteralPrev::Cr;
                    } else if byte == 10 {
                        prev = LiteralPrev::Other;
                    } else if is_octal {
                        prev = LiteralPrev::Octal { digits: 1, value: byte - 48 };
                    } else {
                        escaped.push(byte);
                        prev = LiteralPrev::Other;
                    }
                },
                LiteralPrev::Cr => {
                    if byte == 92 {
                        prev = LiteralPrev::Solidus;
                    } else if byte == 13 {
                        escaped.push(10);
                        prev = LiteralPrev::Cr;
                    } else if byte == 10 {
                        prev = LiteralPrev::Other;
                    } else {
                        escaped.push(byte);
                        prev = LiteralPrev::Other;
                    }
                },
                LiteralPrev::Octal { digits, value: octal } => {
                    if byte == 92 {
                        escaped.push(octal);
                        prev = LiteralPrev::Solidus;
                    } else if byte == 13 {
                        escaped.push(octal);
                        escaped.push(10);
                        prev = LiteralPrev::Cr;
                    } else if is_octal {
                        match extend_octal(octal, byte - 48) {
                            Some(extended) => {
                                if digits == 1 || digits == 2 {
                                    prev = LiteralPrev::Octal { digits: digits + 1, value: extended };
                                } else {
                                    escaped.push(octal);
                                    escaped.push(byte);
                                    prev = LiteralPrev::Other;
                                }
                            },
                            None => {
                                escaped.push(octal);
                                escaped.push(byte);
                                prev = LiteralPrev::Other;
                            },
                        }
                    } else {
                        escaped.push(octal);
                        escaped.push(byte);
                        prev = LiteralPrev::Other;
                    }
                },
                LiteralPrev::Other => {
                    if byte == 92 {
                        prev = LiteralPrev::Solidus;
                    } else if byte == 13 {
                        escaped.push(10);
                        prev = LiteralPrev::Cr;
                    } else {
                        escaped.push(byte);
                        prev = LiteralPrev::Other;
                    }
                },
            }
            assert(escaped@ =~= old + expected.1);
            assert(prev == expected.0);
            i = i + 1;
        }
        assert(value@.take(value@.len() as int) =~= value@);
        if let LiteralPrev::Octal { value: octal, .. } = prev {
            escaped.push(octal);
        }
        Ok(escaped)
    }
}

impl<'buffer> PartialEq for Literal<'buffer> {
    fn eq(&self, other: &Self) -> (r: bool) {
        match (self.escape(), other.escape()) {
            (Ok(a), Ok(b)) => bytes_eq(a.as_slice(), b.as_slice()) && self.span == other.span,
            _ => false,
        }
    }
}

impl<'buffer> PartialEqSpecImpl for Literal<'buffer> {
    open spec fn obeys_eq_spec() -> bool {
        true
    }

    open spec fn eq_spec(&self, other: &Self) -> bool {
        spec_literal_escape(self.value@) == spec_literal_escape(other.value@) && self.span == other.span
    }
}

/// The bytes of `s` hold no reverse solidus and no carriage return: no
/// escape sequence and no end-of-line marker to resolve.
pub open spec fn plain_literal_text(s: Seq<u8>) -> bool {
    forall|i: int| 0 <= i < s.len() ==> #[trigger] s[i] != 92 && s[i] != 13
}

/// Bytes with nothing to resolve, read after a finished sequence, are kept.
proof fn lemma_literal_fold_plain(p: Seq<u8>, t: Seq<u8>)
    requires
        literal_escape_fold(p).0 == LiteralPrev::Other,
        plain_literal_text(t),
    ensures
        literal_escape_fold(p + t) == (LiteralPrev::Other, literal_escape_fold(p).1 + t),
    decreases t.len(),
{
    if t.len() == 0 {
        assert(p + t =~= p);
        assert(literal_escape_fold(p).1 + t =~= literal_escape_fold(p).1);
    } else {
        let u = t.drop_last();
        assert(plain_literal_text(u)) by {
            assert forall|i: int| 0 <= i < u.len() implies #[trigger] u[i] != 92 && u[i] != 13 by {
                assert(u[i] == t[i]);
            }
        }
        lemma_literal_fold_plain(p, u);
        assert((p + t).drop_last() =~= p + u);
        assert((p + t).last() == t.last());
        assert(t.last() == t[t.len() - 1]);
        assert(literal_escape_fold(p).1 + u + seq![t.last()] =~= literal_escape_fold(p).1 + t);
    }
}

/// REFERENCE: [7.3.4.2 Literal strings, p25-26] and [Table 3 — Escape
/// sequences in literal strings]: text with no reverse solidus and no
/// carriage return stands for itself, and each escape sequence of Table 3
/// between such texts stands for its one byte: `\n` a line feed, `\r` a
/// carriage return, `\t` a tab, `\b` a backspace, `\f` a form feed, and
/// `\(`, `\)` and `\\` the character after the reverse solidus.
pub proof fn lemma_literal_escape_sequences(s1: Seq<u8>, s2: Seq<u8>)
    requires
        plain_literal_text(s1),
        plain_literal_text(s2),
    ensures
        spec_literal_escape(s1) == s1,
        spec_literal_escape(s1 + seq![92u8, 110u8] + s2) == s1 + seq![10u8] + s2,
        spec_literal_escape(s1 + seq![92u8, 114u8] + s2) == s1 + seq![13u8] + s2,
        spec_literal_escape(s1 + seq![92u8, 116u8] + s2) == s1 + seq![9u8] + s2,
        spec_literal_escape(s1 + seq![92u8, 98u8] + s2) == s1 + seq![8u8] + s2,
        spec_literal_escape(s1 + seq![92u8, 102u8] + s2) == s1 + seq![12u8] + s2,
        spec_literal_escape(s1 + seq![92u8, 40u8] + s2) == s1 + seq![40u8] + s2,
        spec_literal_escape(s1 + seq![92u8, 41u8] + s2) == s1 + seq![41u8] + s2,
        spec_literal_escape(s1 + seq![92u8, 92u8] + s2) == s1 + seq![92u8] + s2,
{
    lemma_literal_plain_text(s1);
    lemma_literal_one_escape(s1, s2, 110, 10);
    lemma_literal_one_escape(s1, s2, 114, 13);
    lemma_literal_one_escape(s1, s2, 116, 9);
    lemma_literal_one_escape(s1, s2, 98, 8);
    lemma_literal_one_escape(s1, s2, 102, 12);
    lemma_literal_one_escape(s1, s2, 40, 40);
    lemma_literal_one_escape(s1, s2, 41, 41);
    lemma_literal_one_escape(s1, s2, 92, 92);
}

/// Text with nothing to resolve is read to the end with no sequence open.
proof fn lemma_literal_plain_text(s1: Seq<u8>)
    requires
        plain_literal_text(s1),
    ensures
        literal_escape_fold(s1) == (LiteralPrev::Other, s1),
        spec_literal_escape(s1) == s1,
{
    let empty = Seq::<u8>::empty();
    assert(literal_escape_fold(empty) == (LiteralPrev::Other, empty));
    lemma_literal_fold_plain(empty, s1);
    assert(empty + s1 =~= s1);
}

/// The escape of `c`, one of Table 3, between texts with nothing to resolve.
proof fn lemma_literal_one_escape(s1: Seq<u8>, s2: Seq<u8>, c: u8, b: u8)
    requires
        plain_literal_text(s1),
        plain_literal_text(s2),
        (c == 110 && b == 10) || (c == 114 && b == 13) || (c == 116 && b == 9) || (c == 98 && b == 8) || (c == 102
            && b == 12) || ((c == 40 || c == 41 || c == 92) && b == c),
    ensures
        spec_literal_escape(s1 + seq![92u8, c] + s2) == s1 + seq![b] + s2,
{
    lemma_literal_plain_text(s1);
    let w = s1.push(92u8);
    assert(w.drop_last() =~= s1);
    assert(s1 + Seq::<u8>::empty() =~= s1);
    assert(literal_escape_fold(w) == (LiteralPrev::Solidus, s1));
    let e = w.push(c);
    assert(e.drop_last() =~= w);
    assert(literal_escape_fold(e) == (LiteralPrev::Other, s1 + seq![b]));
    lemma_literal_fold_plain(e, s2);
    assert(s1 + seq![92u8, c] + s2 =~= e + s2);
}

/// REFERENCE: [Table 3 — Escape sequences in literal strings]: between texts
/// with nothing to resolve, `\ddd` with three octal digits, the first at
/// most 3, stands for the byte of that octal value.
pub proof fn lemma_literal_octal_escape(s1: Seq<u8>, s2: Seq<u8>, d1: u8, d2: u8, d3: u8)
    requires
        plain_literal_text(s1),
        plain_literal_text(s2),
        48 <= d1 <= 51,
        48 <= d2 <= 55,
        48 <= d3 <= 55,
    ensures
        spec_literal_escape(s1 + seq![92u8, d1, d2, d3] + s2) == s1 + seq![
            ((d1 - 48) * 64 + (d2 - 48) * 8 + (d3 - 48)) as u8,
        ] + s2,
{
    let v = ((d1 - 48) * 64 + (d2 - 48) * 8 + (d3 - 48)) as u8;
    lemma_literal_plain_text(s1);
    let w = s1.push(92u8);
    assert(w.drop_last() =~= s1);
    assert(s1 + Seq::<u8>::empty() =~= s1);
    let w1 = w.push(d1);
    assert(w1.drop_last() =~= w);
    let w2 = w1.push(d2);
    assert(w2.drop_last() =~= w1);
    let w3 = w2.push(d3);
    assert(w3.drop_last() =~= w2);
    let o1 = (d1 - 48) as u8;
    let o2 = (o1 * 8 + (d2 - 48) as u8) as u8;
    assert(o1 < 4 && o2 < 32);
    assert(literal_escape_fold(w) == (LiteralPrev::Solidus, s1));
    assert(literal_escape_fold(w1) == (LiteralPrev::Octal { digits: 1, value: o1 }, s1));
    assert(spec_extend_octal(o1, (d2 - 48) as u8) == Some(o2));
    assert(literal_escape_fold(w2) == (LiteralPrev::Octal { digits: 2, value: o2 }, s1));
    assert(spec_extend_octal(o2, (d3 - 48) as u8) == Some(v));
    assert(literal_escape_fold(w3) == (LiteralPrev::Octal { digits: 3, value: v }, s1));
    assert(s1 + seq![92u8, d1, d2, d3] =~= w3);
    if s2.len() == 0 {
        assert(s1 + seq![92u8, d1, d2, d3] + s2 =~= w3);
        assert(s1 + seq![v] + s2 =~= s1.push(v));
    } else {
        let b = s2[0];
        assert(b != 92 && b != 13);
        let w4 = w3.push(b);
        assert(w4.drop_last() =~= w3);
        assert(literal_escape_fold(w4) == (LiteralPrev::Other, s1 + seq![v, b]));
        let rest = s2.skip(1);
        assert(plain_literal_text(rest)) by {
            assert forall|i: int| 0 <= i < rest.len() implies #[trigger] rest[i] != 92 && rest[i] != 13 by {
                assert(rest[i] == s2[i + 1]);
            }
        }
        lemma_literal_fold_plain(w4, rest);
        assert(s1 + seq![92u8, d1, d2, d3] + s2 =~= w4 + rest);
        assert(s1 + seq![v, b] + rest =~= s1 + seq![v] + s2);
    }
}

/// The bytes `mid`, read after text with nothing to resolve, close every
/// sequence that they open and give `res`: then text with nothing to resolve
/// may follow them unchanged.
proof fn lemma_literal_between(s1: Seq<u8>, mid: Seq<u8>, s2: Seq<u8>, res: Seq<u8>)
    requires
        plain_literal_text(s2),
        literal_escape_fold(s1 + mid) == (LiteralPrev::Other, s1 + res),
    ensures
        spec_literal_escape(s1 + mid + s2) == s1 + res + s2,
{
    lemma_literal_fold_plain(s1 + mid, s2);
}

/// REFERENCE: [7.3.4.2 Literal strings, p26]: between texts with nothing to
/// resolve, a reverse solidus before an end-of-line marker (LF or CR LF) is
/// dropped with the marker, an end-of-line marker CR LF reads as one line
/// feed, and a reverse solidus before a byte that starts no escape sequence
/// is dropped, the byte kept.
pub proof fn lemma_literal_line_breaks(s1: Seq<u8>, s2: Seq<u8>, c: u8)
    requires
        plain_literal_text(s1),
        plain_literal_text(s2),
        c != 92 && c != 110 && c != 114 && c != 116 && c != 98 && c != 102 && c != 40 && c != 41,
        c != 10 && c != 13,
        !(48 <= c <= 55),
    ensures
        spec_literal_escape(s1 + seq![92u8, 10u8] + s2) == s1 + s2,
        spec_literal_escape(s1 + seq![92u8, 13u8, 10u8] + s2) == s1 + s2,
        spec_literal_escape(s1 + seq![13u8, 10u8] + s2) == s1 + seq![10u8] + s2,
        spec_literal_escape(s1 + seq![92u8, c] + s2) == s1 + seq![c] + s2,
{
    lemma_literal_plain_text(s1);
    let empty = Seq::<u8>::empty();
    assert(s1 + empty =~= s1);
    let w = s1.push(92u8);
    assert(w.drop_last() =~= s1);
    assert(literal_escape_fold(w) == (LiteralPrev::Solidus, s1));
    // a reverse solidus and a line feed
    let a = w.push(10u8);
    assert(a.drop_last() =~= w);
    assert(literal_escape_fold(a) == (LiteralPrev::Other, s1 + empty));
    assert(s1 + seq![92u8, 10u8] =~= a);
    lemma_literal_between(s1, seq![92u8, 10u8], s2, empty);
    assert(s1 + empty + s2 =~= s1 + s2);
    // a reverse solidus, a carriage return and a line feed
    let b1 = w.push(13u8);
    assert(b1.drop_last() =~= w);
    assert(literal_escape_fold(b1) == (LiteralPrev::Cr, s1 + empty));
    let b = b1.push(10u8);
    assert(b.drop_last() =~= b1);
    assert(literal_escape_fold(b) == (LiteralPrev::Other, s1 + empty + empty));
    assert(s1 + seq![92u8, 13u8, 10u8] =~= b);
    assert(s1 + empty + empty =~= s1 + empty);
    lemma_literal_between(s1, seq![92u8, 13u8, 10u8], s2, empty);
    // a carriage return and a line feed
    let e1 = s1.push(13u8);
    assert(e1.drop_last() =~= s1);
    assert(literal_escape_fold(e1) == (LiteralPrev::Cr, s1 + seq![10u8]));
    let e = e1.push(10u8);
    assert(e.drop_last() =~= e1);
    assert(literal_escape_fold(e) == (LiteralPrev::Other, s1 + seq![10u8] + empty));
    assert(s1 + seq![10u8] + empty =~= s1 + seq![10u8]);
    assert(s1 + seq![13u8, 10u8] =~= e);
    lemma_literal_between(s1, seq![13u8, 10u8], s2, seq![10u8]);
    // a reverse solidus before a byte that starts no escape sequence
    let f = w.push(c);
    assert(f.drop_last() =~= w);
    assert(literal_escape_fold(f) == (LiteralPrev::Other, s1 + seq![c]));
    assert(s1 + seq![92u8, c] =~= f);
    lemma_literal_between(s1, seq![92u8, c], s2, seq![c]);
}

} // verus!
