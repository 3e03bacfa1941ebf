use super::ErrorKind;
use super::MatchError;
use super::MatchResult;
use vstd::prelude::*;
use vstd::slice::slice_subrange;

verus! {

/// REFERENCE: [Table 1 — White-space characters, 7.2.3, p22]
pub open spec fn spec_is_white_space(byte: u8) -> bool {
    byte == 0x09 || byte == 0x0A || byte == 0x0C || byte == 0x0D || byte == 0x20 || byte == 0x00
}

/// REFERENCE: [7.2.3 Character set, p22]
pub open spec fn spec_is_delimiter(byte: u8) -> bool {
    byte == 40 || byte == 41 || byte == 60 || byte == 62 || byte == 91 || byte == 93 || byte
        == 123 || byte == 125 || byte == 47 || byte == 37
}

/// Regular characters are neither white-space characters nor delimiters.
pub open spec fn spec_is_regular(byte: u8) -> bool {
    !spec_is_white_space(byte) && !spec_is_delimiter(byte)
}

/// Regular characters that are also printable ASCII (0x21..=0x7E).
pub open spec fn spec_is_printable_regular(byte: u8) -> bool {
    spec_is_regular(byte) && 0x21 <= byte <= 0x7E
}

/// The bytes that may precede an end-of-line marker: TAB, FF, SPACE and NUL.
pub open spec fn spec_is_eol_padding(byte: u8) -> bool {
    byte == 0x09 || byte == 0x0C || byte == 0x20 || byte == 0x00
}

/// Classes of bytes that runs are made of.
#[derive(Debug, PartialEq, Eq, Structural, Clone, Copy)]
pub enum ByteClass {
    WhiteSpace,
    Delimiter,
    PrintableRegular,
    EolPadding,
    NotEol,
    Digit,
    HexDigit,
}

impl ByteClass {
    pub open spec fn spec_holds(self, byte: u8) -> bool {
        match self {
            ByteClass::WhiteSpace => spec_is_white_space(byte),
            ByteClass::Delimiter => spec_is_delimiter(byte),
            ByteClass::PrintableRegular => spec_is_printable_regular(byte),
            ByteClass::EolPadding => spec_is_eol_padding(byte),
            ByteClass::NotEol => byte != 0x0A && byte != 0x0D,
            ByteClass::Digit => 48 <= byte <= 57,
            ByteClass::HexDigit => (48 <= byte <= 57) || (65 <= byte <= 70) || (97 <= byte <= 102),
        }
    }

    pub fn holds(&self, byte: u8) -> (r: bool)
        ensures
            r == self.spec_holds(byte),
    {
        match self {
            ByteClass::WhiteSpace => is_white_space(byte),
            ByteClass::Delimiter => is_delimiter(byte),
            ByteClass::PrintableRegular => is_printable_regular(byte),
            ByteClass::EolPadding => byte == 0x09 || byte == 0x0C || byte == 0x20 || byte == 0x00,
            ByteClass::NotEol => byte != 0x0A && byte != 0x0D,
            ByteClass::Digit => 48 <= byte && byte <= 57,
            ByteClass::HexDigit => (48 <= byte && byte <= 57) || (65 <= byte && byte <= 70) || (97
                <= byte && byte <= 102),
        }
    }
}

/// The end of the longest run of bytes of `class` in `s` that starts at `i`.
pub open spec fn run_end(s: Seq<u8>, i: int, class: ByteClass) -> int
    decreases s.len() - i,
{
    if 0 <= i < s.len() && class.spec_holds(s[i]) {
        run_end(s, i + 1, class)
    } else {
        i
    }
}

/// The end of the longest sequence of white-space characters and comments in
/// `s` that starts at `i`; a comment runs from `%` to the next end-of-line
/// marker, which it does not include.
pub open spec fn white_space_or_comment_end(s: Seq<u8>, i: int) -> int
    decreases s.len() - i, 1int,
{
    if 0 <= i < s.len() && spec_is_white_space(s[i]) {
        white_space_or_comment_end(s, i + 1)
    } else if 0 <= i < s.len() && s[i] == 37 {
        proof {
            lemma_run_end_bounds(s, i + 1, ByteClass::NotEol);
        }
        white_space_or_comment_end(s, run_end(s, i + 1, ByteClass::NotEol))
    } else {
        i
    }
}

/// The length of the end-of-line marker at `i`, if there is one.
pub open spec fn eol_marker_len(s: Seq<u8>, i: int) -> int {
    if 0 <= i && i + 1 < s.len() && s[i] == 0x0D && s[i + 1] == 0x0A {
        2
    } else if 0 <= i < s.len() && (s[i] == 0x0A || s[i] == 0x0D) {
        1
    } else {
        0
    }
}

pub proof fn lemma_run_end_bounds(s: Seq<u8>, i: int, class: ByteClass)
    requires
        0 <= i <= s.len(),
    ensures
        i <= run_end(s, i, class) <= s.len(),
        forall|j: int| i <= j < run_end(s, i, class) ==> class.spec_holds(#[trigger] s[j]),
        run_end(s, i, class) < s.len() ==> !class.spec_holds(s[run_end(s, i, class)]),
    decreases s.len() - i,
{
    if i < s.len() && class.spec_holds(s[i]) {
        lemma_run_end_bounds(s, i + 1, class);
    }
}

pub proof fn lemma_white_space_or_comment_end_bounds(s: Seq<u8>, i: int)
    requires
        0 <= i <= s.len(),
    ensures
        i <= white_space_or_comment_end(s, i) <= s.len(),
    decreases s.len() - i,
{
    if i < s.len() && spec_is_white_space(s[i]) {
        lemma_white_space_or_comment_end_bounds(s, i + 1);
    } else if i < s.len() && s[i] == 37 {
        lemma_run_end_bounds(s, i + 1, ByteClass::NotEol);
        lemma_white_space_or_comment_end_bounds(s, run_end(s, i + 1, ByteClass::NotEol));
    }
}

/// REFERENCE: [3.68 white-space character, p14] and [Table 1 — White-space
/// characters, 7.2.3, p22]
pub fn is_white_space(byte: u8) -> (r: bool)
    ensures
        r == spec_is_white_space(byte),
{
    byte == 0x09 || byte == 0x0A || byte == 0x0C || byte == 0x0D || byte == 0x20 || byte == 0x00
}

/// REFERENCE: [7.2.3 Character set, p22]
pub fn is_delimiter(byte: u8) -> (r: bool)
    ensures
        r == spec_is_delimiter(byte),
{
    byte == 40 || byte == 41 || byte == 60 || byte == 62 || byte == 91 || byte == 93 || byte
        == 123 || byte == 125 || byte == 47 || byte == 37
}

/// REFERENCE: [7.2.3 Character set, p23]: regular characters are not
/// restricted to the ASCII range.
pub fn is_regular(byte: u8) -> (r: bool)
    ensures
        r == spec_is_regular(byte),
{
    !is_white_space(byte) && !is_delimiter(byte)
}

pub fn is_printable_regular(byte: u8) -> (r: bool)
    ensures
        r == spec_is_printable_regular(byte),
{
    is_regular(byte) && 0x21 <= byte && byte <= 0x7E
}

/// The end of the longest run of bytes of `class` that starts at `offset`.
pub fn scan_while(buffer: &[u8], offset: usize, class: ByteClass) -> (end: usize)
    requires
        offset <= buffer@.len(),
    ensures
        end == run_end(buffer@, offset as int, class),
        offset <= end <= buffer@.len(),
{
    let mut i = offset;
    while i < buffer.len() && class.holds(buffer[i])
        invariant
            offset <= i <= buffer@.len(),
            run_end(buffer@, i as int, class) == run_end(buffer@, offset as int, class),
        decreases buffer@.len() - i,
    {
        i = i + 1;
    }
    i
}

/// The end of the longest sequence of white-space characters and comments
/// that starts at `offset`.
pub fn scan_white_space_or_comment(buffer: &[u8], offset: usize) -> (end: usize)
    requires
        offset <= buffer@.len(),
    ensures
        end == white_space_or_comment_end(buffer@, offset as int),
        offset <= end <= buffer@.len(),
{
    let mut i = offset;
    proof {
        lemma_white_space_or_comment_end_bounds(buffer@, offset as int);
    }
    loop
        invariant
            offset <= i <= buffer@.len(),
            white_space_or_comment_end(buffer@, i as int) == white_space_or_comment_end(
                buffer@,
                offset as int,
            ),
        decreases buffer@.len() - i,
    {
        if i < buffer.len() && is_white_space(buffer[i]) {
            i = i + 1;
        } else if i < buffer.len() && buffer[i] == 37 {
            proof {
                lemma_run_end_bounds(buffer@, i + 1, ByteClass::NotEol);
            }
            i = scan_while(buffer, i + 1, ByteClass::NotEol);
        } else {
            return i;
        }
    }
}

/// The length of the end-of-line marker at `offset` (0 if there is none).
pub fn eol_marker(buffer: &[u8], offset: usize) -> (len: usize)
    requires
        offset <= buffer@.len(),
    ensures
        len == eol_marker_len(buffer@, offset as int),
        offset + len <= buffer@.len(),
{
    if offset < buffer.len() && buffer.len() - offset > 1 && buffer[offset] == 0x0D && buffer[offset + 1] == 0x0A {
        2
    } else if offset < buffer.len() && (buffer[offset] == 0x0A || buffer[offset] == 0x0D) {
        1
    } else {
        0
    }
}

/// A non-empty run of bytes of `class` at the start of `buffer`.
fn take_while1(buffer: &[u8], class: ByteClass) -> (r: MatchResult)
    ensures
        ({
            let end = run_end(buffer@, 0, class);
            &&& r is Ok <==> end > 0
            &&& r matches Ok((rest, token)) ==> rest@ == buffer@.skip(end) && token@
                == buffer@.take(end)
            &&& r matches Err(e) ==> e.input@ == buffer@ && e.code == ErrorKind::TakeWhile1
        }),
{
    let end = scan_while(buffer, 0, class);
    if end == 0 {
        Err(MatchError { input: buffer, code: ErrorKind::TakeWhile1 })
    } else {
        Ok((slice_subrange(buffer, end, buffer.len()), slice_subrange(buffer, 0, end)))
    }
}

/// REFERENCE: [7.2.3 Character set, p22]
pub fn white_space(buffer: &[u8]) -> (r: MatchResult)
    ensures
        ({
            let end = run_end(buffer@, 0, ByteClass::WhiteSpace);
            &&& r is Ok <==> end > 0
            &&& r matches Ok((rest, token)) ==> rest@ == buffer@.skip(end) && token@
                == buffer@.take(end)
            &&& r matches Err(e) ==> e.input@ == buffer@ && e.code == ErrorKind::TakeWhile1
        }),
{
    take_while1(buffer, ByteClass::WhiteSpace)
}

/// REFERENCE: [7.2.3 Character set, p22]
pub fn delimiter(buffer: &[u8]) -> (r: MatchResult)
    ensures
        ({
            let end = run_end(buffer@, 0, ByteClass::Delimiter);
            &&& r is Ok <==> end > 0
            &&& r matches Ok((rest, token)) ==> rest@ == buffer@.skip(end) && token@
                == buffer@.take(end)
            &&& r matches Err(e) ==> e.input@ == buffer@ && e.code == ErrorKind::TakeWhile1
        }),
{
    take_while1(buffer, ByteClass::Delimiter)
}

/// A non-empty run of printable regular characters.
pub fn printable_token(buffer: &[u8]) -> (r: MatchResult)
    ensures
        ({
            let end = run_end(buffer@, 0, ByteClass::PrintableRegular);
            &&& r is Ok <==> end > 0
            &&& r matches Ok((rest, token)) ==> rest@ == buffer@.skip(end) && token@
                == buffer@.take(end)
            &&& r matches Err(e) ==> e.input@ == buffer@ && e.code == ErrorKind::TakeWhile1
        }),
{
    take_while1(buffer, ByteClass::PrintableRegular)
}

/// REFERENCE: [7.2.4 Comments, p23]: a comment runs from `%` to the end of
/// the line; the matched bytes are those after the `%`.
pub fn comment(buffer: &[u8]) -> (r: MatchResult)
    ensures
        ({
            let end = run_end(buffer@, 1, ByteClass::NotEol);
            &&& r is Ok <==> buffer@.len() > 0 && buffer@[0] == 37
            &&& r matches Ok((rest, token)) ==> rest@ == buffer@.skip(end) && token@
                == buffer@.subrange(1, end)
            &&& r matches Err(e) ==> e.input@ == buffer@ && e.code == ErrorKind::Char
        }),
{
    if buffer.len() > 0 && buffer[0] == 37 {
        let end = scan_while(buffer, 1, ByteClass::NotEol);
        Ok((slice_subrange(buffer, end, buffer.len()), slice_subrange(buffer, 1, end)))
    } else {
        Err(MatchError { input: buffer, code: ErrorKind::Char })
    }
}

/// REFERENCE: [7.2.4 Comments, p23]: a comment is treated as a single
/// white-space character.
pub fn white_space_or_comment(buffer: &[u8]) -> (r: MatchResult)
    ensures
        ({
            let end = white_space_or_comment_end(buffer@, 0);
            &&& r is Ok <==> end > 0
            &&& r matches Ok((rest, token)) ==> rest@ == buffer@.skip(end) && token@
                == buffer@.take(end)
            &&& r matches Err(e) ==> e.input@ == buffer@ && e.code == ErrorKind::Char
        }),
{
    let end = scan_white_space_or_comment(buffer, 0);
    if end == 0 {
        Err(MatchError { input: buffer, code: ErrorKind::Char })
    } else {
        Ok((slice_subrange(buffer, end, buffer.len()), slice_subrange(buffer, 0, end)))
    }
}

/// REFERENCE: [7.2.3 Character set, p22]: an end-of-line marker, which may be
/// preceded by TAB, FF, SPACE or NUL bytes and followed by white space; the
/// matched bytes are the marker itself.
pub fn eol(buffer: &[u8]) -> (r: MatchResult)
    ensures
        ({
            let start = run_end(buffer@, 0, ByteClass::EolPadding);
            let len = eol_marker_len(buffer@, start);
            let end = run_end(buffer@, start + len, ByteClass::WhiteSpace);
            &&& r is Ok <==> len > 0
            &&& r matches Ok((rest, token)) ==> rest@ == buffer@.skip(end) && token@
                == buffer@.subrange(start, start + len)
            &&& r matches Err(e) ==> e.input@ == buffer@.skip(start) && e.code == ErrorKind::Tag
        }),
{
    let start = scan_while(buffer, 0, ByteClass::EolPadding);
    let len = eol_marker(buffer, start);
    if len == 0 {
        Err(MatchError { input: slice_subrange(buffer, start, buffer.len()), code: ErrorKind::Tag })
    } else {
        assert(start + len <= buffer.len());
        let end = scan_while(buffer, start + len, ByteClass::WhiteSpace);
        Ok((slice_subrange(buffer, end, buffer.len()), slice_subrange(buffer, start, start + len)))
    }
}

} // verus!
