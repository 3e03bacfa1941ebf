use crate::parse::character_set::lemma_run_end_bounds;
use crate::parse::character_set::lemma_white_space_or_comment_end_bounds;
use crate::parse::character_set::run_end;
use crate::parse::character_set::scan_while;
use crate::parse::character_set::scan_white_space_or_comment;
use crate::parse::character_set::white_space_or_comment_end;
use crate::parse::character_set::ByteClass;
use crate::parse::error::failure;
use crate::parse::error::recoverable;
use crate::parse::error::ParseErr;
use crate::parse::error::ParseError;
use crate::parse::error::ParseErrorCode;
use crate::parse::ErrorKind;
use crate::parse::Span;
use crate::process::encoding::decode_outcome;
use crate::process::encoding::decoding_supported;
use crate::process::encoding::error::EncodingErr;
use crate::process::encoding::error::EncodingErrorCode;
use crate::process::encoding::Encoding;
use crate::process::escape::error::EscapeErr;
use crate::process::escape::error::EscapeErrorCode;
use crate::process::filter::ascii_hex::spec_ahx_decode;
use crate::process::filter::ascii_hex::AHx;
use crate::process::filter::error::is_filter_err;
use crate::process::filter::error::FilterErrorCode;
use crate::parse::bytes_eq;
use vstd::std_specs::cmp::PartialEqSpecImpl;
use vstd::prelude::*;
use vstd::slice::slice_subrange;

verus! {

/// REFERENCE: [7.3.4.3 Hexadecimal strings, p27]. The value holds the bytes
/// between the angle brackets, white space and comments included.
#[derive(Debug, Clone, Copy)]
pub struct Hexadecimal<'buffer> {
    pub value: &'buffer [u8],
    pub span: Span,
}

/// The end of the runs of hexadecimal digits, each followed by optional white
/// space or comments, that start at `i`.
pub open spec fn hex_body_end(s: Seq<u8>, i: int) -> int
    decreases s.len() - i,
{
    if 0 <= i <= s.len() {
        let k = run_end(s, i, ByteClass::HexDigit);
        if i < k <= s.len() {
            proof {
                lemma_white_space_or_comment_end_bounds(s, k);
            }
            hex_body_end(s, white_space_or_comment_end(s, k))
        } else {
            i
        }
    } else {
        i
    }
}

/// The end of the content of a hexadecimal string whose `<` is just before `i`.
pub open spec fn hex_content_end(s: Seq<u8>, i: int) -> int {
    hex_body_end(s, white_space_or_comment_end(s, i))
}

pub proof fn lemma_hex_body_end_bounds(s: Seq<u8>, i: int)
    requires
        0 <= i <= s.len(),
    ensures
        i <= hex_body_end(s, i) <= s.len(),
    decreases s.len() - i,
{
    lemma_run_end_bounds(s, i, ByteClass::HexDigit);
    let k = run_end(s, i, ByteClass::HexDigit);
    if i < k {
        lemma_white_space_or_comment_end_bounds(s, k);
        lemma_hex_body_end_bounds(s, white_space_or_comment_end(s, k));
    }
}

fn scan_hex_body(buffer: &[u8], offset: usize) -> (end: usize)
    requires
        offset <= buffer@.len(),
    ensures
        end == hex_body_end(buffer@, offset as int),
{
    let mut i = offset;
    loop
        invariant
            offset <= i <= buffer@.len(),
            hex_body_end(buffer@, i as int) == hex_body_end(buffer@, offset as int),
        decreases buffer@.len() - i,
    {
        let k = scan_while(buffer, i, ByteClass::HexDigit);
        if k > i {
            i = scan_white_space_or_comment(buffer, k);
        } else {
            return i;
        }
    }
}

/// The outcome of reading a hexadecimal string at `offset`.
pub open spec fn hexadecimal_outcome(s: Seq<u8>, offset: int, r: Result<Hexadecimal, ParseErr>) -> bool {
    let end = hex_content_end(s, offset + 1);
    if !(offset < s.len() && s[offset] == 60) {
        recoverable(r, s.skip(offset), "Hexadecimal"@, ParseErrorCode::NotFound(ErrorKind::Char))
    } else if end < s.len() && s[end] == 62 {
        r matches Ok(hexadecimal) && hexadecimal.value@ == s.subrange(offset + 1, end)
            && hexadecimal.span == Span { start: offset as usize, end: (end + 1) as usize }
    } else {
        failure(r, s.skip(end), "Hexadecimal"@, ParseErrorCode::MissingClosing(ErrorKind::Char))
    }
}

impl<'buffer> Hexadecimal<'buffer> {
    pub fn new(value: &'buffer [u8], span: Span) -> (hexadecimal: Self)
        ensures
            hexadecimal.value == value,
            hexadecimal.span == span,
    {
        Self { value, span }
    }

    /// Parses a hexadecimal string at `offset`. Once the opening `<` is found,
    /// a missing closing `>` is a failure.
    pub fn parse(buffer: &'buffer [u8], offset: usize) -> (r: Result<Self, ParseErr<'buffer>>)
        requires
            offset <= buffer@.len(),
        ensures
            hexadecimal_outcome(buffer@, offset as int, r),
            ({
                let s = buffer@;
                let end = hex_content_end(s, offset + 1);
                if !(offset < s.len() && s[offset as int] == 60) {
                    recoverable(r, s.skip(offset as int), "Hexadecimal"@, ParseErrorCode::NotFound(ErrorKind::Char))
                } else if end < s.len() && s[end] == 62 {
                    r matches Ok(hexadecimal) && hexadecimal.value@ == s.subrange(offset + 1, end)
                        && hexadecimal.span == Span { start: offset, end: (end + 1) as usize }
                } else {
                    failure(r, s.skip(end), "Hexadecimal"@, ParseErrorCode::MissingClosing(ErrorKind::Char))
                }
            }),
    {
        if !(offset < buffer.len() && buffer[offset] == 60) {
            return Err(
                ParseErr::Recoverable(
                    ParseError::new(
                        slice_subrange(buffer, offset, buffer.len()),
                        "Hexadecimal",
                        ParseErrorCode::NotFound(ErrorKind::Char),
                    ),
                ),
            );
        }
        let start = scan_white_space_or_comment(buffer, offset + 1);
        let end = scan_hex_body(buffer, start);
        proof {
            lemma_hex_body_end_bounds(buffer@, start as int);
        }
        if end < buffer.len() && buffer[end] == 62 {
            Ok(Self { value: slice_subrange(buffer, offset + 1, end), span: Span::new(offset, end + 1 - offset) })
        } else {
            Err(
                ParseErr::Failure(
                    ParseError::new(
                        slice_subrange(buffer, end, buffer.len()),
                        "Hexadecimal",
                        ParseErrorCode::MissingClosing(ErrorKind::Char),
                    ),
                ),
            )
        }
    }

    pub fn span(&self) -> (span: Span)
        ensures
            span == self.span,
    {
        self.span
    }

    /// The bytes that the hexadecimal digits write.
    pub fn escape(&self) -> (r: Result<Vec<u8>, EscapeErr<'buffer>>)
        ensures
            match spec_ahx_decode(self.value@) {
                Ok(decoded) => (r matches Ok(v) && v@ == decoded),
                Err(code) => (r matches Err(e) && e.buffer == self.value && e.code
                    == EscapeErrorCode::Hexadecimal(FilterErrorCode::AHx(code))),
            },
    {
        match AHx.defilter(self.value) {
            Ok(escaped) => Ok(escaped),
            Err(err) => Err(EscapeErr::new(self.value, EscapeErrorCode::Hexadecimal(err.code))),
        }
    }

    /// Decodes the bytes that the hexadecimal digits write as text in
    /// `encoding`.
    pub fn decode(&self, encoding: Encoding) -> (r: Result<String, EncodingErr<'buffer>>)
        requires
            spec_ahx_decode(self.value@) matches Ok(t) ==> decoding_supported(encoding, t),
        ensures
            match spec_ahx_decode(self.value@) {
                Ok(t) => decode_outcome(encoding, Ok(t), self.value@, r),
                Err(code) => (r matches Err(e) && e.buffer == self.value && (e.code matches EncodingErrorCode::Filter(
                    fe,
                ) && is_filter_err(fe, "AHx"@, FilterErrorCode::AHx(code)))),
            },
    {
        let transferred = match AHx.defilter(self.value) {
            Ok(v) => Ok(v),
            Err(err) => Err(EncodingErr::new(self.value, EncodingErrorCode::Filter(err))),
        };
        encoding.decode(transferred, self.value)
    }
}

impl<'buffer> PartialEq for Hexadecimal<'buffer> {
    fn eq(&self, other: &Self) -> (r: bool) {
        match (self.escape(), other.escape()) {
            (Ok(a), Ok(b)) => bytes_eq(a.as_slice(), b.as_slice()) && self.span == other.span,
            _ => false,
        }
    }
}

impl<'buffer> PartialEqSpecImpl for Hexadecimal<'buffer> {
    open spec fn obeys_eq_spec() -> bool {
        true
    }

    open spec fn eq_spec(&self, other: &Self) -> bool {
        match (spec_ahx_decode(self.value@), spec_ahx_decode(other.value@)) {
            (Ok(a), Ok(b)) => a == b && self.span == other.span,
            _ => false,
        }
    }
}

} // verus!
