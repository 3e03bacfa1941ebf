use crate::parse::character_set::comment;
use crate::parse::character_set::eol_marker;
use crate::parse::character_set::scan_while;
use crate::parse::character_set::eol_marker_len;
use crate::parse::character_set::run_end;
use crate::parse::character_set::ByteClass;
use crate::parse::error::failure;
use crate::parse::error::recoverable;
use crate::parse::error::ParseErr;
use crate::parse::error::ParseError;
use crate::parse::error::ParseErrorCode;
use crate::parse::ErrorKind;
use crate::parse::Span;
use crate::process::filter::predictor::bytes_to_vec;
use vstd::prelude::*;
use vstd::slice::slice_subrange;

verus! {

/// The least number of bytes of a header: `%PDF-M.N`.
pub const HEADER_MIN_SIZE: usize = 8;

/// REFERENCE: [7.5.2 File header, p54]: the version of the format that a
/// file follows.
#[derive(Debug, PartialEq, Eq, Structural, Clone, Copy)]
pub enum Version {
    V1_0,
    V1_1,
    V1_2,
    V1_3,
    V1_4,
    V1_5,
    V1_6,
    V1_7,
    V2_0,
}

/// The version that the text `PDF-M.N` of a header comment names.
pub open spec fn spec_version_of(text: Seq<u8>) -> Option<Version> {
    if text.len() == 7 && text[0] == 80 && text[1] == 68 && text[2] == 70 && text[3] == 45 && text[5] == 46 {
        let major = text[4];
        let minor = text[6];
        if major == 49 && minor == 48 {
            Some(Version::V1_0)
        } else if major == 49 && minor == 49 {
            Some(Version::V1_1)
        } else if major == 49 && minor == 50 {
            Some(Version::V1_2)
        } else if major == 49 && minor == 51 {
            Some(Version::V1_3)
        } else if major == 49 && minor == 52 {
            Some(Version::V1_4)
        } else if major == 49 && minor == 53 {
            Some(Version::V1_5)
        } else if major == 49 && minor == 54 {
            Some(Version::V1_6)
        } else if major == 49 && minor == 55 {
            Some(Version::V1_7)
        } else if major == 50 && minor == 48 {
            Some(Version::V2_0)
        } else {
            None
        }
    } else {
        None
    }
}

/// The major and minor numbers of a version.
pub open spec fn version_numbers(v: Version) -> (u8, u8) {
    match v {
        Version::V1_0 => (1, 0),
        Version::V1_1 => (1, 1),
        Version::V1_2 => (1, 2),
        Version::V1_3 => (1, 3),
        Version::V1_4 => (1, 4),
        Version::V1_5 => (1, 5),
        Version::V1_6 => (1, 6),
        Version::V1_7 => (1, 7),
        Version::V2_0 => (2, 0),
    }
}

/// The text `PDF-M.N` of a header comment that names major number `m` and
/// minor number `n`, each a digit.
pub open spec fn version_text(m: u8, n: u8) -> Seq<u8> {
    seq![80u8, 68u8, 70u8, 45u8, (48 + m) as u8, 46u8, (48 + n) as u8]
}

/// REFERENCE: [7.5.2 File header, p54]: the text `PDF-M.N` of a header
/// comment names the version `M.N` and no other: a text gives a version
/// exactly when it is that version's text, so that distinct versions come
/// from distinct texts, and each version's text gives it.
pub proof fn lemma_version_of_text(text: Seq<u8>, v: Version)
    ensures
        spec_version_of(text) == Some(v) <==> text == version_text(version_numbers(v).0, version_numbers(v).1),
{
    let (m, n) = version_numbers(v);
    let t = version_text(m, n);
    if text =~= t {
        assert(text == t);
    }
    if spec_version_of(text) == Some(v) {
        assert(text =~= t);
    }
}

/// The outcome of reading the version comment at the start of `s`.
pub open spec fn version_outcome(s: Seq<u8>, r: Result<Version, ParseErr>) -> bool {
    let end = run_end(s, 1, ByteClass::NotEol);
    if !(s.len() > 0 && s[0] == 37) {
        recoverable(r, s, "Version"@, ParseErrorCode::NotFound(ErrorKind::Char))
    } else {
        match spec_version_of(s.subrange(1, end)) {
            Some(v) => r == Ok::<Version, ParseErr>(v),
            None => (r matches Err(ParseErr::Failure(e)) && e.buffer@ == s.subrange(1, end) && e.object@ == "Version"@
                && (e.code matches ParseErrorCode::UnsupportedVersion(text) && text@ == s.subrange(1, end))),
        }
    }
}

impl Version {
    /// The version that a header comment names.
    pub fn parse(buffer: &[u8]) -> (r: Result<Self, ParseErr>)
        ensures
            version_outcome(buffer@, r),
    {
        let (_, text) = match comment(buffer) {
            Ok(matched) => matched,
            Err(e) => {
                return Err(
                    ParseErr::Recoverable(ParseError::new(e.input, "Version", ParseErrorCode::NotFound(e.code))),
                );
            },
        };
        if text.len() == 7 && text[0] == 80 && text[1] == 68 && text[2] == 70 && text[3] == 45 && text[5] == 46 {
            let major = text[4];
            let minor = text[6];
            if major == 49 && minor == 48 {
                return Ok(Version::V1_0);
            } else if major == 49 && minor == 49 {
                return Ok(Version::V1_1);
            } else if major == 49 && minor == 50 {
                return Ok(Version::V1_2);
            } else if major == 49 && minor == 51 {
                return Ok(Version::V1_3);
            } else if major == 49 && minor == 52 {
                return Ok(Version::V1_4);
            } else if major == 49 && minor == 53 {
                return Ok(Version::V1_5);
            } else if major == 49 && minor == 54 {
                return Ok(Version::V1_6);
            } else if major == 49 && minor == 55 {
                return Ok(Version::V1_7);
            } else if major == 50 && minor == 48 {
                return Ok(Version::V2_0);
            }
        }
        Err(
            ParseErr::Failure(
                ParseError::new(text, "Version", ParseErrorCode::UnsupportedVersion(bytes_to_vec(text))),
            ),
        )
    }
}

/// REFERENCE: [7.5.2 File header, p54]: the version, and the comment of
/// binary bytes that may follow it.
#[derive(Debug, PartialEq, Clone, Copy)]
pub struct Header<'buffer> {
    pub version: Version,
    pub data: &'buffer [u8],
    pub span: Span,
}

/// The start of the end-of-line marker at `i`, after TAB, FF, SPACE or NUL.
pub open spec fn eol_start(s: Seq<u8>, i: int) -> int {
    run_end(s, i, ByteClass::EolPadding)
}

/// Where the bytes after the end-of-line marker at `i` and the white space
/// that follows it start.
pub open spec fn after_eol(s: Seq<u8>, i: int) -> int {
    let start = eol_start(s, i);
    run_end(s, start + eol_marker_len(s, start), ByteClass::WhiteSpace)
}

/// The outcome of reading the header at the start of `s`: the version
/// comment, an end-of-line marker, an optional comment and another
/// end-of-line marker. Its span counts the markers, the comment's bytes and
/// one byte for its `%`.
pub open spec fn header_outcome(s: Seq<u8>, r: Result<Header, ParseErr>) -> bool {
    if s.len() < HEADER_MIN_SIZE {
        failure(r, s, "Header"@, ParseErrorCode::TooSmallBuffer)
    } else {
        let version_end = run_end(s, 1, ByteClass::NotEol);
        let first = eol_start(s, 8);
        let first_len = eol_marker_len(s, first);
        let rest = after_eol(s, 8);
        let has_comment = rest < s.len() && s[rest] == 37;
        let comment_end = if has_comment { run_end(s, rest + 1, ByteClass::NotEol) } else { rest };
        let data = if has_comment { s.subrange(rest + 1, comment_end) } else { Seq::empty() };
        let second = eol_start(s, comment_end);
        let second_len = eol_marker_len(s, second);
        if !(s[0] == 37) || spec_version_of(s.subrange(1, version_end)) is None {
            r matches Err(e) && version_outcome(s, Err::<Version, ParseErr>(e))
        } else if first_len == 0 {
            recoverable(r, s.skip(first), "Header"@, ParseErrorCode::NotFound(ErrorKind::Tag))
        } else if second_len == 0 {
            recoverable(r, s.skip(second), "Header"@, ParseErrorCode::NotFound(ErrorKind::Tag))
        } else {
            r matches Ok(h) && h.version == spec_version_of(s.subrange(1, version_end))->Some_0 && h.data@ == data
                && h.span == Span { start: 0, end: (8 + first_len + data.len() + 1 + second_len) as usize }
        }
    }
}

impl<'buffer> Header<'buffer> {
    /// Parses the header at the start of `buffer`.
    pub fn parse(buffer: &'buffer [u8]) -> (r: Result<Self, ParseErr<'buffer>>)
        ensures
            header_outcome(buffer@, r),
    {
        if buffer.len() < HEADER_MIN_SIZE {
            return Err(ParseErr::Failure(ParseError::new(buffer, "Header", ParseErrorCode::TooSmallBuffer)));
        }
        let version = match Version::parse(buffer) {
            Ok(v) => v,
            Err(e) => {
                return Err(e);
            },
        };
        let first = scan_while(buffer, 8, ByteClass::EolPadding);
        let first_len = eol_marker(buffer, first);
        if first_len == 0 {
            return Err(
                ParseErr::Recoverable(
                    ParseError::new(
                        slice_subrange(buffer, first, buffer.len()),
                        "Header",
                        ParseErrorCode::NotFound(ErrorKind::Tag),
                    ),
                ),
            );
        }
        let rest = scan_while(buffer, first + first_len, ByteClass::WhiteSpace);
        let (comment_end, data) = if rest < buffer.len() && buffer[rest] == 37 {
            let end = scan_while(buffer, rest + 1, ByteClass::NotEol);
            (end, slice_subrange(buffer, rest + 1, end))
        } else {
            (rest, slice_subrange(buffer, rest, rest))
        };
        let second = scan_while(buffer, comment_end, ByteClass::EolPadding);
        let second_len = eol_marker(buffer, second);
        if second_len == 0 {
            return Err(
                ParseErr::Recoverable(
                    ParseError::new(
                        slice_subrange(buffer, second, buffer.len()),
                        "Header",
                        ParseErrorCode::NotFound(ErrorKind::Tag),
                    ),
                ),
            );
        }
        proof {
            crate::parse::character_set::lemma_run_end_bounds(buffer@, first + first_len, ByteClass::WhiteSpace);
            if rest < buffer@.len() && buffer@[rest as int] == 37 {
                crate::parse::character_set::lemma_run_end_bounds(buffer@, rest + 1, ByteClass::NotEol);
            }
        }
        assert(data@.len() <= buffer@.len() - 9);
        Ok(Header { version, data, span: Span { start: 0, end: 8 + first_len + data.len() + 1 + second_len } })
    }

    pub fn version(&self) -> (version: Version)
        ensures
            version == self.version,
    {
        self.version
    }

    pub fn data(&self) -> (data: &'buffer [u8])
        ensures
            data == self.data,
    {
        self.data
    }
}

} // verus!
