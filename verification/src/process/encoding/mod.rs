pub mod error;

use self::error::EncodingErr;
use self::error::EncodingErrorCode;
use vstd::prelude::*;
use vstd::utf8::decode_utf8;
use vstd::utf8::valid_utf8;

verus! {

/// REFERENCE: [7.2 Lexical conventions, p21] and [7.9.2 String object types,
/// p115]: the encodings of the text in strings and streams.
#[derive(Debug, PartialEq, Eq, Structural, Clone, Copy)]
pub enum Encoding {
    Ascii,
    PdfDoc,
    Utf8,
    Utf16BE,
    /// A custom encoding.
    Glyph,
}

/// REFERENCE: [7.9.2.2.1 General, p116]: the byte order marker that starts
/// UTF-8 text.
pub const UTF8_BOM: [u8; 3] = [0xEF, 0xBB, 0xBF];

/// REFERENCE: [7.9.2.2.1 General, p116]: the byte order marker that starts
/// UTF-16BE text.
pub const UTF16BE_BOM: [u8; 2] = [0xFE, 0xFF];

/// `bytes` starts with `prefix`.
pub open spec fn starts_with(bytes: Seq<u8>, prefix: Seq<u8>) -> bool {
    bytes.len() >= prefix.len() && bytes.take(prefix.len() as int) == prefix
}

/// The encodings and bytes that the decoder can handle: UTF-8 text, and
/// text that lacks the UTF-16BE byte order marker, which it rejects. The
/// other encodings are not implemented.
pub open spec fn decoding_supported(encoding: Encoding, bytes: Seq<u8>) -> bool {
    ||| encoding == Encoding::Utf8
    ||| encoding == Encoding::Utf16BE && !starts_with(bytes, UTF16BE_BOM@)
}

/// The outcome of decoding `transferred`, the bytes of `buffer` after the
/// filters or escapes that carry them.
pub open spec fn decode_outcome<'b>(
    encoding: Encoding,
    transferred: Result<Seq<u8>, EncodingErr<'b>>,
    buffer: Seq<u8>,
    r: Result<String, EncodingErr<'b>>,
) -> bool {
    match transferred {
        Err(e) => r == Err::<String, EncodingErr>(e),
        Ok(t) => if encoding == Encoding::Utf8 && starts_with(t, UTF8_BOM@) {
            let text = t.skip(3);
            match r {
                Ok(s) => valid_utf8(text) && s@ == decode_utf8(text),
                Err(e) => !valid_utf8(text) && e.buffer@ == buffer && e.code is Utf8,
            }
        } else {
            r matches Err(e) && e.buffer@ == buffer && e.code == EncodingErrorCode::ByteOrderMarker(encoding)
        },
    }
}

/// Reads `bytes` as UTF-8 text with `std::str::from_utf8`. Trusted: the
/// text is there exactly when the bytes are well-formed UTF-8, and it is
/// what they encode.
#[verifier::external_body]
fn utf8_text(bytes: &[u8]) -> (r: Result<String, std::str::Utf8Error>)
    ensures
        match r {
            Ok(s) => valid_utf8(bytes@) && s@ == decode_utf8(bytes@),
            Err(_) => !valid_utf8(bytes@),
        },
{
    match std::str::from_utf8(bytes) {
        Ok(s) => Ok(s.to_string()),
        Err(err) => Err(err),
    }
}

/// `bytes` starts with `prefix`.
fn has_prefix(bytes: &[u8], prefix: &[u8]) -> (b: bool)
    ensures
        b == starts_with(bytes@, prefix@),
{
    if bytes.len() < prefix.len() {
        return false;
    }
    let mut i: usize = 0;
    while i < prefix.len()
        invariant
            i <= prefix@.len() <= bytes@.len(),
            forall|j: int| 0 <= j < i ==> bytes@[j] == prefix@[j],
        decreases prefix@.len() - i,
    {
        if bytes[i] != prefix[i] {
            assert(bytes@.take(prefix@.len() as int)[i as int] != prefix@[i as int]);
            return false;
        }
        i = i + 1;
    }
    assert(bytes@.take(prefix@.len() as int) =~= prefix@);
    true
}

impl Encoding {
    /// REFERENCE: [7.3.4 String objects, p25] and [7.9.2 String object
    /// types]: decodes `transferred`, what the filters or escapes that
    /// carry the bytes of `buffer` give, as text.
    pub fn decode<'b>(&self, transferred: Result<Vec<u8>, EncodingErr<'b>>, buffer: &'b [u8]) -> (r: Result<
        String,
        EncodingErr<'b>,
    >)
        requires
            transferred matches Ok(t) ==> decoding_supported(*self, t@),
        ensures
            decode_outcome(
                *self,
                match transferred {
                    Ok(t) => Ok(t@),
                    Err(e) => Err(e),
                },
                buffer@,
                r,
            ),
    {
        let bytes = match transferred {
            Ok(t) => t,
            Err(e) => return Err(e),
        };
        match self {
            Encoding::Utf8 => {
                if has_prefix(bytes.as_slice(), &UTF8_BOM) {
                    let text = vstd::slice::slice_subrange(bytes.as_slice(), 3, bytes.len());
                    assert(text@ == bytes@.skip(3));
                    match utf8_text(text) {
                        Ok(s) => Ok(s),
                        Err(err) => Err(EncodingErr::new(buffer, EncodingErrorCode::Utf8(err))),
                    }
                } else {
                    Err(EncodingErr::new(buffer, EncodingErrorCode::ByteOrderMarker(Encoding::Utf8)))
                }
            },
            _ => Err(EncodingErr::new(buffer, EncodingErrorCode::ByteOrderMarker(Encoding::Utf16BE))),
        }
    }
}

} // verus!
