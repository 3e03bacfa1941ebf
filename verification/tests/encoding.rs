use pdf2::process::escape::error::EscapeErr;
use pdf2::process::escape::error::EscapeErrorCode;
use pdf2::pdf::objects::InUseObjects;
use pdf2::object::direct::string::hexadecimal::Hexadecimal;
use pdf2::object::indirect::stream::Stream;
use pdf2::parse::Span;
use pdf2::process::encoding::error::EncodingErr;
use pdf2::process::encoding::error::EncodingErrorCode;
use pdf2::process::encoding::Encoding;
use pdf2::process::filter::ascii_hex::AHxErrorCode;
use pdf2::process::filter::error::FilterErr;
use pdf2::process::filter::error::FilterErrorCode;

#[test]
fn hexadecimal_decode_utf8() {
    let hexadecimal = Hexadecimal::new(b"EFBBBF41C3A9", Span::new(0, 14));
    assert_eq!(hexadecimal.decode(Encoding::Utf8).unwrap(), "A\u{e9}".to_string());
}

#[test]
fn hexadecimal_decode_errors() {
    let value: &[u8] = b"41";
    assert_eq!(
        Hexadecimal::new(value, Span::new(0, 4)).decode(Encoding::Utf8),
        Err(EncodingErr::new(value, EncodingErrorCode::ByteOrderMarker(Encoding::Utf8)))
    );
    assert_eq!(
        Hexadecimal::new(value, Span::new(0, 4)).decode(Encoding::Utf16BE),
        Err(EncodingErr::new(value, EncodingErrorCode::ByteOrderMarker(Encoding::Utf16BE)))
    );
    let value: &[u8] = b"4X";
    assert_eq!(
        Hexadecimal::new(value, Span::new(0, 4)).decode(Encoding::Utf8),
        Err(EncodingErr::new(
            value,
            EncodingErrorCode::Filter(FilterErr::new("AHx", FilterErrorCode::AHx(AHxErrorCode::InvalidHexDigit('X'))))
        ))
    );
    let value: &[u8] = b"EFBBBFFF";
    let result = Hexadecimal::new(value, Span::new(0, 10)).decode(Encoding::Utf8);
    match result {
        Err(err) => {
            assert_eq!(err.buffer, value);
            assert!(matches!(err.code, EncodingErrorCode::Utf8(_)));
        }
        Ok(_) => panic!("invalid UTF-8 was decoded"),
    }
}

#[test]
fn stream_decode_utf8() {
    let buffer = b"<</Length 13/Filter/ASCIIHexDecode>>\nstream\nEFBBBF48692E>\nendstream";
    let stream = Stream::parse(buffer, 0, &InUseObjects::default()).unwrap();
    assert_eq!(stream.decode(Encoding::Utf8).unwrap(), "Hi.".to_string());
}

#[test]
fn encoding_error_from_escape_error() {
    let buffer: &[u8] = b"/Name#";
    let escape = EscapeErr::new(buffer, EscapeErrorCode::TraillingNumberSign);
    let err = EncodingErr::from(escape);
    assert_eq!(err, EncodingErr::new(buffer, EncodingErrorCode::Escape(EscapeErrorCode::TraillingNumberSign)));
}
