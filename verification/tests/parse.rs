use pdf2::header::Header;
use pdf2::header::Version;
use pdf2::parse::character_set::comment;
use pdf2::parse::character_set::delimiter;
use pdf2::parse::character_set::eol;
use pdf2::parse::character_set::is_delimiter;
use pdf2::parse::character_set::is_printable_regular;
use pdf2::parse::character_set::is_regular;
use pdf2::parse::character_set::is_white_space;
use pdf2::parse::character_set::printable_token;
use pdf2::parse::character_set::white_space;
use pdf2::parse::character_set::white_space_or_comment;
use pdf2::parse::error::ParseErr;
use pdf2::parse::error::ParseError;
use pdf2::parse::error::ParseErrorCode;
use pdf2::parse::num::ascii_to_decimal;
use pdf2::parse::num::ascii_to_i128;
use pdf2::parse::num::ascii_to_u16;
use pdf2::parse::num::ascii_to_u64;
use pdf2::parse::num::Decimal;
use pdf2::parse::ErrorKind;
use pdf2::parse::MatchError;
use pdf2::parse::Span;

#[test]
fn white_space_valid() {
    assert_eq!(white_space(b" .").unwrap(), (b".".as_slice(), b" ".as_slice()));
    assert_eq!(white_space(b"\t.").unwrap(), (b".".as_slice(), b"\t".as_slice()));
    assert_eq!(white_space(b"\n.").unwrap(), (b".".as_slice(), b"\n".as_slice()));
    assert_eq!(white_space(b"\x0C.").unwrap(), (b".".as_slice(), b"\x0C".as_slice()));
    assert_eq!(white_space(b"\r.").unwrap(), (b".".as_slice(), b"\r".as_slice()));
    assert_eq!(white_space(b"\x00.").unwrap(), (b".".as_slice(), b"\x00".as_slice()));
    assert_eq!(white_space(b"  %%EOF\n").unwrap(), (b"%%EOF\n".as_slice(), b"  ".as_slice()));
    assert_eq!(white_space(b"  <").unwrap(), (b"<".as_slice(), b"  ".as_slice()));
    assert_eq!(white_space(b" R").unwrap(), (b"R".as_slice(), b" ".as_slice()));
}

#[test]
fn white_space_invalid() {
    assert_eq!(white_space(b"%%EOF"), Err(MatchError { input: b"%%EOF", code: ErrorKind::TakeWhile1 }));
    assert_eq!(white_space(b">"), Err(MatchError { input: b">", code: ErrorKind::TakeWhile1 }));
    assert_eq!(white_space(b"R"), Err(MatchError { input: b"R", code: ErrorKind::TakeWhile1 }));
}

#[test]
fn comment_valid() {
    assert_eq!(comment(b"%\r\n").unwrap(), (b"\r\n".as_slice(), b"".as_slice()));
    assert_eq!(comment(b"%%EOF\n").unwrap(), (b"\n".as_slice(), b"%EOF".as_slice()));
    assert_eq!(comment(b"%PDF\r\nLINE2").unwrap(), (b"\r\nLINE2".as_slice(), b"PDF".as_slice()));
    assert_eq!(
        comment(b"%PDF\rLINE2%ANOTHER COMMENT\n").unwrap(),
        (b"\rLINE2%ANOTHER COMMENT\n".as_slice(), b"PDF".as_slice())
    );
    assert_eq!(
        comment(b"%\x20\x03\x16\xC3\x80\r\n").unwrap(),
        (b"\r\n".as_slice(), b"\x20\x03\x16\xC3\x80".as_slice())
    );
    assert_eq!(comment(b"%\x00\x9F\x92\x96\r\n").unwrap(), (b"\r\n".as_slice(), b"\x00\x9F\x92\x96".as_slice()));
    assert_eq!(
        comment(b"%START OF COMMENT... %STILL WITHIN THE SAME COMMENT...\nLINE2").unwrap(),
        (b"\nLINE2".as_slice(), b"START OF COMMENT... %STILL WITHIN THE SAME COMMENT...".as_slice())
    );
}

#[test]
fn white_space_or_comment_valid() {
    assert_eq!(white_space_or_comment(b" .").unwrap(), (b".".as_slice(), b" ".as_slice()));
    assert_eq!(white_space_or_comment(b"\t.").unwrap(), (b".".as_slice(), b"\t".as_slice()));
    assert_eq!(white_space_or_comment(b"\n.").unwrap(), (b".".as_slice(), b"\n".as_slice()));
    assert_eq!(white_space_or_comment(b"\x0C.").unwrap(), (b".".as_slice(), b"\x0C".as_slice()));
    assert_eq!(white_space_or_comment(b"\r.").unwrap(), (b".".as_slice(), b"\r".as_slice()));
    assert_eq!(white_space_or_comment(b"\x00.").unwrap(), (b".".as_slice(), b"\x00".as_slice()));
    assert_eq!(
        white_space_or_comment(b"  %A COMMENT\n<").unwrap(),
        (b"<".as_slice(), b"  %A COMMENT\n".as_slice())
    );
    assert_eq!(white_space_or_comment(b"  <").unwrap(), (b"<".as_slice(), b"  ".as_slice()));
    assert_eq!(white_space_or_comment(b" R").unwrap(), (b"R".as_slice(), b" ".as_slice()));
}

#[test]
fn white_space_or_comment_invalid() {
    assert_eq!(white_space_or_comment(b">"), Err(MatchError { input: b">", code: ErrorKind::Char }));
    assert_eq!(white_space_or_comment(b"R"), Err(MatchError { input: b"R", code: ErrorKind::Char }));
}

#[test]
fn eol_valid() {
    assert_eq!(eol(b"\n<").unwrap(), (b"<".as_slice(), b"\n".as_slice()));
    assert_eq!(eol(b"\r<").unwrap(), (b"<".as_slice(), b"\r".as_slice()));
    assert_eq!(eol(b"\r\n<").unwrap(), (b"<".as_slice(), b"\r\n".as_slice()));
}

#[test]
fn delimiter_valid() {
    assert_eq!(delimiter(b"() ").unwrap(), (b" ".as_slice(), b"()".as_slice()));
    assert_eq!(delimiter(b"<<>> ").unwrap(), (b" ".as_slice(), b"<<>>".as_slice()));
    assert_eq!(delimiter(b"<> ").unwrap(), (b" ".as_slice(), b"<>".as_slice()));
    assert_eq!(delimiter(b"[] ").unwrap(), (b" ".as_slice(), b"[]".as_slice()));
    assert_eq!(delimiter(b"{} ").unwrap(), (b" ".as_slice(), b"{}".as_slice()));
    assert_eq!(delimiter(b"/ ").unwrap(), (b" ".as_slice(), b"/".as_slice()));
    assert_eq!(delimiter(b"% ").unwrap(), (b" ".as_slice(), b"%".as_slice()));
}

#[test]
fn delimiter_invalid() {
    assert_eq!(delimiter(b" "), Err(MatchError { input: b" ", code: ErrorKind::TakeWhile1 }));
    assert_eq!(delimiter(b"R"), Err(MatchError { input: b"R", code: ErrorKind::TakeWhile1 }));
}

#[test]
fn printable_token_valid() {
    assert_eq!(
        printable_token(b"This#20is#20a#20token").unwrap(),
        (b"".as_slice(), b"This#20is#20a#20token".as_slice())
    );
    assert_eq!(printable_token(b"123").unwrap(), (b"".as_slice(), b"123".as_slice()));
    assert_eq!(printable_token(b"00FF").unwrap(), (b"".as_slice(), b"00FF".as_slice()));
    assert_eq!(printable_token(b"0.123").unwrap(), (b"".as_slice(), b"0.123".as_slice()));
}

#[test]
fn printable_token_invalid() {
    let input: &[u8] = &[0x80, 0x81, 0x82, 0x83];
    assert_eq!(printable_token(input), Err(MatchError { input, code: ErrorKind::TakeWhile1 }));
}

#[test]
fn character_classes() {
    for byte in [0x00u8, 0x09, 0x0A, 0x0C, 0x0D, 0x20] {
        assert!(is_white_space(byte));
        assert!(!is_regular(byte));
    }
    for byte in b"()<>[]{}/%".iter() {
        assert!(is_delimiter(*byte));
        assert!(!is_regular(*byte));
    }
    assert!(is_regular(b'a'));
    assert!(is_printable_regular(b'a'));
    assert!(is_regular(0x80));
    assert!(!is_printable_regular(0x80));
}

#[test]
fn numbers_from_ascii() {
    assert_eq!(ascii_to_u64(b"18446744073709551615"), Some(u64::MAX));
    assert_eq!(ascii_to_u64(b"18446744073709551616"), None);
    assert_eq!(ascii_to_u64(b"12a"), None);
    assert_eq!(ascii_to_u16(b"65535"), Some(65535));
    assert_eq!(ascii_to_u16(b"65536"), None);
    assert_eq!(ascii_to_i128(b"-42"), Some(-42));
    assert_eq!(ascii_to_i128(b"+42"), Some(42));
    assert_eq!(ascii_to_i128(b"4-2"), None);
    assert_eq!(
        ascii_to_decimal(b"-12.50"),
        Some(Decimal { negative: true, integer: -12, fraction: 50, fraction_digits: 2 })
    );
    assert_eq!(ascii_to_decimal(b"1.2.3"), None);
    assert_eq!(ascii_to_decimal(b"9223372036854775808"), None);
}

#[test]
fn header_valid() {
    let buffer = b"%PDF-1.7\n%\xE2\xE3\xCF\xD3\n1 0 obj";
    let header = Header::parse(buffer).unwrap();
    assert_eq!(header.version(), Version::V1_7);
    assert_eq!(header.data(), b"\xE2\xE3\xCF\xD3");
    assert_eq!(header.span, Span::new(0, 15));
}

#[test]
fn header_invalid() {
    assert_eq!(
        Header::parse(b"%PDF-1"),
        Err(ParseErr::Failure(ParseError::new(b"%PDF-1", "Header", ParseErrorCode::TooSmallBuffer)))
    );
    assert_eq!(
        Header::parse(b"%PDF-3.0\n"),
        Err(ParseErr::Failure(ParseError::new(b"PDF-3.0", "Version", ParseErrorCode::UnsupportedVersion(b"PDF-3.0".to_vec()))))
    );
    assert_eq!(
        Header::parse(b"PDF-1.7 without a comment"),
        Err(ParseErr::Recoverable(ParseError::new(
            b"PDF-1.7 without a comment",
            "Version",
            ParseErrorCode::NotFound(ErrorKind::Char)
        )))
    );
    assert_eq!(
        Header::parse(b"%PDF-1.4 x"),
        Err(ParseErr::Failure(ParseError::new(
            b"PDF-1.4 x",
            "Version",
            ParseErrorCode::UnsupportedVersion(b"PDF-1.4 x".to_vec())
        )))
    );
}

#[test]
fn span_accessors() {
    let span = Span::new(3, 4);
    assert_eq!(span.start(), 3);
    assert_eq!(span.end(), 7);
}

#[test]
fn decimal_many_fraction_digits() {
    let mut text = b"0.".to_vec();
    text.extend(std::iter::repeat(b'0').take(1000));
    text.push(b'1');
    assert_eq!(
        ascii_to_decimal(&text),
        Some(Decimal { negative: false, integer: 0, fraction: 1, fraction_digits: 1001 })
    );
}
