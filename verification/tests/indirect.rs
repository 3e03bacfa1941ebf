use pdf2::pdf::objects::InUseObjects;
use pdf2::object::direct::dictionary::Dictionary;
use pdf2::object::direct::name::Name;
use pdf2::object::direct::numeric::integer::Integer;
use pdf2::object::direct::numeric::Numeric;
use pdf2::object::direct::DirectValue;
use pdf2::object::error::ObjectErr;
use pdf2::object::error::ObjectErrorCode;
use pdf2::object::indirect::id::Id;
use pdf2::object::indirect::object::IndirectObject;
use pdf2::object::indirect::reference::Reference;
use pdf2::object::indirect::stream::Stream;
use pdf2::object::indirect::stream::KEY_LENGTH;
use pdf2::object::indirect::IndirectValue;
use pdf2::parse::error::ParseErr;
use pdf2::parse::error::ParseError;
use pdf2::parse::error::ParseErrorCode;
use pdf2::parse::ErrorKind;
use pdf2::parse::Span;

fn recoverable<'a>(buffer: &'a [u8], object: &'static str, code: ParseErrorCode) -> ParseErr<'a> {
    ParseErr::Recoverable(ParseError::new(buffer, object, code))
}

fn failure<'a>(buffer: &'a [u8], object: &'static str, code: ParseErrorCode) -> ParseErr<'a> {
    ParseErr::Failure(ParseError::new(buffer, object, code))
}

fn integer(value: i128, start: usize, len: usize) -> DirectValue<'static> {
    DirectValue::Numeric(Numeric::Integer(Integer::new(value, Span::new(start, len))))
}

/// A reference whose identifier covers all
/// but the last byte of the reference.
fn reference(object_number: u64, generation_number: u16, start: usize, len: usize) -> Reference {
    Reference::new(
        Id::new(object_number, generation_number, Span::new(start, len - 1)),
        Span::new(start, len),
    )
}

#[test]
fn id_valid() {
    assert_eq!(
        Id::parse(b"65535 65535 R <<", 0),
        Ok(Id::new(65535, 65535, Span::new(0, 12)))
    );
}

#[test]
fn id_invalid() {
    assert_eq!(
        Id::parse(b"/Name", 0),
        Err(recoverable(b"/Name", "Id", ParseErrorCode::NotFound(ErrorKind::Digit)))
    );
    assert_eq!(
        Id::parse(b"56789 ", 0),
        Err(recoverable(b"", "Id", ParseErrorCode::NotFound(ErrorKind::Digit)))
    );
    assert_eq!(
        Id::parse(b"-12345 65535 R other objects", 0),
        Err(recoverable(
            b"-12345 65535 R other objects",
            "Id",
            ParseErrorCode::NotFound(ErrorKind::Digit)
        ))
    );
    assert_eq!(
        Id::parse(b"0 65535 R other objects", 0),
        Err(recoverable(b"0", "Id", ParseErrorCode::ObjectNumber))
    );
    assert_eq!(
        Id::parse(b"98765432109876543210 65535 R other objects", 0),
        Err(recoverable(b"98765432109876543210", "Id", ParseErrorCode::ObjectNumber))
    );
    assert_eq!(
        Id::parse(b"1 65536 R other objects", 0),
        Err(recoverable(b"65536", "Id", ParseErrorCode::GenerationNumber))
    );
    assert_eq!(
        Id::parse(b"1 6553500 R other objects", 0),
        Err(recoverable(b"6553500", "Id", ParseErrorCode::GenerationNumber))
    );
}

#[test]
fn id_at_offset() {
    let buffer = b"<< 12 0 R >>";
    let id = Id::parse(buffer, 3).unwrap();
    assert_eq!(id.object_number, 12);
    assert_eq!(id.generation_number, 0);
    assert_eq!(id.span(), Span::new(3, 5));
}

#[test]
fn reference_valid() {
    assert_eq!(Reference::parse(b"1 0 R", 0), Ok(reference(1, 0, 0, 5)));
    assert_eq!(Reference::parse(b"12345 65535 R<<", 0), Ok(reference(12345, 65535, 0, 13)));
    assert_eq!(Reference::parse(b"12345 65535 Rc", 0), Ok(reference(12345, 65535, 0, 13)));
}

#[test]
fn reference_invalid() {
    assert_eq!(
        Reference::parse(b"1 0", 0),
        Err(recoverable(
            b"",
            "Reference",
            ParseErrorCode::RecNotFound(Box::new(ParseErrorCode::NotFound(ErrorKind::Char)))
        ))
    );
    assert_eq!(
        Reference::parse(b"/Name", 0),
        Err(recoverable(
            b"/Name",
            "Reference",
            ParseErrorCode::RecNotFound(Box::new(ParseErrorCode::NotFound(ErrorKind::Digit)))
        ))
    );
    assert_eq!(
        Reference::parse(b"0 65535 R other objects", 0),
        Err(recoverable(
            b"0",
            "Reference",
            ParseErrorCode::RecNotFound(Box::new(ParseErrorCode::ObjectNumber))
        ))
    );
    assert_eq!(
        Reference::parse(b"12345 65535 <", 0),
        Err(recoverable(b"<", "Reference", ParseErrorCode::NotFound(ErrorKind::Tag)))
    );
}

#[test]
fn object_valid() {
    let buffer = b"1 0 obj /Name\nendobj";
    let expected = IndirectObject::new(
        Id::new(1, 0, Span::new(0, 4)),
        IndirectValue::Direct(DirectValue::Name(Name::new(b"Name", Span::new(8, 5)))),
        Span::new(0, buffer.len()),
    );
    assert_eq!(IndirectObject::parse(buffer, 0, &InUseObjects::default()), Ok(expected));

    let buffer = b"1 0 obj 2 0 R endobj";
    let expected = IndirectObject::new(
        Id::new(1, 0, Span::new(0, 4)),
        IndirectValue::Direct(DirectValue::Reference(reference(2, 0, 8, 5))),
        Span::new(0, buffer.len()),
    );
    assert_eq!(IndirectObject::parse(buffer, 0, &InUseObjects::default()), Ok(expected));

    let buffer = b"1 0 obj\n<</Length 29>>\nstream\nA stream with a direct length\nendstream\nendobj";
    let stream = Stream::new(
        Dictionary::new(vec![(KEY_LENGTH.to_vec(), integer(29, 18, 2))], Span::new(8, 14)),
        "A stream with a direct length".as_bytes(),
        Span::new(8, 62),
    );
    let expected = IndirectObject::new(
        Id::new(1, 0, Span::new(0, 4)),
        IndirectValue::Stream(stream),
        Span::new(0, buffer.len()),
    );
    assert_eq!(IndirectObject::parse(buffer, 0, &InUseObjects::default()), Ok(expected));
}

#[test]
fn object_invalid() {
    assert_eq!(
        IndirectObject::parse(b"1 0 obj /Name e", 0, &InUseObjects::default()),
        Err(failure(b"e", "IndirectObject", ParseErrorCode::MissingClosing(ErrorKind::Tag)))
    );
    assert_eq!(
        IndirectObject::parse(b"1 0 obj /Name <", 0, &InUseObjects::default()),
        Err(failure(b"<", "IndirectObject", ParseErrorCode::MissingClosing(ErrorKind::Tag)))
    );
    assert_eq!(
        IndirectObject::parse(b"1 0 obj (A partial literal string", 0, &InUseObjects::default()),
        Err(failure(
            b"",
            "IndirectObject",
            ParseErrorCode::RecMissingSubobject(
                "IndirectValue",
                Box::new(ParseErrorCode::MissingClosing(ErrorKind::Char))
            )
        ))
    );
    assert_eq!(
        IndirectObject::parse(b"1 0 /Name<", 0, &InUseObjects::default()),
        Err(recoverable(b"/Name<", "IndirectObject", ParseErrorCode::NotFound(ErrorKind::Tag)))
    );
    assert_eq!(
        IndirectObject::parse(b"1 0 obj endobj", 0, &InUseObjects::default()),
        Err(failure(
            b"endobj",
            "IndirectObject",
            ParseErrorCode::RecMissingSubobject("IndirectValue", Box::new(ParseErrorCode::NotFoundUnion))
        ))
    );
}

#[test]
fn object_without_identifier() {
    assert_eq!(
        IndirectObject::parse(b"obj", 0, &InUseObjects::default()),
        Err(recoverable(
            b"obj",
            "Id",
            ParseErrorCode::RecNotFound(Box::new(ParseErrorCode::NotFound(ErrorKind::Digit)))
        ))
    );
}

#[test]
fn stream_valid() {
    let buffer = b"<</Length 0>>\nstream\n\nendstream\nendobj";
    // The length value spans the byte at offset 10, up to offset 11.
    let expected = Stream::new(
        Dictionary::new(
            vec![(KEY_LENGTH.to_vec(), DirectValue::Numeric(Numeric::Integer(Integer::new(0, Span { start: 10, end: 11 }))))],
            Span::new(0, 13),
        ),
        "".as_bytes(),
        Span::new(0, 32),
    );
    assert_eq!(Stream::parse(buffer, 0, &InUseObjects::default()), Ok(expected));
}

#[test]
fn stream_invalid() {
    assert_eq!(
        Stream::parse(b"<<>>\nstream\nendstream", 0, &InUseObjects::default()),
        Err(failure(
            b"<<>>",
            "Stream",
            ParseErrorCode::Object(ObjectErr::new(
                &KEY_LENGTH,
                Span::new(0, 4),
                ObjectErrorCode::MissingRequiredEntry
            ))
        ))
    );
    // The value -1 spans offsets 10 to 12.
    assert_eq!(
        Stream::parse(b"<</Length -1>>\nstream\nendstream", 0, &InUseObjects::default()),
        Err(failure(
            b"<</Length -1>>",
            "Stream",
            ParseErrorCode::Object(ObjectErr::new(
                &KEY_LENGTH,
                Span::new(0, 14),
                ObjectErrorCode::Type { expected_type: "usize", value_span: Span { start: 10, end: 12 } }
            ))
        ))
    );
    assert_eq!(
        Stream::parse(b"<</Length 10>>\nstream\n0123456\nendstream", 0, &InUseObjects::default()),
        Err(failure(b"dstream", "Stream", ParseErrorCode::MissingClosing(ErrorKind::Tag)))
    );
    assert_eq!(
        Stream::parse(b"<</Length 5>>\nstream\n0123456789\nendstream", 0, &InUseObjects::default()),
        Err(failure(b"56789\nendstream", "Stream", ParseErrorCode::MissingClosing(ErrorKind::Tag)))
    );
}

#[test]
fn stream_data_and_accessors() {
    let buffer = b"<</Length 5>>\r\nstream\r\nHello\r\nendstream";
    let stream = Stream::parse(buffer, 0, &InUseObjects::default()).unwrap();
    assert_eq!(stream.data, b"Hello");
    assert_eq!(stream.span(), Span::new(0, buffer.len()));
    let value = IndirectValue::parse(buffer, 0, &InUseObjects::default()).unwrap();
    assert!(value.as_stream().is_some());
    assert!(value.as_direct().is_none());
    assert_eq!(value.span(), Span::new(0, buffer.len()));
}
