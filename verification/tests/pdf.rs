use pdf2::object::error::ObjectErr;
use pdf2::object::error::ObjectErrorCode;
use pdf2::object::indirect::object::IndirectObject;
use pdf2::object::indirect::stream::Stream;
use pdf2::object::indirect::stream::KEY_LENGTH;
use pdf2::parse::error::ParseErr;
use pdf2::parse::error::ParseErrorCode;
use pdf2::parse::Span;
use pdf2::pdf::error::ObjectRecoverable;
use pdf2::pdf::objects::InUseObjects;
use pdf2::pdf::ObjectSpecifier;
use pdf2::pdf::spans::join_spans;
use pdf2::pdf::PdfBuilder;

fn offset_of(buffer: &[u8], pattern: &[u8]) -> usize {
    buffer.windows(pattern.len()).position(|w| w == pattern).unwrap()
}

fn objects_of<'a>(sources: &[&'a [u8]]) -> InUseObjects<'a> {
    let mut objects = InUseObjects::default();
    for source in sources {
        let object = IndirectObject::parse(source, 0, &InUseObjects::default()).unwrap();
        let key = (object.id.object_number, object.id.generation_number);
        assert!(objects.insert(key, (object, 0)).is_none());
    }
    objects
}

fn length_error(dictionary_end: usize, code: ObjectErrorCode) -> ParseErrorCode {
    ParseErrorCode::Object(ObjectErr::new(&KEY_LENGTH, Span::new(0, dictionary_end), code))
}

#[test]
fn in_use_objects_insert_get() {
    let mut objects = InUseObjects::new();
    assert_eq!(objects.len(), 0);
    assert!(objects.get(1, 0).is_none());
    let first = IndirectObject::parse(b"1 0 obj 5 endobj", 0, &InUseObjects::default()).unwrap();
    let second = IndirectObject::parse(b"1 0 obj 6 endobj", 0, &InUseObjects::default()).unwrap();
    assert!(objects.insert((1, 0), (first, 0)).is_none());
    assert_eq!(objects.len(), 1);
    assert_eq!(objects.get(1, 0).unwrap().0.value.as_direct().unwrap().as_u64(), Some(5));
    assert!(objects.get(1, 1).is_none());
    let (replaced, increment) = objects.insert((1, 0), (second, 1)).unwrap();
    assert_eq!(replaced.value.as_direct().unwrap().as_u64(), Some(5));
    assert_eq!(increment, 0);
    assert_eq!(objects.len(), 1);
    assert_eq!(objects.get(1, 0).unwrap().1, 1);
    assert_eq!(objects.get(1, 0).unwrap().0.value.as_direct().unwrap().as_u64(), Some(6));
}

#[test]
fn resolve_chain() {
    let objects = objects_of(&[b"2 0 obj 3 0 R endobj", b"3 0 obj 7 endobj", b"4 0 obj 5 0 R endobj", b"5 0 obj 4 0 R endobj"]);
    assert_eq!(objects.resolve(2, 0).unwrap().as_u64(), Some(7));
    assert_eq!(objects.resolve(3, 0).unwrap().as_u64(), Some(7));
    assert_eq!(objects.resolve(9, 0), Err(ObjectErrorCode::MissingReferencedObject(9, 0)));
    assert_eq!(objects.resolve(4, 0), Err(ObjectErrorCode::CyclicReference(4, 0)));
}

#[test]
fn stream_length_reference() {
    let buffer = b"<</Length 2 0 R>>\nstream\nabc\nendstream";
    let objects = objects_of(&[b"2 0 obj 3 endobj"]);
    let stream = Stream::parse(buffer, 0, &objects).unwrap();
    assert_eq!(stream.data, b"abc");
    assert_eq!(stream.span, Span::new(0, buffer.len()));
}

#[test]
fn stream_length_reference_invalid() {
    let buffer = b"<</Length 2 0 R>>\nstream\nabc\nendstream";
    let missing = Stream::parse(buffer, 0, &InUseObjects::default());
    assert_eq!(
        missing.unwrap_err().code(),
        length_error(17, ObjectErrorCode::MissingReferencedObject(2, 0))
    );

    let to_stream = objects_of(&[b"2 0 obj <</Length 0>> stream\n\nendstream endobj"]);
    assert_eq!(
        Stream::parse(buffer, 0, &to_stream).unwrap_err().code(),
        length_error(17, ObjectErrorCode::ReferenceToStream(2, 0))
    );

    let cyclic = objects_of(&[b"2 0 obj 2 0 R endobj"]);
    assert_eq!(
        Stream::parse(buffer, 0, &cyclic).unwrap_err().code(),
        length_error(17, ObjectErrorCode::CyclicReference(2, 0))
    );

    let negative = objects_of(&[b"2 0 obj -3 endobj"]);
    assert_eq!(
        Stream::parse(buffer, 0, &negative).unwrap_err().code(),
        length_error(
            17,
            ObjectErrorCode::Type { expected_type: "usize", value_span: Span::new(8, 2) }
        )
    );
}

const FILE: &[u8] = b"%PDF-1.7\n1 0 obj\n<</Length 2 0 R>>\nstream\nabc\nendstream\nendobj\n2 0 obj\n3\nendobj\n3 0 obj\n(three)\nendobj\n2 0 obj\n4\nendobj\n";

fn specifiers(list: &[ObjectSpecifier]) -> Vec<(ObjectSpecifier, Option<ParseErr<'static>>)> {
    list.iter().map(|sp| (*sp, None)).collect()
}

#[test]
fn parse_objects_resolves_in_rounds() {
    let builder = PdfBuilder::new(FILE.to_vec());
    let first = offset_of(FILE, b"1 0 obj") as u64;
    let second = offset_of(FILE, b"2 0 obj") as u64;
    let mut errors = Vec::new();
    let (objects, overridden) = builder.parse_objects(specifiers(&[(1, 0, 0, first), (2, 0, 0, second)]), &mut errors);
    assert!(errors.is_empty());
    assert!(overridden.is_empty());
    assert_eq!(objects.len(), 2);
    let stream = objects.get(1, 0).unwrap().0.value.as_stream().unwrap();
    assert_eq!(stream.data, b"abc");
    assert_eq!(objects.get(2, 0).unwrap().0.value.as_direct().unwrap().as_u64(), Some(3));
}

#[test]
fn parse_objects_unresolved() {
    let builder = PdfBuilder::new(FILE.to_vec());
    let first = offset_of(FILE, b"1 0 obj") as u64;
    let third = offset_of(FILE, b"3 0 obj") as u64;
    let mut errors = Vec::new();
    let (objects, overridden) = builder.parse_objects(specifiers(&[(1, 0, 0, first), (3, 0, 0, third)]), &mut errors);
    assert!(overridden.is_empty());
    assert_eq!(objects.len(), 1);
    assert!(objects.get(3, 0).is_some());
    assert_eq!(errors.len(), 1);
    match &errors[0] {
        ObjectRecoverable::Parse(1, 0, 0, offset, buffer, ParseErr::Failure(_)) => {
            assert_eq!(*offset, first);
            assert_eq!(*buffer, FILE);
        }
        other => panic!("unexpected error: {:?}", other),
    }
}

#[test]
fn parse_objects_out_of_bounds_and_mismatched() {
    let builder = PdfBuilder::new(FILE.to_vec());
    let third = offset_of(FILE, b"3 0 obj") as u64;
    let len = FILE.len();
    let mut errors = Vec::new();
    let (objects, overridden) = builder.parse_objects(
        specifiers(&[(4, 0, 0, 0), (5, 0, 0, len as u64), (6, 1, 0, third)]),
        &mut errors,
    );
    assert!(overridden.is_empty());
    assert_eq!(objects.len(), 1);
    assert!(objects.get(6, 1).is_some());
    assert_eq!(errors.len(), 3);
    assert_eq!(errors[0], ObjectRecoverable::OutOfBounds(4, 0, 0, len));
    assert_eq!(errors[1], ObjectRecoverable::OutOfBounds(5, 0, len as u64, len));
    match &errors[2] {
        ObjectRecoverable::MismatchedId(6, 1, id) => {
            assert_eq!((id.object_number, id.generation_number), (3, 0));
        }
        other => panic!("unexpected error: {:?}", other),
    }
}

#[test]
fn parse_objects_overridden() {
    let builder = PdfBuilder::new(FILE.to_vec());
    let second = offset_of(FILE, b"2 0 obj") as u64;
    let last = offset_of(FILE, b"2 0 obj\n4") as u64;
    for list in [[(2, 0, 0, second), (2, 0, 1, last)], [(2, 0, 1, last), (2, 0, 0, second)]] {
        let mut errors = Vec::new();
        let (objects, overridden) = builder.parse_objects(specifiers(&list), &mut errors);
        assert!(errors.is_empty());
        assert_eq!(objects.len(), 1);
        let (kept, increment) = objects.get(2, 0).unwrap();
        assert_eq!(*increment, 1);
        assert_eq!(kept.value.as_direct().unwrap().as_u64(), Some(4));
        assert_eq!(overridden.len(), 1);
        assert_eq!(overridden[0].1, 0);
        assert_eq!(overridden[0].0.value.as_direct().unwrap().as_u64(), Some(3));
    }
}

#[test]
fn parse_objects_accounts_for_each_specifier() {
    let builder = PdfBuilder::new(FILE.to_vec());
    let first = offset_of(FILE, b"1 0 obj") as u64;
    let second = offset_of(FILE, b"2 0 obj") as u64;
    let third = offset_of(FILE, b"3 0 obj") as u64;
    let last = offset_of(FILE, b"2 0 obj\n4") as u64;
    let list = [(1, 0, 0, first), (2, 0, 0, second), (3, 1, 0, third), (2, 0, 1, last), (7, 0, 0, 0)];
    let mut errors = Vec::new();
    let (objects, overridden) = builder.parse_objects(specifiers(&list), &mut errors);
    let counted = errors.iter().filter(|e| !matches!(e, ObjectRecoverable::MismatchedId(..))).count();
    assert_eq!(objects.len() + overridden.len() + counted, list.len());
}

fn span(start: usize, end: usize) -> Span {
    Span { start, end }
}

#[test]
fn join_spans_overlapping_and_gaps() {
    let spans = vec![span(5, 8), span(0, 3), span(2, 4), span(10, 12)];
    let (parsed, not_parsed) = join_spans(spans, 15);
    assert_eq!(parsed, vec![span(0, 4), span(5, 8), span(10, 12)]);
    assert_eq!(not_parsed, vec![span(4, 5), span(8, 10), span(12, 15)]);
}

#[test]
fn join_spans_touching_and_whole() {
    let (parsed, not_parsed) = join_spans(vec![span(3, 5), span(0, 3)], 5);
    assert_eq!(parsed, vec![span(0, 5)]);
    assert!(not_parsed.is_empty());
    let (parsed, not_parsed) = join_spans(Vec::new(), 10);
    assert!(parsed.is_empty());
    assert_eq!(not_parsed, vec![span(0, 10)]);
}

#[test]
fn join_spans_partition_buffer() {
    let spans = vec![span(7, 9), span(1, 2), span(1, 4), span(12, 12), span(15, 20), span(3, 6)];
    let len = 20;
    let (parsed, not_parsed) = join_spans(spans.clone(), len);
    let holds = |list: &[Span], x: usize| list.iter().any(|s| s.start <= x && x < s.end);
    for x in 0..len {
        assert_eq!(holds(&parsed, x), holds(&spans, x));
        assert_eq!(holds(&not_parsed, x), !holds(&spans, x));
    }
}
