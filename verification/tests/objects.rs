use pdf2::object::direct::array::Array;
use pdf2::object::direct::boolean::Boolean;
use pdf2::object::direct::dictionary::Dictionary;
use pdf2::object::direct::name::Name;
use pdf2::object::direct::null::Null;
use pdf2::object::direct::numeric::integer::Integer;
use pdf2::object::direct::numeric::real_number::Real;
use pdf2::object::direct::numeric::Numeric;
use pdf2::object::direct::string::hexadecimal::Hexadecimal;
use pdf2::object::direct::string::literal::not_parentheses;
use pdf2::object::direct::string::literal::Literal;
use pdf2::object::direct::string::String_;
use pdf2::object::direct::DirectValue;
use pdf2::parse::error::ParseErr;
use pdf2::parse::error::ParseError;
use pdf2::parse::error::ParseErrorCode;
use pdf2::parse::num::Decimal;
use pdf2::parse::ErrorKind;
use pdf2::parse::Span;
use pdf2::process::escape::error::EscapeErr;
use pdf2::process::escape::error::EscapeErrorCode;

fn recoverable<'a>(buffer: &'a [u8], object: &'static str, code: ParseErrorCode) -> ParseErr<'a> {
    ParseErr::Recoverable(ParseError::new(buffer, object, code))
}

fn failure<'a>(buffer: &'a [u8], object: &'static str, code: ParseErrorCode) -> ParseErr<'a> {
    ParseErr::Failure(ParseError::new(buffer, object, code))
}

fn decimal(negative: bool, integer: i64, fraction: u64, fraction_digits: u64) -> Decimal {
    Decimal { negative, integer, fraction, fraction_digits }
}

/// The floating-point value that a decimal number stands for.
fn decimal_f64(d: Decimal) -> f64 {
    let fraction = d.fraction as f64 / 10f64.powi(d.fraction_digits as i32);
    if d.negative {
        d.integer as f64 - fraction
    } else {
        d.integer as f64 + fraction
    }
}

#[test]
fn boolean_valid() {
    assert_eq!(Boolean::parse(b"true", 0).unwrap(), Boolean::new(true, Span::new(0, 4)));
    assert_eq!(Boolean::parse(b"true<", 0).unwrap(), Boolean::new(true, Span::new(0, 4)));
    assert_eq!(Boolean::parse(b"true    <<", 0).unwrap(), Boolean::new(true, Span::new(0, 4)));
    assert_eq!(Boolean::parse(b"false<", 0).unwrap(), Boolean::new(false, Span::new(0, 5)));
    assert_eq!(Boolean::parse(b"false .", 0).unwrap(), Boolean::new(false, Span::new(0, 5)));
    assert_eq!(Boolean::parse(b"true false", 0).unwrap(), Boolean::new(true, Span::new(0, 4)));
    assert_eq!(Boolean::parse(b"false true", 0).unwrap(), Boolean::new(false, Span::new(0, 5)));
    assert_eq!(Boolean::parse(b"truefalse", 0).unwrap(), Boolean::new(true, Span::new(0, 4)));
    assert_eq!(Boolean::parse(b"falsetrue", 0).unwrap(), Boolean::new(false, Span::new(0, 5)));
}

#[test]
fn boolean_invalid() {
    assert_eq!(
        Boolean::parse(b"tr", 0),
        Err(recoverable(b"tr", "Boolean", ParseErrorCode::NotFound(ErrorKind::Tag)))
    );
}

#[test]
fn null_valid() {
    assert_eq!(Null::parse(b"null", 0).unwrap(), Null::new(Span::new(0, 4)));
    assert_eq!(Null::parse(b"null ", 0).unwrap(), Null::new(Span::new(0, 4)));
    assert_eq!(Null::parse(b"null    r", 0).unwrap(), Null::new(Span::new(0, 4)));
    assert_eq!(Null::parse(b"nulltrue", 0).unwrap(), Null::new(Span::new(0, 4)));
}

#[test]
fn null_invalid() {
    assert_eq!(
        Null::parse(b"nul", 0),
        Err(recoverable(b"nul", "Null", ParseErrorCode::NotFound(ErrorKind::Tag)))
    );
}

#[test]
fn name_valid() {
    assert_eq!(Name::parse(b"/", 0).unwrap(), Name::new(b"", Span::new(0, 1)));
    assert_eq!(Name::parse(b"/ABC123", 0).unwrap(), Name::new(b"ABC123", Span::new(0, 7)));
    assert_eq!(Name::parse(b"/A_B+C^1!2@3", 0).unwrap(), Name::new(b"A_B+C^1!2@3", Span::new(0, 12)));
    assert_eq!(Name::parse(b"/123", 0).unwrap(), Name::new(b"123", Span::new(0, 4)));
    assert_eq!(Name::parse(b"/.@domain", 0).unwrap(), Name::new(b".@domain", Span::new(0, 9)));
    assert_eq!(Name::parse(b"/#41#20Name", 0).unwrap(), Name::new(b"A Name", Span::new(0, 11)));
    assert_eq!(Name::parse(b"/#28Name#29", 0).unwrap(), Name::new(b"(Name)", Span::new(0, 11)));
}

#[test]
fn name_invalid() {
    assert_eq!(
        Name::parse(b"Name", 0),
        Err(recoverable(b"Name", "Name", ParseErrorCode::NotFound(ErrorKind::Char)))
    );
}

#[test]
fn name_escape_valid() {
    assert_eq!(Name::parse(b"/#41#20Name", 0).unwrap().escape().unwrap(), b"A Name");
    assert_eq!(Name::parse(b"/#28Name#29", 0).unwrap().escape().unwrap(), b"(Name)");
    assert_eq!(Name::parse(b"/#23Name", 0).unwrap().escape().unwrap(), b"#Name");
}

#[test]
fn name_escape_invalid() {
    let object = Name::parse(b"/Name#_", 0).unwrap();
    assert_eq!(object.escape(), Err(EscapeErr::new(object.value, EscapeErrorCode::InvalidHexDigit('_'))));
    let object = Name::parse(b"/Name#7_", 0).unwrap();
    assert_eq!(object.escape(), Err(EscapeErr::new(object.value, EscapeErrorCode::IncompleteHexCode(7, '_'))));
    let object = Name::parse(b"/Name#", 0).unwrap();
    assert_eq!(object.escape(), Err(EscapeErr::new(object.value, EscapeErrorCode::TraillingNumberSign)));
    let object = Name::parse(b"/Name#7", 0).unwrap();
    assert_eq!(object.escape(), Err(EscapeErr::new(object.value, EscapeErrorCode::TraillingHexDigit(7))));
}

#[test]
fn numeric_integer_valid() {
    assert_eq!(Integer::parse(b"0", 0).unwrap(), Integer::new(0, Span::new(0, 1)));
    assert_eq!(Integer::parse(b"-0", 0).unwrap(), Integer::new(0, Span::new(0, 2)));
    assert_eq!(Integer::parse(b"+1", 0).unwrap(), Integer::new(1, Span::new(0, 2)));
    assert_eq!(Integer::parse(b"-1", 0).unwrap(), Integer::new(-1, Span::new(0, 2)));
    assert_eq!(Integer::parse(b"1", 0).unwrap(), Integer::new(1, Span::new(0, 1)));
    assert_eq!(
        Integer::parse(b"-170141183460469231731687303715884105728<", 0).unwrap(),
        Integer::new(i128::MIN, Span::new(0, 40))
    );
    assert_eq!(
        Integer::parse(b"170141183460469231731687303715884105727<", 0).unwrap(),
        Integer::new(i128::MAX, Span::new(0, 39))
    );
    assert_eq!(Integer::parse(b"-1 2", 0).unwrap(), Integer::new(-1, Span::new(0, 2)));
}

#[test]
fn numeric_integer_invalid() {
    assert_eq!(Integer::parse(b"+", 0), Err(recoverable(b"", "Integer", ParseErrorCode::NotFound(ErrorKind::Digit))));
    assert_eq!(Integer::parse(b"- <", 0), Err(recoverable(b" <", "Integer", ParseErrorCode::NotFound(ErrorKind::Digit))));
    assert_eq!(Integer::parse(b"+<", 0), Err(recoverable(b"<", "Integer", ParseErrorCode::NotFound(ErrorKind::Digit))));
    assert_eq!(Integer::parse(b"<", 0), Err(recoverable(b"<", "Integer", ParseErrorCode::NotFound(ErrorKind::Digit))));
    assert_eq!(Integer::parse(b"-1.0 ", 0), Err(recoverable(b"-1.0 ", "Integer", ParseErrorCode::WrongObjectType)));
    assert_eq!(
        Integer::parse(b"-170141183460469231731687303715884105729<", 0),
        Err(recoverable(b"-170141183460469231731687303715884105729", "Integer", ParseErrorCode::ParseIntError))
    );
    assert_eq!(
        Integer::parse(b"+170141183460469231731687303715884105728<", 0),
        Err(recoverable(b"+170141183460469231731687303715884105728", "Integer", ParseErrorCode::ParseIntError))
    );
}

const BIG_NEGATIVE: &[u8] = b"-9223372036854775808.9999999999999999999999999999999999999999999999999999999999999999999999999999999999999999999999999999999999999999999999999999999999999999999999999999999999999999999999999999999999999999999999999999999999999999999999999999999999999999999999999999999999999999999999999999999999999999999999999999";
const BIG_POSITIVE: &[u8] = b"9223372036854775807.9999999999999999999999999999999999999999999999999999999999999999999999999999999999999999999999999999999999999999999999999999999999999999999999999999999999999999999999999999999999999999999999999999999999999999999999999999999999999999999999999999999999999999999999999999999999999999999999999999";

#[test]
fn numeric_real_valid() {
    let real = Real::parse(b"-0", 0).unwrap();
    assert_eq!(real, Real::new(decimal(true, 0, 0, 0), Span::new(0, 2)));
    assert_eq!(decimal_f64(real.value), 0.0);
    let real = Real::parse(b"0.0", 0).unwrap();
    assert_eq!(real, Real::new(decimal(false, 0, 0, 1), Span::new(0, 3)));
    assert_eq!(decimal_f64(real.value), 0.0);
    let real = Real::parse(b"-.0001", 0).unwrap();
    assert_eq!(real, Real::new(decimal(true, 0, 1, 4), Span::new(0, 6)));
    assert_eq!(decimal_f64(real.value), -0.0001);
    let real = Real::parse(b"1. 2", 0).unwrap();
    assert_eq!(real, Real::new(decimal(false, 1, 0, 0), Span::new(0, 2)));
    assert_eq!(decimal_f64(real.value), 1.0);
    let real = Real::parse(b"+1 .0 2.0", 0).unwrap();
    assert_eq!(real, Real::new(decimal(false, 1, 0, 0), Span::new(0, 2)));
    let real = Real::parse(BIG_NEGATIVE, 0).unwrap();
    assert_eq!(real, Real::new(decimal(true, i64::MIN, 9999999999999999999, 19), Span::new(0, 313)));
    assert_eq!(decimal_f64(real.value), -9223372036854775808.9999999999999999999);
    let real = Real::parse(BIG_POSITIVE, 0).unwrap();
    assert_eq!(real, Real::new(decimal(false, i64::MAX, 9999999999999999999, 19), Span::new(0, 312)));
    assert_eq!(decimal_f64(real.value), 9223372036854775807.9999999999999999999);
}

#[test]
fn numeric_real_invalid() {
    assert_eq!(Real::parse(b"+.", 0), Err(recoverable(b"", "Real", ParseErrorCode::NotFound(ErrorKind::Digit))));
    assert_eq!(Real::parse(b" <", 0), Err(recoverable(b" <", "Real", ParseErrorCode::NotFound(ErrorKind::Char))));
    assert_eq!(Real::parse(b"+.<", 0), Err(recoverable(b"<", "Real", ParseErrorCode::NotFound(ErrorKind::Digit))));
    let buffer: &[u8] = b"-179769313486231580000000000000000000000000000000000000000000000000000000000000000000000000000000000000000000000000000000000000000000000000000000000000000000000000000000000000000000000000000000000000000000000000000000000000000000000000000000000000000000000000000000000000000000000000000000000000000000000000000";
    assert_eq!(Real::parse(buffer, 0), Err(failure(buffer, "Real", ParseErrorCode::ParseFloatError)));
    let buffer: &[u8] = b"179769313486231580000000000000000000000000000000000000000000000000000000000000000000000000000000000000000000000000000000000000000000000000000000000000000000000000000000000000000000000000000000000000000000000000000000000000000000000000000000000000000000000000000000000000000000000000000000000000000000000000000";
    assert_eq!(Real::parse(buffer, 0), Err(failure(buffer, "Real", ParseErrorCode::ParseFloatError)));
    let buffer: &[u8] = b"-179769313486231589999999999999999999999999999999999999999999999999999999999999999999999999999999999999999999999999999999999999999999999999999999999999999999999999999999999999999999999999999999999999999999999999999999999999999999999999999999999999999999999999999999999999999999999999999999999999999999999999999";
    assert_eq!(Real::parse(buffer, 0), Err(failure(buffer, "Real", ParseErrorCode::ParseFloatError)));
    let buffer: &[u8] = b"179769313486231589999999999999999999999999999999999999999999999999999999999999999999999999999999999999999999999999999999999999999999999999999999999999999999999999999999999999999999999999999999999999999999999999999999999999999999999999999999999999999999999999999999999999999999999999999999999999999999999999999";
    assert_eq!(Real::parse(buffer, 0), Err(failure(buffer, "Real", ParseErrorCode::ParseFloatError)));
}

#[test]
fn numeric_valid() {
    assert_eq!(Numeric::parse(b"0", 0).unwrap(), Numeric::Integer(Integer::new(0, Span::new(0, 1))));
    assert_eq!(Numeric::parse(b"-0", 0).unwrap(), Numeric::Integer(Integer::new(0, Span::new(0, 2))));
    assert_eq!(Numeric::parse(b"+1", 0).unwrap(), Numeric::Integer(Integer::new(1, Span::new(0, 2))));
    assert_eq!(Numeric::parse(b"-1", 0).unwrap(), Numeric::Integer(Integer::new(-1, Span::new(0, 2))));
    assert_eq!(Numeric::parse(b"1", 0).unwrap(), Numeric::Integer(Integer::new(1, Span::new(0, 1))));
    assert_eq!(
        Numeric::parse(b"-170141183460469231731687303715884105728<", 0).unwrap(),
        Numeric::Integer(Integer::new(i128::MIN, Span::new(0, 40)))
    );
    assert_eq!(
        Numeric::parse(b"170141183460469231731687303715884105727<", 0).unwrap(),
        Numeric::Integer(Integer::new(i128::MAX, Span::new(0, 39)))
    );
    assert_eq!(Numeric::parse(b"-1 2", 0).unwrap(), Numeric::Integer(Integer::new(-1, Span::new(0, 2))));
    assert_eq!(Numeric::parse(b"0.0", 0).unwrap(), Numeric::Real(Real::new(decimal(false, 0, 0, 1), Span::new(0, 3))));
    assert_eq!(Numeric::parse(b"-0.0", 0).unwrap(), Numeric::Real(Real::new(decimal(true, 0, 0, 1), Span::new(0, 4))));
    assert_eq!(Numeric::parse(b"-.0001", 0).unwrap(), Numeric::Real(Real::new(decimal(true, 0, 1, 4), Span::new(0, 6))));
    assert_eq!(Numeric::parse(b"1. 2", 0).unwrap(), Numeric::Real(Real::new(decimal(false, 1, 0, 0), Span::new(0, 2))));
    assert_eq!(Numeric::parse(b"+1. .0 2.0", 0).unwrap(), Numeric::Real(Real::new(decimal(false, 1, 0, 0), Span::new(0, 3))));
    assert_eq!(
        Numeric::parse(BIG_NEGATIVE, 0).unwrap(),
        Numeric::Real(Real::new(decimal(true, i64::MIN, 9999999999999999999, 19), Span::new(0, 313)))
    );
    assert_eq!(
        Numeric::parse(BIG_POSITIVE, 0).unwrap(),
        Numeric::Real(Real::new(decimal(false, i64::MAX, 9999999999999999999, 19), Span::new(0, 312)))
    );
}

#[test]
fn numeric_invalid() {
    assert_eq!(Numeric::parse(b" <", 0), Err(recoverable(b" <", "Numeric", ParseErrorCode::NotFoundUnion)));
    assert_eq!(Numeric::parse(b"+<", 0), Err(recoverable(b"+<", "Numeric", ParseErrorCode::NotFoundUnion)));
    assert_eq!(Numeric::parse(b"+.", 0), Err(recoverable(b"+.", "Numeric", ParseErrorCode::NotFoundUnion)));
    let buffer: &[u8] = b"-170141183460469231731687303715884105729";
    assert_eq!(Numeric::parse(buffer, 0), Err(failure(buffer, "Real", ParseErrorCode::ParseFloatError)));
    let buffer: &[u8] = b"170141183460469231731687303715884105728";
    assert_eq!(Numeric::parse(buffer, 0), Err(failure(buffer, "Real", ParseErrorCode::ParseFloatError)));
}

#[test]
fn string_hexadecimal_valid() {
    assert_eq!(
        Hexadecimal::parse(b"<41 20 48 65 78 61 64 65 63 69 6D 61 6C 20 53 74 72 69 6E 67>", 0).unwrap(),
        Hexadecimal::new(b"412048657861646563696D616C20537472696E67", Span::new(0, 61))
    );
    assert_eq!(Hexadecimal::parse(b"<41 2>", 0).unwrap(), Hexadecimal::new(b"4120", Span::new(0, 6)));
}

#[test]
fn string_hexadecimal_invalid() {
    assert_eq!(
        Hexadecimal::parse(b"<412048657861646563696D616C20537472696E67", 0),
        Err(failure(b"", "Hexadecimal", ParseErrorCode::MissingClosing(ErrorKind::Char)))
    );
    assert_eq!(
        Hexadecimal::parse(b"<<412048657861646563696D616C20537472696E67>", 0),
        Err(failure(
            b"<412048657861646563696D616C20537472696E67>",
            "Hexadecimal",
            ParseErrorCode::MissingClosing(ErrorKind::Char)
        ))
    );
    assert_eq!(
        Hexadecimal::parse(b"412048657861646563696D616C20537472696E67>", 0),
        Err(recoverable(
            b"412048657861646563696D616C20537472696E67>",
            "Hexadecimal",
            ParseErrorCode::NotFound(ErrorKind::Char)
        ))
    );
    assert_eq!(
        Hexadecimal::parse(b"<412048657861646563696D616C20537472696E67<", 0),
        Err(failure(b"<", "Hexadecimal", ParseErrorCode::MissingClosing(ErrorKind::Char)))
    );
    assert_eq!(
        Hexadecimal::parse(b"<412048657861646563696D616C20537472696E67XX>", 0),
        Err(failure(b"XX>", "Hexadecimal", ParseErrorCode::MissingClosing(ErrorKind::Char)))
    );
}

#[test]
fn string_hexadecimal_escape() {
    let hexadecimal = Hexadecimal::new(b"412048657861646563696D616C20537472696E67", Span::new(0, 61));
    assert_eq!(hexadecimal.escape().unwrap(), b"A Hexadecimal String");
    let hexadecimal = Hexadecimal::new(b"412048", Span::new(0, 6));
    assert_eq!(hexadecimal.escape().unwrap(), b"\x41\x20\x48");
    let hexadecimal = Hexadecimal::new(b"41204", Span::new(0, 5));
    assert_eq!(hexadecimal.escape().unwrap(), b"\x41\x20\x40");
    let upper = Hexadecimal::new(b"412048657861646563696D616C20537472696E67", Span::new(0, 61));
    let lower = Hexadecimal::new(b"412048657861646563696d616c20537472696e67", Span::new(0, 61));
    assert_eq!(upper, lower);
}

#[test]
fn string_literal_valid() {
    assert_eq!(
        Literal::parse(b"(A literal string)", 0).unwrap(),
        Literal::new(b"A literal string", Span::new(0, 18))
    );
    assert_eq!(
        Literal::parse(b"(A literal\nstring)", 0).unwrap(),
        Literal::new(br"A literal\nstring", Span::new(0, 18))
    );
    assert_eq!(
        Literal::parse(br"({A \(literal string!()} with unbalanced escaped parentheses)", 0).unwrap(),
        Literal::new(br"{A \(literal string!()} with unbalanced escaped parentheses", Span::new(0, 61))
    );
    assert_eq!(
        Literal::parse(b"(((A))literal(string)(()))", 0).unwrap(),
        Literal::new(b"((A))literal(string)(())", Span::new(0, 26))
    );
}

#[test]
fn string_literal_invalid() {
    assert_eq!(
        Literal::parse(b"(Unbalanced parentheses", 0),
        Err(failure(b"", "Literal", ParseErrorCode::MissingClosing(ErrorKind::Char)))
    );
    assert_eq!(
        Literal::parse(br"(Escaped parentheses\)", 0),
        Err(failure(b"", "Literal", ParseErrorCode::MissingClosing(ErrorKind::Char)))
    );
    assert_eq!(
        Literal::parse(b"Unbalanced parentheses)", 0),
        Err(recoverable(b"Unbalanced parentheses)", "Literal", ParseErrorCode::NotFound(ErrorKind::Char)))
    );
}

#[test]
fn string_literal_escape() {
    assert_eq!(
        Literal::new(b"A \\\nliteral \\\nstring", Span::new(0, 21)),
        Literal::new(b"A literal string", Span::new(0, 21))
    );
    assert_eq!(
        Literal::new(b"A literal string\n", Span::new(0, 17)),
        Literal::new(br"A literal string\n", Span::new(0, 17))
    );
    assert_eq!(
        Literal::new(b"A literal string\r\n", Span::new(0, 19)),
        Literal::new(b"A literal string\n", Span::new(0, 19))
    );
    assert_eq!(
        Literal::new(br"Unsupported \ escape.", Span::new(0, 22)),
        Literal::new(b"Unsupported  escape.", Span::new(0, 22))
    );
    assert_eq!(
        Literal::new(br"Unsupported escape \z.", Span::new(0, 22)),
        Literal::new(b"Unsupported escape z.", Span::new(0, 22))
    );
    assert_eq!(Literal::new(br"\101", Span::new(0, 4)), Literal::new(b"A", Span::new(0, 4)));
    assert_eq!(Literal::new(br"\377", Span::new(0, 4)), Literal::new(b"\xFF", Span::new(0, 4)));
    assert_eq!(Literal::new(br"\77", Span::new(0, 3)), Literal::new(b"?", Span::new(0, 3)));
    assert_eq!(Literal::new(br"\077", Span::new(0, 4)), Literal::new(b"?", Span::new(0, 4)));
    assert_eq!(
        Literal::new(
            br"\124\150\151\163\40\151\163\40\141\40\163\164\162\151\156\147\40\151\156\40\157\143\164\141\154\40\162\145\160\162\145\163\145\156\164\141\164\151\157\156\56",
            Span::new(0, 77)
        ),
        Literal::new(b"This is a string in octal representation.", Span::new(0, 77))
    );
}

#[test]
fn string_valid() {
    let literal = String_::parse(b"(A Hexadecimal String)", 0).unwrap();
    assert_eq!(literal.span().end, 22);
    assert_eq!(literal, String_::Literal(Literal::new(b"A Hexadecimal String", Span::new(0, 22))));
    let hexadecimal = String_::parse(b"<412048657861646563696D616C20537472696E67>", 0).unwrap();
    assert_eq!(hexadecimal.span().end, 42);
    assert_eq!(hexadecimal, String_::Literal(Literal::new(b"A Hexadecimal String", Span::new(0, 22))));
    assert_eq!(literal, hexadecimal);
    assert!(literal.as_literal().is_some());
    assert!(hexadecimal.as_hexadecimal().is_some());
}

#[test]
fn array_valid() {
    let buffer = b"[1 1.0 true null(A literal string)/Name]";
    let expected = Array::new(
        vec![
            DirectValue::Numeric(Numeric::Integer(Integer::new(1, Span::new(1, 1)))),
            DirectValue::Numeric(Numeric::Real(Real::new(decimal(false, 1, 0, 1), Span::new(3, 3)))),
            DirectValue::Boolean(Boolean::new(true, Span::new(7, 4))),
            DirectValue::Null(Null::new(Span::new(12, 4))),
            DirectValue::String(String_::Literal(Literal::new(b"A literal string", Span::new(16, 18)))),
            DirectValue::Name(Name::new(b"Name", Span::new(34, 5))),
        ],
        Span::new(0, 40),
    );
    assert_eq!(Array::parse(buffer, 0).unwrap(), expected);

    assert_eq!(Array::parse(b"[]", 0).unwrap(), Array::new(vec![], Span::new(0, 2)));

    let row = |values: [i128; 3], start: usize| {
        DirectValue::Array(Array::new(
            values
                .iter()
                .enumerate()
                .map(|(i, &v)| DirectValue::Numeric(Numeric::Integer(Integer::new(v, Span::new(start + 1 + 2 * i, 1)))))
                .collect(),
            Span::new(start, 7),
        ))
    };
    let expected = Array::new(vec![row([1, 2, 3], 1), row([4, 5, 6], 8), row([7, 8, 9], 15)], Span::new(0, 23));
    assert_eq!(Array::parse(b"[[1 2 3][4 5 6][7 8 9]]", 0).unwrap(), expected);

    let buffer = b"[<CD74097EBFE5D8A25FE8A229299730FA><CD74097EBFE5D8A25FE8A229299730FA>]";
    let expected = Array::new(
        vec![
            DirectValue::String(String_::Hexadecimal(Hexadecimal::new(
                b"CD74097EBFE5D8A25FE8A229299730FA",
                Span::new(1, 34),
            ))),
            DirectValue::String(String_::Hexadecimal(Hexadecimal::new(
                b"CD74097EBFE5D8A25FE8A229299730FA",
                Span::new(35, 34),
            ))),
        ],
        Span::new(0, 70),
    );
    assert_eq!(Array::parse(buffer, 0).unwrap(), expected);
}

#[test]
fn array_invalid() {
    assert_eq!(
        Array::parse(b"1 1.0 true null(A literal string)/Name", 0),
        Err(recoverable(b"1 1.0 true null(A literal string)/Name", "Array", ParseErrorCode::NotFound(ErrorKind::Char)))
    );
    assert_eq!(
        Array::parse(b"[1 1.0 true null(A literal string)/Name", 0),
        Err(failure(b"", "Array", ParseErrorCode::RecMissingClosing(Box::new(ParseErrorCode::NotFoundUnion))))
    );
}

#[test]
fn dictionary_invalid() {
    assert_eq!(
        Dictionary::parse(b"/Type /Type1", 0),
        Err(recoverable(b"/Type /Type1", "Dictionary", ParseErrorCode::NotFound(ErrorKind::Tag)))
    );
    assert_eq!(
        Dictionary::parse(b"<< /Type /Type1", 0),
        Err(failure(
            b"",
            "Dictionary",
            ParseErrorCode::RecMissingClosing(Box::new(ParseErrorCode::NotFound(ErrorKind::Char)))
        ))
    );
    assert_eq!(
        Dictionary::parse(b"<< /Type /Type1 /Subtype << /Type /Type2> > >>", 0),
        Err(failure(
            b"> > >>",
            "Dictionary",
            ParseErrorCode::RecMissingValue(
                b"Subtype".to_vec(),
                Box::new(ParseErrorCode::RecMissingClosing(Box::new(ParseErrorCode::NotFound(ErrorKind::Char))))
            )
        ))
    );
    assert_eq!(
        Dictionary::parse(b"<< /Type /Type1 /Subtype >>", 0),
        Err(failure(
            b">>",
            "Dictionary",
            ParseErrorCode::RecMissingValue(b"Subtype".to_vec(), Box::new(ParseErrorCode::NotFoundUnion))
        ))
    );
}

#[test]
fn dictionary_escape() {
    let with_null = Dictionary::new(vec![(b"Key".to_vec(), DirectValue::Null(Null::new(Span::new(5, 4))))], Span::new(0, 9));
    let empty = Dictionary::new(vec![], Span::new(0, 9));
    assert_eq!(with_null.escape(), empty.escape());
    assert_eq!(with_null.span, empty.span);
}

#[test]
fn non_parentheses() {
    assert_eq!(not_parentheses(br"0abc\)\\"), (b"".as_slice(), br"0abc\)\\".as_slice()));
    assert_eq!(not_parentheses(b"abc("), (b"(".as_slice(), b"abc".as_slice()));
    assert_eq!(not_parentheses(br"abc\()"), (b")".as_slice(), br"abc\(".as_slice()));
    assert_eq!(not_parentheses(b"abc)"), (b")".as_slice(), b"abc".as_slice()));
    assert_eq!(not_parentheses(br"abc\)("), (b"(".as_slice(), br"abc\)".as_slice()));
    assert_eq!(not_parentheses(br"abc\\)"), (b")".as_slice(), br"abc\\".as_slice()));
    assert_eq!(not_parentheses(br"abc\\_)"), (b")".as_slice(), br"abc\\_".as_slice()));
    assert_eq!(not_parentheses(br"abc\_("), (b"(".as_slice(), br"abc\_".as_slice()));
}

#[test]
fn dictionary_len_counts_keys_once() {
    let dictionary = Dictionary::parse(b"<</A 1 /B 2 /A 3>>", 0).unwrap();
    assert_eq!(dictionary.len(), 2);
    assert_eq!(Dictionary::parse(b"<<>>", 0).unwrap().len(), 0);
}
