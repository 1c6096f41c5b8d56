use json_parser::{
    parse_array, parse_bool, parse_json, parse_null, parse_num, parse_object, parse_string,
    parse_value, Cursor, ErrorKind, JsonValue, Num, ParseError,
};

fn number(i: i64) -> JsonValue {
    JsonValue::Number(Num::Int(i))
}

fn decimal(t: &str) -> JsonValue {
    JsonValue::Number(Num::Float(t.to_string()))
}

fn text(s: &str) -> JsonValue {
    JsonValue::String(s.to_string())
}

fn err(kind: ErrorKind, pos: usize) -> ParseError {
    ParseError { kind, pos }
}

#[test]
fn number_without_digits_is_rejected() {
    assert_eq!(parse_num(&mut Cursor::new("-")), Err(err(ErrorKind::MissingDigits, 1)));
    assert_eq!(parse_num(&mut Cursor::new(".")), Err(err(ErrorKind::MissingDigits, 0)));
    assert_eq!(parse_num(&mut Cursor::new("1.")), Err(err(ErrorKind::MissingDigits, 2)));
}

#[test]
fn number_forms() {
    assert_eq!(parse_num(&mut Cursor::new("007")), Ok(Num::Int(7)));
    assert_eq!(parse_num(&mut Cursor::new("-0")), Ok(Num::Int(0)));
    assert_eq!(parse_num(&mut Cursor::new("1.05")), Ok(Num::Float("1.05".to_string())));
    assert_eq!(parse_num(&mut Cursor::new("9223372036854775807")), Ok(Num::Int(i64::MAX)));
    assert_eq!(
        parse_num(&mut Cursor::new("-9223372036854775807")),
        Ok(Num::Int(-i64::MAX))
    );
    let mut c = Cursor::new("12ab");
    assert_eq!(parse_num(&mut c), Ok(Num::Int(12)));
    assert_eq!(c.position(), 2);
}

#[test]
fn integer_too_large_is_rejected() {
    let mut c = Cursor::new("9223372036854775808");
    assert_eq!(parse_num(&mut c), Err(err(ErrorKind::NumberOutOfRange, 0)));
    assert_eq!(c.position(), 0);
    assert_eq!(
        parse_num(&mut Cursor::new("-99999999999999999999")),
        Err(err(ErrorKind::NumberOutOfRange, 1))
    );
}

#[test]
fn unterminated_string_is_rejected() {
    assert_eq!(parse_string(&mut Cursor::new("\"a")), Err(err(ErrorKind::UnterminatedString, 2)));
    assert_eq!(parse_string(&mut Cursor::new("a\"")), Err(err(ErrorKind::StructuralMismatch, 0)));
}

#[test]
fn string_keeps_raw_text() {
    assert_eq!(parse_string(&mut Cursor::new("\"\"")), Ok(String::new()));
    assert_eq!(parse_string(&mut Cursor::new("\"a b\\\"")), Ok("a b\\".to_string()));
    assert_eq!(parse_string(&mut Cursor::new("\"héllo\"")), Ok("héllo".to_string()));
}

#[test]
fn empty_array_is_valid() {
    assert_eq!(parse_array(&mut Cursor::new("[]")), Ok(vec![]));
    assert_eq!(parse_array(&mut Cursor::new("[ ]")), Ok(vec![]));
}

#[test]
fn nested_object() {
    let r = parse_object(&mut Cursor::new("{\"a\":1, \"b\":[1,2,3]}")).unwrap();
    assert_eq!(
        r,
        vec![
            ("a".to_string(), number(1)),
            ("b".to_string(), JsonValue::Array(vec![number(1), number(2), number(3)])),
        ]
    );
}

#[test]
fn whitespace_around_delimiters_is_ignored() {
    let spaced = parse_array(&mut Cursor::new("[ 1 , 2 , 3 ]"));
    let tight = parse_array(&mut Cursor::new("[1,2,3]"));
    assert_eq!(spaced, tight);
    assert_eq!(
        parse_object(&mut Cursor::new("{ \"a\" :\t1 ,\n\"b\" : 2 }")),
        parse_object(&mut Cursor::new("{\"a\":1,\"b\":2}"))
    );
}

#[test]
fn failures_leave_cursor_unmoved() {
    let mut c = Cursor::new("nul");
    assert!(parse_null(&mut c).is_err());
    assert_eq!(c.position(), 0);

    let mut c = Cursor::new("tru");
    assert_eq!(parse_bool(&mut c), Err(err(ErrorKind::EmptyAlternatives, 0)));
    assert_eq!(c.position(), 0);

    let mut c = Cursor::new("-x");
    assert!(parse_num(&mut c).is_err());
    assert_eq!(c.position(), 0);

    let mut c = Cursor::new("\"abc");
    assert!(parse_string(&mut c).is_err());
    assert_eq!(c.position(), 0);

    let mut c = Cursor::new("[1, 2");
    assert_eq!(parse_array(&mut c), Err(err(ErrorKind::StructuralMismatch, 5)));
    assert_eq!(c.position(), 0);

    let mut c = Cursor::new("{\"a\": }");
    assert!(parse_object(&mut c).is_err());
    assert_eq!(c.position(), 0);

    let mut c = Cursor::new("  x");
    assert!(c.sep_with_space(',').is_err());
    assert_eq!(c.position(), 0);
    assert!(c.literal("xy").is_err());
    assert!(c.digit_run().is_err());
    assert!(c.quoted_span().is_err());
    assert_eq!(c.position(), 0);

    let mut c = Cursor::new("@");
    assert!(parse_value(&mut c).is_err());
    assert_eq!(c.position(), 0);
}

#[test]
fn matchers_advance_on_success() {
    let mut c = Cursor::new("  , 42\"q\"null");
    assert!(c.sep_with_space(',').is_ok());
    assert_eq!(c.position(), 4);
    assert_eq!(c.digit_run(), Ok(2));
    assert_eq!(c.quoted_span(), Ok("q".to_string()));
    assert!(c.literal("null").is_ok());
    assert_eq!(c.remaining(), 0);
    assert_eq!(c.len(), 13);
    assert_eq!(c.peek(), None);
}

#[test]
fn null_is_chosen_first() {
    assert_eq!(parse_value(&mut Cursor::new("null")), Ok(JsonValue::Null));
    assert_eq!(parse_value(&mut Cursor::new("true")), Ok(JsonValue::Bool(true)));
    assert_eq!(parse_json("\"null\""), Ok(text("null")));
}

#[test]
fn example_document() {
    let doc = r#"{"name":"John Doe","age":30,"is_student":false,"marks":[90.0,-80.0,85.1],"address":{"city":"New York","zip":10001}}"#;
    let v = parse_json(doc).unwrap();
    assert_eq!(
        v,
        JsonValue::Object(vec![
            ("name".to_string(), text("John Doe")),
            ("age".to_string(), number(30)),
            ("is_student".to_string(), JsonValue::Bool(false)),
            (
                "marks".to_string(),
                JsonValue::Array(vec![decimal("90.0"), decimal("-80.0"), decimal("85.1")])
            ),
            (
                "address".to_string(),
                JsonValue::Object(vec![
                    ("city".to_string(), text("New York")),
                    ("zip".to_string(), number(10001)),
                ])
            ),
        ])
    );
}

#[test]
fn indented_document() {
    let doc = "{\n  \"name\": \"John Doe\",\n  \"marks\": [90.0, -80.0]\n}\n";
    let v = parse_json(doc).unwrap();
    assert_eq!(
        v,
        JsonValue::Object(vec![
            ("name".to_string(), text("John Doe")),
            ("marks".to_string(), JsonValue::Array(vec![decimal("90.0"), decimal("-80.0")])),
        ])
    );
}

#[test]
fn repeated_key_keeps_last_value() {
    let r = parse_object(&mut Cursor::new("{\"a\":1,\"b\":2,\"a\":3}")).unwrap();
    assert_eq!(r, vec![("a".to_string(), number(3)), ("b".to_string(), number(2))]);
}

#[test]
fn empty_object_is_rejected() {
    let mut c = Cursor::new("{}");
    assert_eq!(parse_object(&mut c), Err(err(ErrorKind::StructuralMismatch, 1)));
    assert_eq!(c.position(), 0);
}

#[test]
fn trailing_input() {
    assert_eq!(parse_json("null x"), Err(err(ErrorKind::TrailingInput, 5)));
    assert_eq!(parse_json("null   "), Ok(JsonValue::Null));
    assert_eq!(parse_json("[1] ]"), Err(err(ErrorKind::TrailingInput, 4)));
}

#[test]
fn failure_reports_deepest_cause() {
    assert_eq!(parse_json("x"), Err(err(ErrorKind::EmptyAlternatives, 0)));
    assert_eq!(parse_json(""), Err(err(ErrorKind::EmptyAlternatives, 0)));
    assert_eq!(parse_json("[1,]"), Err(err(ErrorKind::StructuralMismatch, 2)));
    assert_eq!(parse_json("\"abc"), Err(err(ErrorKind::UnterminatedString, 4)));
    assert_eq!(parse_json("-"), Err(err(ErrorKind::MissingDigits, 1)));
    assert_eq!(parse_json("{\"a\" 1}"), Err(err(ErrorKind::StructuralMismatch, 5)));
}
