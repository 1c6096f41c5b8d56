use json_parser::{
    parse_array, parse_bool, parse_null, parse_num, parse_object, parse_string, Cursor, JsonValue,
    Num,
};

fn integer(i: i64) -> JsonValue {
    JsonValue::Number(Num::Int(i))
}

fn text(s: &str) -> JsonValue {
    JsonValue::String(s.to_string())
}

fn float_of(n: &Num) -> f64 {
    match n {
        Num::Float(t) => t.parse::<f64>().unwrap(),
        Num::Int(_) => panic!("not a decimal literal"),
    }
}

#[test]
fn test_parse_null() {
    let input = "null";
    parse_null(&mut Cursor::new(input)).unwrap();
}

#[test]
fn test_parse_bool() {
    let input = "true";
    let result = parse_bool(&mut Cursor::new(input)).unwrap();
    assert!(result);

    let input = "false";
    let result = parse_bool(&mut Cursor::new(input)).unwrap();
    assert!(!result);
}

#[test]
fn test_parse_num() {
    let input = "123";
    let result = parse_num(&mut Cursor::new(input)).unwrap();
    assert_eq!(result, Num::Int(123));

    let input = "-456";
    let result = parse_num(&mut Cursor::new(input)).unwrap();
    assert_eq!(result, Num::Int(-456));

    let input = "123.456";
    let result = parse_num(&mut Cursor::new(input)).unwrap();
    assert_eq!(float_of(&result), 123.456);

    let input = "-789.12";
    let result = parse_num(&mut Cursor::new(input)).unwrap();
    assert_eq!(float_of(&result), -789.12);
}

#[test]
fn test_parse_string() {
    let input = r#""hello""#;
    let result = parse_string(&mut Cursor::new(input)).unwrap();
    assert_eq!(result, "hello");
}

#[test]
fn test_parse_array() {
    let input = r#"[1,2,3]"#;
    let result = parse_array(&mut Cursor::new(input)).unwrap();
    assert_eq!(result, vec![integer(1), integer(2), integer(3)]);

    let input = r#"["a", "b", "c"]"#;
    let result = parse_array(&mut Cursor::new(input)).unwrap();
    assert_eq!(result, vec![text("a"), text("b"), text("c")]);
}

#[test]
fn test_parse_object() {
    let input = r#"{"a":1,"b":2}"#;
    let result = parse_object(&mut Cursor::new(input)).unwrap();
    assert_eq!(result, vec![("a".to_string(), integer(1)), ("b".to_string(), integer(2))]);

    let input = r#"{"a":1, "b":[1, 2, 3]}"#;
    let result = parse_object(&mut Cursor::new(input)).unwrap();
    assert_eq!(
        result,
        vec![
            ("a".to_string(), integer(1)),
            ("b".to_string(), JsonValue::Array(vec![integer(1), integer(2), integer(3)])),
        ]
    );
}
