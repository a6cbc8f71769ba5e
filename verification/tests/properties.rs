use json_parser::{JsonNumber, JsonObject, JsonValue, ParseError, Parser, Production};

fn parse(text: &str) -> Result<JsonValue, ParseError> {
    Parser::new(text).parse()
}

fn number(literal: &str) -> JsonValue {
    JsonValue::Number(JsonNumber::from_literal(literal).unwrap())
}

fn float_of(value: &JsonValue) -> f64 {
    match value {
        JsonValue::Number(n) => n.as_str().parse::<f64>().unwrap(),
        other => panic!("not a number: {:?}", other),
    }
}

#[test]
fn null_literal_is_null() {
    assert_eq!(parse("null"), Ok(JsonValue::Null));
}

#[test]
fn boolean_literals_are_booleans() {
    assert_eq!(parse("true"), Ok(JsonValue::Bool(true)));
    assert_eq!(parse("false"), Ok(JsonValue::Bool(false)));
}

#[test]
fn string_literal_is_its_characters() {
    assert_eq!(parse("\"hello\""), Ok(JsonValue::String("hello".to_string())));
    assert_eq!(parse("\"\""), Ok(JsonValue::String(String::new())));
}

#[test]
fn number_with_fraction() {
    let value = parse("3.14").unwrap();
    assert_eq!(float_of(&value), 3.14);
    assert_eq!(value, number("3.14"));
}

#[test]
fn negative_zero_keeps_its_sign() {
    let value = parse("-0").unwrap();
    let x = float_of(&value);
    assert_eq!(x, 0.0);
    assert!(x.is_sign_negative());
}

#[test]
fn double_sign_is_no_number() {
    assert_eq!(parse("--1"), Err(ParseError::InvalidNumber("--1".to_string())));
}

#[test]
fn tab_escape_is_decoded() {
    assert_eq!(parse("\"a\\tb\""), Ok(JsonValue::String("a\tb".to_string())));
}

#[test]
fn unicode_escape_is_decoded() {
    assert_eq!(parse("\"\\u0041\""), Ok(JsonValue::String("A".to_string())));
}

#[test]
fn string_without_closing_quote_is_unterminated() {
    assert_eq!(parse("\"abc"), Err(ParseError::UnterminatedString));
}

#[test]
fn empty_array() {
    match parse("[]") {
        Ok(JsonValue::Array(items)) => assert_eq!(items.len(), 0),
        other => panic!("unexpected: {:?}", other),
    }
}

#[test]
fn empty_object() {
    match parse("{}") {
        Ok(JsonValue::Object(object)) => assert_eq!(object.len(), 0),
        other => panic!("unexpected: {:?}", other),
    }
}

#[test]
fn nested_structure_with_whitespace_around() {
    let value = parse(" { \"key\": \"value\", \"list\": [1, 2, 3] } ").unwrap();
    let object = match &value {
        JsonValue::Object(object) => object,
        other => panic!("unexpected: {:?}", other),
    };
    assert_eq!(object.len(), 2);
    assert_eq!(object.get("key"), Some(&JsonValue::String("value".to_string())));
    let list = match object.get("list") {
        Some(JsonValue::Array(items)) => items,
        other => panic!("unexpected: {:?}", other),
    };
    assert_eq!(list.len(), 3);
    assert_eq!(float_of(&list[0]), 1.0);
    assert_eq!(float_of(&list[1]), 2.0);
    assert_eq!(float_of(&list[2]), 3.0);
    assert_eq!(object.get("list"), Some(&JsonValue::Array(vec![number("1"), number("2"), number("3")])));
    assert_eq!(object.get("other"), None);
}

#[test]
fn duplicate_key_keeps_last_value() {
    let value = parse("{\"a\":1,\"a\":2}").unwrap();
    let object = match &value {
        JsonValue::Object(object) => object,
        other => panic!("unexpected: {:?}", other),
    };
    assert_eq!(object.len(), 1);
    assert_eq!(float_of(object.get("a").unwrap()), 2.0);
    let mut expected = JsonObject::new();
    expected.insert("a".to_string(), number("2"));
    assert_eq!(value, JsonValue::Object(expected));
}

#[test]
fn trailing_comma_in_array_is_rejected() {
    assert_eq!(
        parse("[1,2,]"),
        Err(ParseError::UnexpectedToken { token: ']', context: Production::Value })
    );
}

#[test]
fn trailing_comma_in_object_is_rejected() {
    assert_eq!(
        parse("{\"a\":1,}"),
        Err(ParseError::ExpectedToken { expected: '"', found: Some('}') })
    );
}

#[test]
fn same_text_gives_same_result() {
    let text = " { \"key\": \"value\", \"list\": [1, 2.5, true, null, {\"x\": \"\\u00e9\"}] } ";
    let first = parse(text);
    let second = parse(text);
    assert!(first.is_ok());
    assert_eq!(first, second);
    let bad = "[1, 2, x]";
    assert_eq!(parse(bad), parse(bad));
    assert_eq!(
        parse(bad),
        Err(ParseError::UnexpectedToken { token: 'x', context: Production::Value })
    );
}

#[test]
fn one_parser_reads_values_one_after_the_other() {
    let mut parser = Parser::new("1 [true] \"x\"");
    assert_eq!(parser.parse(), Ok(number("1")));
    assert_eq!(parser.parse(), Ok(JsonValue::Array(vec![JsonValue::Bool(true)])));
    assert_eq!(parser.parse(), Ok(JsonValue::String("x".to_string())));
    assert_eq!(parser.parse(), Err(ParseError::UnexpectedEof(Production::Value)));
}
