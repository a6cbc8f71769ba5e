use json_parser::chars::{hex_value, is_digit, is_number_char, is_whitespace, spells, string_from_chars, chars_of};
use json_parser::number::check_float_literal;
use json_parser::{CharClass, JsonNumber, JsonObject, JsonValue, ParseError, Parser};

fn parse(text: &str) -> Result<JsonValue, ParseError> {
    Parser::new(text).parse()
}

fn number(literal: &str) -> JsonValue {
    JsonValue::Number(JsonNumber::from_literal(literal).unwrap())
}

fn text(s: &str) -> JsonValue {
    JsonValue::String(s.to_string())
}

#[test]
fn whitespace_is_what_the_standard_library_calls_whitespace() {
    let mut code: u32 = 0;
    while code <= 0x10FFFF {
        if let Some(c) = char::from_u32(code) {
            assert_eq!(is_whitespace(c), c.is_whitespace(), "U+{:04X}", code);
        }
        code += 1;
    }
}

#[test]
fn digits_and_number_characters() {
    for c in "0123456789".chars() {
        assert!(is_digit(c));
        assert!(is_number_char(c));
    }
    for c in ".-+eE".chars() {
        assert!(!is_digit(c));
        assert!(is_number_char(c));
    }
    for c in "a /:,]x\u{0661}".chars() {
        assert!(!is_digit(c));
        assert!(!is_number_char(c));
    }
}

#[test]
fn hexadecimal_digit_values() {
    assert_eq!(hex_value('0'), Some(0));
    assert_eq!(hex_value('9'), Some(9));
    assert_eq!(hex_value('a'), Some(10));
    assert_eq!(hex_value('f'), Some(15));
    assert_eq!(hex_value('A'), Some(10));
    assert_eq!(hex_value('F'), Some(15));
    assert_eq!(hex_value('g'), None);
    assert_eq!(hex_value('G'), None);
    assert_eq!(hex_value('+'), None);
    assert_eq!(hex_value(' '), None);
}

#[test]
fn character_classes() {
    assert!(CharClass::Whitespace.contains('\n'));
    assert!(!CharClass::Whitespace.contains('n'));
    assert!(CharClass::Digit.contains('7'));
    assert!(!CharClass::Digit.contains('e'));
    assert!(CharClass::Number.contains('e'));
    assert!(!CharClass::Number.contains('f'));
    assert!(CharClass::Alphabetic.contains('f'));
    assert!(CharClass::Alphabetic.contains('\u{e9}'));
    assert!(!CharClass::Alphabetic.contains('1'));
    assert!(!CharClass::Alphabetic.contains(','));
}

#[test]
fn characters_to_text_and_back() {
    let chars = chars_of("h\u{e9}llo");
    assert_eq!(chars, vec!['h', '\u{e9}', 'l', 'l', 'o']);
    assert_eq!(string_from_chars(&chars), "h\u{e9}llo");
    assert!(spells(&chars, "h\u{e9}llo"));
    assert!(!spells(&chars, "hello"));
    assert!(!spells(&chars, "h\u{e9}ll"));
    assert!(spells(&chars_of(""), ""));
}

#[test]
fn number_literals() {
    for literal in ["0", "1", "-1", "+1", "3.14", "1.", ".5", "-.5", "1e5", "1E5", "1e+5", "1E-5", "1.e3", "01", "1.5e10"] {
        assert!(check_float_literal(&chars_of(literal)), "{}", literal);
        assert!(literal.parse::<f64>().is_ok(), "{}", literal);
        assert_eq!(JsonNumber::from_literal(literal).unwrap().as_str(), literal);
    }
    for literal in ["", "-", "+", ".", "e5", ".e5", "1e", "1e+", "1e-", "--1", "1.2.3", "1e5.5", "1e5e5", "1-", "1+1", "e", "-e1"] {
        assert!(!check_float_literal(&chars_of(literal)), "{}", literal);
        assert!(literal.parse::<f64>().is_err(), "{}", literal);
        assert!(JsonNumber::from_literal(literal).is_none());
    }
}

#[test]
fn numbers_in_every_form() {
    assert_eq!(parse("-5"), Ok(number("-5")));
    assert_eq!(parse("1E5"), Ok(number("1E5")));
    assert_eq!(parse("1e+5"), Ok(number("1e+5")));
    assert_eq!(parse("2.5e-3"), Ok(number("2.5e-3")));
    assert_eq!(parse("[-1,-2.5]"), Ok(JsonValue::Array(vec![number("-1"), number("-2.5")])));
    match parse("1e999") {
        Ok(JsonValue::Number(n)) => assert!(n.as_str().parse::<f64>().unwrap().is_infinite()),
        other => panic!("unexpected: {:?}", other),
    }
    assert!(number("1").same_as(&number("1")));
    assert!(!number("1").same_as(&number("2")));
}

#[test]
fn number_ends_where_its_characters_end() {
    let mut parser = Parser::new("12,34");
    assert_eq!(parser.parse(), Ok(number("12")));
    assert_eq!(parser.advance(), Some(','));
    assert_eq!(parser.parse(), Ok(number("34")));
    assert_eq!(parser.peek(), None);
}

#[test]
fn booleans_end_where_the_letters_end() {
    let mut parser = Parser::new("true,false]");
    assert_eq!(parser.parse(), Ok(JsonValue::Bool(true)));
    assert_eq!(parser.advance(), Some(','));
    assert_eq!(parser.parse(), Ok(JsonValue::Bool(false)));
    assert_eq!(parser.peek(), Some(']'));
    assert_eq!(parse("true\u{e9}"), Err(ParseError::InvalidLiteral("true\u{e9}".to_string())));
    assert_eq!(parse("true1"), Ok(JsonValue::Bool(true)));
}

#[test]
fn every_simple_escape() {
    assert_eq!(
        parse("\"\\\"\\\\\\/\\b\\f\\n\\r\\t\""),
        Ok(text("\"\\/\u{8}\u{c}\n\r\t"))
    );
}

#[test]
fn unicode_escapes_give_characters() {
    assert_eq!(parse("\"\\u00e9\""), Ok(text("\u{e9}")));
    assert_eq!(parse("\"\\u00E9\""), Ok(text("\u{e9}")));
    assert_eq!(parse("\"\\u0000\""), Ok(text("\u{0}")));
    assert_eq!(parse("\"\\uD7FF\""), Ok(text("\u{d7ff}")));
    assert_eq!(parse("\"\\uE000\""), Ok(text("\u{e000}")));
    assert_eq!(parse("\"\\uffff\""), Ok(text("\u{ffff}")));
    assert_eq!(parse("\"\\u4e2D\\u6587\""), Ok(text("\u{4e2d}\u{6587}")));
    assert_eq!(parse("\"x\\u0041y\""), Ok(text("xAy")));
}

#[test]
fn strings_keep_other_characters_as_they_are() {
    assert_eq!(parse("\"a b\tc\u{e9}\u{1f600}\""), Ok(text("a b\tc\u{e9}\u{1f600}")));
    assert_eq!(parse("\"[1,2]\""), Ok(text("[1,2]")));
}

#[test]
fn arrays_keep_their_order() {
    assert_eq!(
        parse("[ 1, \"two\", [3], {}, null, true ]"),
        Err(ParseError::UnexpectedToken { token: ' ', context: json_parser::Production::Array })
    );
    assert_eq!(
        parse("[ 1, \"two\", [3], {}, null, true]"),
        Ok(JsonValue::Array(vec![
            number("1"),
            text("two"),
            JsonValue::Array(vec![number("3")]),
            JsonValue::Object(JsonObject::new()),
            JsonValue::Null,
            JsonValue::Bool(true),
        ]))
    );
    assert_eq!(parse("[ \n ]"), Ok(JsonValue::Array(vec![])));
    assert_ne!(parse("[1,2]"), parse("[2,1]"));
}

#[test]
fn objects_do_not_depend_on_order() {
    let a = parse("{\"a\": 1, \"b\": [true], \"c\": {\"d\": null}}").unwrap();
    let b = parse("{ \"c\" : {\"d\":null} , \"b\" :[true] , \"a\":1 }").unwrap();
    assert_eq!(a, b);
    let c = parse("{\"a\": 1, \"b\": [true], \"c\": {\"d\": false}}").unwrap();
    assert_ne!(a, c);
    let d = parse("{\"a\": 1, \"b\": [true]}").unwrap();
    assert_ne!(a, d);
    assert_ne!(d, a);
    let e = parse("{\"a\": 1, \"b\": [true], \"x\": {\"d\": null}}").unwrap();
    assert_ne!(a, e);
}

#[test]
fn values_of_different_kinds_differ() {
    assert_ne!(JsonValue::Null, JsonValue::Bool(false));
    assert_ne!(number("0"), text("0"));
    assert_ne!(JsonValue::Array(vec![]), JsonValue::Object(JsonObject::new()));
    assert_ne!(JsonValue::Bool(true), JsonValue::Bool(false));
    assert_ne!(text("a"), text("b"));
    assert_eq!(text("a"), text("a"));
    assert_ne!(JsonValue::Array(vec![number("1")]), JsonValue::Array(vec![]));
}

#[test]
fn object_insert_get_len() {
    let mut object = JsonObject::new();
    assert_eq!(object.len(), 0);
    assert_eq!(object.get("a"), None);
    object.insert("a".to_string(), number("1"));
    object.insert("b".to_string(), JsonValue::Null);
    assert_eq!(object.len(), 2);
    assert_eq!(object.get("a"), Some(&number("1")));
    assert_eq!(object.get("b"), Some(&JsonValue::Null));
    object.insert("a".to_string(), text("again"));
    assert_eq!(object.len(), 2);
    assert_eq!(object.get("a"), Some(&text("again")));
    assert_eq!(object.get("b"), Some(&JsonValue::Null));
    assert_eq!(object.get(""), None);
    let entries = object.entries();
    assert_eq!(entries.len(), 2);
    assert_eq!(entries[0].0, "a");
    assert_eq!(entries[0].1, text("again"));
    assert_eq!(entries[1].0, "b");
}

#[test]
fn several_duplicates() {
    let value = parse("{\"a\":1,\"b\":2,\"a\":3,\"b\":4,\"a\":5}").unwrap();
    let mut expected = JsonObject::new();
    expected.insert("b".to_string(), number("4"));
    expected.insert("a".to_string(), number("5"));
    assert_eq!(value, JsonValue::Object(expected));
}

#[test]
fn cursor_moves_forward_only() {
    let mut parser = Parser::new(" \t x  ");
    assert_eq!(parser.peek(), Some(' '));
    assert_eq!(parser.peek(), Some(' '));
    parser.remove_whitespace();
    assert_eq!(parser.peek(), Some('x'));
    parser.remove_whitespace();
    assert_eq!(parser.advance(), Some('x'));
    parser.remove_whitespace();
    assert_eq!(parser.peek(), None);
    assert_eq!(parser.advance(), None);
    assert_eq!(parser.advance(), None);
}

#[test]
fn runs_are_maximal() {
    let mut parser = Parser::new("12ab\u{e9}  !");
    assert_eq!(parser.take_run(CharClass::Digit), vec!['1', '2']);
    assert_eq!(parser.take_run(CharClass::Digit), Vec::<char>::new());
    assert_eq!(parser.take_run(CharClass::Alphabetic), vec!['a', 'b', '\u{e9}']);
    assert_eq!(parser.take_run(CharClass::Whitespace), vec![' ', ' ']);
    assert_eq!(parser.take_run(CharClass::Number), Vec::<char>::new());
    assert_eq!(parser.advance(), Some('!'));
    assert_eq!(parser.take_run(CharClass::Whitespace), Vec::<char>::new());
}

#[test]
fn unicode_whitespace_is_skipped() {
    assert_eq!(parse("\u{a0}\u{2003}\u{3000}null"), Ok(JsonValue::Null));
    assert_eq!(parse("{\u{2028}\"a\"\u{85}:\u{1680}1\u{205f}}").map(|v| v == {
        let mut o = JsonObject::new();
        o.insert("a".to_string(), number("1"));
        JsonValue::Object(o)
    }), Ok(true));
}

#[test]
fn deep_nesting() {
    let depth = 200;
    let mut s = String::new();
    for _ in 0..depth {
        s.push('[');
    }
    for _ in 0..depth {
        s.push(']');
    }
    let mut value = parse(&s).unwrap();
    let mut seen = 0;
    loop {
        match value {
            JsonValue::Array(mut items) => {
                seen += 1;
                if items.is_empty() {
                    break;
                }
                assert_eq!(items.len(), 1);
                value = items.pop().unwrap();
            }
            other => panic!("unexpected: {:?}", other),
        }
    }
    assert_eq!(seen, depth);
}
