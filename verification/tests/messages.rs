use json_parser::{ParseError, Production};

#[test]
fn messages_of_ended_input() {
    assert_eq!(ParseError::UnexpectedEof(Production::Value).message(), "EOF");
    assert_eq!(
        ParseError::UnexpectedEof(Production::Escape).message(),
        "Unexpected EOF after backslash"
    );
    assert_eq!(
        ParseError::UnexpectedEof(Production::UnicodeEscape).message(),
        "Unexpected EOF in unicode escape"
    );
    assert_eq!(
        ParseError::UnexpectedEof(Production::Null).message(),
        "Unexpected End of File while parsing null"
    );
    assert_eq!(
        ParseError::UnexpectedEof(Production::Array).message(),
        "Unexpected End of File inside array"
    );
    assert_eq!(
        ParseError::UnexpectedEof(Production::Object).message(),
        "Unexpected End of File inside object"
    );
    assert_eq!(
        ParseError::UnterminatedString.message(),
        "Unexpected End of File (Missing closing quote)"
    );
}

#[test]
fn messages_of_unexpected_tokens() {
    assert_eq!(
        ParseError::UnexpectedToken { token: 'x', context: Production::Array }.message(),
        "Expected ',' or ']', found 'x'"
    );
    assert_eq!(
        ParseError::UnexpectedToken { token: 'x', context: Production::Object }.message(),
        "Expected ',' or '}', found 'x'"
    );
    assert_eq!(
        ParseError::UnexpectedToken { token: ']', context: Production::Value }.message(),
        "Unexpected character ']'"
    );
}

#[test]
fn messages_of_missing_tokens() {
    assert_eq!(
        ParseError::ExpectedToken { expected: 'u', found: Some('x') }.message(),
        "Expected 'u', found 'x'"
    );
    assert_eq!(
        ParseError::ExpectedToken { expected: '[', found: None }.message(),
        "Expected '['"
    );
    assert_eq!(
        ParseError::ExpectedToken { expected: '"', found: None }.message(),
        "Expected '\"'"
    );
}

#[test]
fn messages_hold_the_offending_text() {
    assert_eq!(
        ParseError::InvalidEscapeSequence('x').message(),
        "Invalid escape sequence: \\x"
    );
    assert_eq!(
        ParseError::InvalidHexDigits("12G4".to_string()).message(),
        "Invalid hex code: \\u12G4"
    );
    assert_eq!(
        ParseError::InvalidUnicodeEscape("D800".to_string()).message(),
        "Invalid unicode character: \\uD800"
    );
    assert_eq!(
        ParseError::InvalidNumber("--1".to_string()).message(),
        "Invalid syntax: expected to be a number, found '--1'"
    );
    assert_eq!(
        ParseError::InvalidLiteral("tru".to_string()).message(),
        "Invalid syntax: expected 'true' or 'false', found 'tru'"
    );
    assert_eq!(ParseError::InvalidKey.message(), "Object keys must be strings");
}
