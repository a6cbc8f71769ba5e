//! The ways in which reading a JSON text can fail.

use vstd::prelude::*;
use vstd::string::StringExecFns;

verus! {

/// The part of the grammar that was being read when the input ended.
#[derive(Clone, Copy, Debug, PartialEq, Eq, Structural)]
pub enum Production {
    /// A value was about to start.
    Value,
    /// A backslash in a string had just been read.
    Escape,
    /// The four digits of a `\u` escape were being read.
    UnicodeEscape,
    /// The word `null` was being read.
    Null,
    /// An array was open.
    Array,
    /// An object was open.
    Object,
}

/// A failure, as contracts speak of it: the text it carries is a sequence of
/// characters.
pub enum SpecError {
    UnexpectedEof(Production),
    UnexpectedToken { token: char, context: Production },
    ExpectedToken { expected: char, found: Option<char> },
    InvalidEscapeSequence(char),
    InvalidHexDigits(Seq<char>),
    InvalidUnicodeEscape(Seq<char>),
    UnterminatedString,
    InvalidNumber(Seq<char>),
    InvalidLiteral(Seq<char>),
    InvalidKey,
}

/// A failure of the parser. Each one ends the parse at once.
#[derive(Clone, Debug, PartialEq, Eq)]
pub enum ParseError {
    /// The input ended in the middle of the given production.
    UnexpectedEof(Production),
    /// A character stands where the grammar has no use for it: where a value should
    /// start (`context` is `Value`), or after an element of an array or a member of
    /// an object, where only a comma or the closing bracket may follow.
    UnexpectedToken { token: char, context: Production },
    /// A required character is missing; `found` is what stands in its place, if
    /// anything does.
    ExpectedToken { expected: char, found: Option<char> },
    /// A backslash is followed by a character that starts no escape.
    InvalidEscapeSequence(char),
    /// The four characters after `\u` are not all hexadecimal digits.
    InvalidHexDigits(String),
    /// The four digits after `\u` give the code of no character.
    InvalidUnicodeEscape(String),
    /// The input ended before the closing quote of a string.
    UnterminatedString,
    /// The characters of a number do not form a number.
    InvalidNumber(String),
    /// A word is neither `true` nor `false`.
    InvalidLiteral(String),
    /// The key of an object's member is no string.
    InvalidKey,
}

impl View for ParseError {
    type V = SpecError;

    open spec fn view(&self) -> SpecError {
        match self {
            ParseError::UnexpectedEof(p) => SpecError::UnexpectedEof(*p),
            ParseError::UnexpectedToken { token, context } => SpecError::UnexpectedToken {
                token: *token,
                context: *context,
            },
            ParseError::ExpectedToken { expected, found } => SpecError::ExpectedToken {
                expected: *expected,
                found: *found,
            },
            ParseError::InvalidEscapeSequence(c) => SpecError::InvalidEscapeSequence(*c),
            ParseError::InvalidHexDigits(s) => SpecError::InvalidHexDigits(s@),
            ParseError::InvalidUnicodeEscape(s) => SpecError::InvalidUnicodeEscape(s@),
            ParseError::UnterminatedString => SpecError::UnterminatedString,
            ParseError::InvalidNumber(s) => SpecError::InvalidNumber(s@),
            ParseError::InvalidLiteral(s) => SpecError::InvalidLiteral(s@),
            ParseError::InvalidKey => SpecError::InvalidKey,
        }
    }
}

/// `text` between single quotes.
pub open spec fn quoted(text: Seq<char>) -> Seq<char> {
    seq!['\''] + text + seq!['\'']
}

impl SpecError {
    /// The message of the failure, for a human reader.
    pub open spec fn message(self) -> Seq<char> {
        match self {
            SpecError::UnexpectedEof(Production::Value) => "EOF"@,
            SpecError::UnexpectedEof(Production::Escape) => "Unexpected EOF after backslash"@,
            SpecError::UnexpectedEof(Production::UnicodeEscape) =>
                "Unexpected EOF in unicode escape"@,
            SpecError::UnexpectedEof(Production::Null) =>
                "Unexpected End of File while parsing null"@,
            SpecError::UnexpectedEof(Production::Array) => "Unexpected End of File inside array"@,
            SpecError::UnexpectedEof(Production::Object) =>
                "Unexpected End of File inside object"@,
            SpecError::UnexpectedToken { token, context: Production::Array } =>
                "Expected ',' or ']', found "@ + quoted(seq![token]),
            SpecError::UnexpectedToken { token, context: Production::Object } =>
                "Expected ',' or '}', found "@ + quoted(seq![token]),
            SpecError::UnexpectedToken { token, context: _ } =>
                "Unexpected character "@ + quoted(seq![token]),
            SpecError::ExpectedToken { expected, found: Some(c) } =>
                "Expected "@ + quoted(seq![expected]) + ", found "@ + quoted(seq![c]),
            SpecError::ExpectedToken { expected, found: None } =>
                "Expected "@ + quoted(seq![expected]),
            SpecError::InvalidEscapeSequence(c) => "Invalid escape sequence: \\"@.push(c),
            SpecError::InvalidHexDigits(digits) => "Invalid hex code: \\u"@ + digits,
            SpecError::InvalidUnicodeEscape(digits) => "Invalid unicode character: \\u"@ + digits,
            SpecError::UnterminatedString => "Unexpected End of File (Missing closing quote)"@,
            SpecError::InvalidNumber(text) =>
                "Invalid syntax: expected to be a number, found "@ + quoted(text),
            SpecError::InvalidLiteral(text) =>
                "Invalid syntax: expected 'true' or 'false', found "@ + quoted(text),
            SpecError::InvalidKey => "Object keys must be strings"@,
        }
    }
}

/// Appends `text` between single quotes to `s`.
fn push_quoted(s: &mut String, text: &str)
    ensures
        final(s)@ == old(s)@ + quoted(text@),
{
    s.push('\'');
    s.append(text);
    s.push('\'');
    assert(s@ =~= old(s)@ + quoted(text@));
}

/// Appends the character `c` between single quotes to `s`.
fn push_quoted_char(s: &mut String, c: char)
    ensures
        final(s)@ == old(s)@ + quoted(seq![c]),
{
    s.push('\'');
    s.push(c);
    s.push('\'');
    assert(s@ =~= old(s)@ + quoted(seq![c]));
}

impl ParseError {
    /// The message of the failure, for a human reader. It holds the offending text
    /// where there is one.
    pub fn message(&self) -> (m: String)
        ensures
            m@ == self@.message(),
    {
        match self {
            ParseError::UnexpectedEof(p) => match p {
                Production::Value => String::from_str("EOF"),
                Production::Escape => String::from_str("Unexpected EOF after backslash"),
                Production::UnicodeEscape => String::from_str("Unexpected EOF in unicode escape"),
                Production::Null => String::from_str("Unexpected End of File while parsing null"),
                Production::Array => String::from_str("Unexpected End of File inside array"),
                Production::Object => String::from_str("Unexpected End of File inside object"),
            },
            ParseError::UnexpectedToken { token, context } => {
                let mut m = match context {
                    Production::Array => String::from_str("Expected ',' or ']', found "),
                    Production::Object => String::from_str("Expected ',' or '}', found "),
                    _ => String::from_str("Unexpected character "),
                };
                push_quoted_char(&mut m, *token);
                m
            },
            ParseError::ExpectedToken { expected, found } => {
                let mut m = String::from_str("Expected ");
                push_quoted_char(&mut m, *expected);
                match found {
                    Some(c) => {
                        m.append(", found ");
                        push_quoted_char(&mut m, *c);
                    },
                    None => {},
                }
                m
            },
            ParseError::InvalidEscapeSequence(c) => {
                let mut m = String::from_str("Invalid escape sequence: \\");
                m.push(*c);
                m
            },
            ParseError::InvalidHexDigits(digits) => {
                let mut m = String::from_str("Invalid hex code: \\u");
                m.append(digits.as_str());
                m
            },
            ParseError::InvalidUnicodeEscape(digits) => {
                let mut m = String::from_str("Invalid unicode character: \\u");
                m.append(digits.as_str());
                m
            },
            ParseError::UnterminatedString => String::from_str(
                "Unexpected End of File (Missing closing quote)",
            ),
            ParseError::InvalidNumber(text) => {
                let mut m = String::from_str("Invalid syntax: expected to be a number, found ");
                push_quoted(&mut m, text.as_str());
                m
            },
            ParseError::InvalidLiteral(text) => {
                let mut m = String::from_str(
                    "Invalid syntax: expected 'true' or 'false', found ",
                );
                push_quoted(&mut m, text.as_str());
                m
            },
            ParseError::InvalidKey => String::from_str("Object keys must be strings"),
        }
    }
}

} // verus!
