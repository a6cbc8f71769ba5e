//! What the parser reads from a text.
//!
//! Each production is a function from the text that is still to be read to what
//! the production yields and the text that it leaves, or to the failure that ends
//! the parse.

use vstd::prelude::*;
use crate::chars::{
    hex_digit_value,
    is_digit,
    is_hex_digit,
    is_whitespace,
    lemma_run_length_is_maximal,
    run_length,
    CharClass,
};
use crate::error::{Production, SpecError};
use crate::number::is_float_literal;
use crate::object::entries_map;
use crate::value::SpecValue;

verus! {

/// The first character of `s`, if it has one.
pub open spec fn first_of(s: Seq<char>) -> Option<char> {
    if s.len() > 0 {
        Some(s[0])
    } else {
        None
    }
}

/// `s` without the white space that it starts with.
pub open spec fn skip_whitespace(s: Seq<char>) -> Seq<char> {
    s.skip(run_length(s, CharClass::Whitespace) as int)
}

/// Puts `head` before the items that were read after it.
pub open spec fn prepend<T>(head: Seq<T>, tail: Result<(Seq<T>, Seq<char>), SpecError>) -> Result<
    (Seq<T>, Seq<char>),
    SpecError,
> {
    match tail {
        Ok((items, rest)) => Ok((head + items, rest)),
        Err(e) => Err(e),
    }
}

/// Putting two heads before the items, one after the other, is putting the two
/// together before them.
pub proof fn lemma_prepend_twice<T>(
    first: Seq<T>,
    second: Seq<T>,
    tail: Result<(Seq<T>, Seq<char>), SpecError>,
)
    ensures
        prepend(first, prepend(second, tail)) == prepend(first + second, tail),
{
    match tail {
        Ok((items, rest)) => {
            assert(first + (second + items) =~= (first + second) + items);
        },
        Err(e) => {},
    }
}

/// The number that four hexadecimal digits stand for.
pub open spec fn hex_code(digits: Seq<char>) -> int
    recommends
        digits.len() == 4,
{
    hex_digit_value(digits[0]) * 4096 + hex_digit_value(digits[1]) * 256 + hex_digit_value(
        digits[2],
    ) * 16 + hex_digit_value(digits[3])
}

/// What follows `\u`: four hexadecimal digits, which give the code of a character.
/// Each such escape stands for itself: two of them are never combined into one
/// character, so the code of a surrogate is refused.
pub open spec fn parse_unicode_escape(s: Seq<char>) -> Result<(char, Seq<char>), SpecError> {
    let digits = s.take(4);
    if s.len() < 4 {
        Err(SpecError::UnexpectedEof(Production::UnicodeEscape))
    } else if !(is_hex_digit(s[0]) && is_hex_digit(s[1]) && is_hex_digit(s[2]) && is_hex_digit(
        s[3],
    )) {
        Err(SpecError::InvalidHexDigits(digits))
    } else if 0xD800 <= hex_code(digits) <= 0xDFFF {
        Err(SpecError::InvalidUnicodeEscape(digits))
    } else {
        Ok((hex_code(digits) as char, s.skip(4)))
    }
}

/// What follows a backslash in a string: the character that the escape stands for.
pub open spec fn parse_escape(s: Seq<char>) -> Result<(char, Seq<char>), SpecError> {
    if s.len() == 0 {
        Err(SpecError::UnexpectedEof(Production::Escape))
    } else if s[0] == '"' || s[0] == '\\' || s[0] == '/' {
        Ok((s[0], s.drop_first()))
    } else if s[0] == 'b' {
        Ok(('\u{8}', s.drop_first()))
    } else if s[0] == 'f' {
        Ok(('\u{c}', s.drop_first()))
    } else if s[0] == 'n' {
        Ok(('\n', s.drop_first()))
    } else if s[0] == 'r' {
        Ok(('\r', s.drop_first()))
    } else if s[0] == 't' {
        Ok(('\t', s.drop_first()))
    } else if s[0] == 'u' {
        parse_unicode_escape(s.drop_first())
    } else {
        Err(SpecError::InvalidEscapeSequence(s[0]))
    }
}

/// What follows the opening quote of a string: its characters, up to the closing
/// quote.
pub open spec fn parse_string_body(s: Seq<char>) -> Result<(Seq<char>, Seq<char>), SpecError>
    decreases s.len(),
{
    if s.len() == 0 {
        Err(SpecError::UnterminatedString)
    } else if s[0] == '"' {
        Ok((Seq::empty(), s.drop_first()))
    } else if s[0] == '\\' {
        match parse_escape(s.drop_first()) {
            Ok((c, rest)) => prepend(seq![c], parse_string_body(rest)),
            Err(e) => Err(e),
        }
    } else {
        prepend(seq![s[0]], parse_string_body(s.drop_first()))
    }
}

/// A string: a quote, and what follows it.
pub open spec fn parse_string(s: Seq<char>) -> Result<(SpecValue, Seq<char>), SpecError> {
    if s.len() == 0 || s[0] != '"' {
        Err(SpecError::ExpectedToken { expected: '"', found: first_of(s) })
    } else {
        match parse_string_body(s.drop_first()) {
            Ok((chars, rest)) => Ok((SpecValue::String(chars), rest)),
            Err(e) => Err(e),
        }
    }
}

/// A number: the longest run of the characters of numbers, which has to be the
/// literal of a number.
pub open spec fn parse_number(s: Seq<char>) -> Result<(SpecValue, Seq<char>), SpecError> {
    let n = run_length(s, CharClass::Number) as int;
    if is_float_literal(s.take(n)) {
        Ok((SpecValue::Number(s.take(n)), s.skip(n)))
    } else {
        Err(SpecError::InvalidNumber(s.take(n)))
    }
}

/// A truth value: the longest run of alphabetic characters, which has to be one of
/// the words `true` and `false`.
pub open spec fn parse_bool(s: Seq<char>) -> Result<(SpecValue, Seq<char>), SpecError> {
    let n = run_length(s, CharClass::Alphabetic) as int;
    if s.take(n) == "true"@ {
        Ok((SpecValue::Bool(true), s.skip(n)))
    } else if s.take(n) == "false"@ {
        Ok((SpecValue::Bool(false), s.skip(n)))
    } else {
        Err(SpecError::InvalidLiteral(s.take(n)))
    }
}

/// The characters of `word`, one after the other: what is left of `s` after them,
/// or the failure at the first character that is missing or is another one.
pub open spec fn expect_word(s: Seq<char>, word: Seq<char>, context: Production) -> Result<
    Seq<char>,
    SpecError,
>
    decreases word.len(),
{
    if word.len() == 0 {
        Ok(s)
    } else if s.len() == 0 {
        Err(SpecError::UnexpectedEof(context))
    } else if s[0] != word[0] {
        Err(SpecError::ExpectedToken { expected: word[0], found: Some(s[0]) })
    } else {
        expect_word(s.drop_first(), word.drop_first(), context)
    }
}

/// The word `null`.
pub open spec fn parse_null(s: Seq<char>) -> Result<(SpecValue, Seq<char>), SpecError> {
    match expect_word(s, "null"@, Production::Null) {
        Ok(rest) => Ok((SpecValue::Null, rest)),
        Err(e) => Err(e),
    }
}

/// Whether a number may start with `c`.
pub open spec fn starts_number(c: char) -> bool {
    is_digit(c) || c == '-'
}

/// A value, after white space: its first character decides which production
/// reads it.
pub open spec fn parse_value(s: Seq<char>) -> Result<(SpecValue, Seq<char>), SpecError>
    decreases s.len(), 2nat,
{
    let t = skip_whitespace(s);
    if t.len() == 0 {
        Err(SpecError::UnexpectedEof(Production::Value))
    } else if t[0] == '{' {
        proof {
            lemma_run_length_is_maximal(s, CharClass::Whitespace);
        }
        parse_object(t)
    } else if t[0] == '"' {
        parse_string(t)
    } else if t[0] == '[' {
        proof {
            lemma_run_length_is_maximal(s, CharClass::Whitespace);
        }
        parse_array(t)
    } else if starts_number(t[0]) {
        parse_number(t)
    } else if t[0] == 't' || t[0] == 'f' {
        parse_bool(t)
    } else if t[0] == 'n' {
        parse_null(t)
    } else {
        Err(SpecError::UnexpectedToken { token: t[0], context: Production::Value })
    }
}

/// An array: an opening bracket, white space, and then the closing bracket or
/// elements.
pub open spec fn parse_array(s: Seq<char>) -> Result<(SpecValue, Seq<char>), SpecError>
    decreases s.len(), 1nat,
{
    if s.len() == 0 || s[0] != '[' {
        Err(SpecError::ExpectedToken { expected: '[', found: first_of(s) })
    } else {
        let inner = skip_whitespace(s.drop_first());
        if inner.len() > 0 && inner[0] == ']' {
            Ok((SpecValue::Array(Seq::empty()), inner.drop_first()))
        } else {
            proof {
                lemma_run_length_is_maximal(s.drop_first(), CharClass::Whitespace);
            }
            match parse_elements(inner) {
                Ok((items, rest)) => Ok((SpecValue::Array(items), rest)),
                Err(e) => Err(e),
            }
        }
    }
}

/// The elements of an array, up to its closing bracket: a value, and directly after
/// it the closing bracket, or a comma and more elements.
///
/// The comparison of lengths is there for the termination of this definition only:
/// what a value leaves is never longer than what it was read from.
pub open spec fn parse_elements(s: Seq<char>) -> Result<(Seq<SpecValue>, Seq<char>), SpecError>
    decreases s.len(), 3nat,
{
    match parse_value(s) {
        Err(e) => Err(e),
        Ok((value, rest)) => if rest.len() == 0 {
            Err(SpecError::UnexpectedEof(Production::Array))
        } else if rest[0] == ']' {
            Ok((seq![value], rest.drop_first()))
        } else if rest[0] == ',' && rest.len() <= s.len() {
            prepend(seq![value], parse_elements(rest.drop_first()))
        } else {
            Err(SpecError::UnexpectedToken { token: rest[0], context: Production::Array })
        },
    }
}

/// An object: an opening brace, white space, and then the closing brace or
/// members. A key that occurs more than once has the value of its last member.
pub open spec fn parse_object(s: Seq<char>) -> Result<(SpecValue, Seq<char>), SpecError>
    decreases s.len(), 1nat,
{
    if s.len() == 0 || s[0] != '{' {
        Err(SpecError::ExpectedToken { expected: '{', found: first_of(s) })
    } else {
        let inner = skip_whitespace(s.drop_first());
        if inner.len() > 0 && inner[0] == '}' {
            Ok((SpecValue::Object(Map::empty()), inner.drop_first()))
        } else {
            proof {
                lemma_run_length_is_maximal(s.drop_first(), CharClass::Whitespace);
            }
            match parse_members(inner) {
                Ok((members, rest)) => Ok((SpecValue::Object(entries_map(members)), rest)),
                Err(e) => Err(e),
            }
        }
    }
}

/// The text at which the value of a member starts: what is left of `s` after white
/// space, the key, white space and a colon.
pub open spec fn parse_key(s: Seq<char>) -> Result<(Seq<char>, Seq<char>), SpecError> {
    match parse_string(skip_whitespace(s)) {
        Err(e) => Err(e),
        Ok((SpecValue::String(key), rest)) => {
            let colon = skip_whitespace(rest);
            if colon.len() == 0 || colon[0] != ':' {
                Err(SpecError::ExpectedToken { expected: ':', found: first_of(colon) })
            } else {
                Ok((key, colon.drop_first()))
            }
        },
        Ok(_) => Err(SpecError::InvalidKey),
    }
}

/// The members of an object, up to its closing brace: a key, a colon and a value,
/// with white space around each, and then the closing brace, or a comma and more
/// members.
///
/// The comparison of lengths is there for the termination of this definition only:
/// what a value leaves is never longer than what it was read from.
pub open spec fn parse_members(s: Seq<char>) -> Result<
    (Seq<(Seq<char>, SpecValue)>, Seq<char>),
    SpecError,
>
    decreases s.len(), 3nat,
{
    match parse_key(s) {
        Err(e) => Err(e),
        Ok((key, after_colon)) => {
            proof {
                lemma_key_consumes(s);
            }
            match parse_value(after_colon) {
                Err(e) => Err(e),
                Ok((value, rest)) => {
                    let end = skip_whitespace(rest);
                    if end.len() == 0 {
                        Err(SpecError::UnexpectedEof(Production::Object))
                    } else if end[0] == '}' {
                        Ok((seq![(key, value)], end.drop_first()))
                    } else if end[0] == ',' && end.len() <= s.len() {
                        prepend(seq![(key, value)], parse_members(end.drop_first()))
                    } else {
                        Err(
                            SpecError::UnexpectedToken {
                                token: end[0],
                                context: Production::Object,
                            },
                        )
                    }
                },
            }
        },
    }
}

/// Whether `rest` is an end of `s`: what is left of `s` when some of its first
/// characters are taken away.
pub open spec fn is_suffix(rest: Seq<char>, s: Seq<char>) -> bool {
    rest.len() <= s.len() && rest == s.skip(s.len() - rest.len())
}

/// Whether the outcome of a production on `s` has consumed text: on success, at
/// least one character of `s` was read, and what is left is an end of `s`.
pub open spec fn consumes<T>(outcome: Result<(T, Seq<char>), SpecError>, s: Seq<char>) -> bool {
    outcome matches Ok((_, rest)) ==> rest.len() < s.len() && is_suffix(rest, s)
}

/// An end of an end of `s` is an end of `s`.
pub proof fn lemma_suffix_of_suffix(a: Seq<char>, b: Seq<char>, c: Seq<char>)
    requires
        is_suffix(a, b),
        is_suffix(b, c),
    ensures
        is_suffix(a, c),
{
    assert(c.skip(c.len() - b.len()).skip(b.len() - a.len()) =~= c.skip(c.len() - a.len()));
}

/// What is left of `s` after `n` of its characters is an end of `s`.
pub proof fn lemma_skip_is_suffix(s: Seq<char>, n: int)
    requires
        0 <= n <= s.len(),
    ensures
        is_suffix(s.skip(n), s),
        s.skip(n).len() == s.len() - n,
{
}

/// Skipping white space leaves an end of the text, at which no white space stands.
pub proof fn lemma_skip_whitespace(s: Seq<char>)
    ensures
        is_suffix(skip_whitespace(s), s),
        skip_whitespace(s).len() > 0 ==> !is_whitespace(skip_whitespace(s)[0]),
        skip_whitespace(skip_whitespace(s)) == skip_whitespace(s),
{
    lemma_run_length_is_maximal(s, CharClass::Whitespace);
    let t = skip_whitespace(s);
    lemma_skip_is_suffix(s, run_length(s, CharClass::Whitespace) as int);
    assert(run_length(t, CharClass::Whitespace) == 0);
    assert(t.skip(0) =~= t);
}

/// White space before a value changes nothing of what is read.
pub proof fn lemma_value_after_whitespace(s: Seq<char>)
    ensures
        parse_value(skip_whitespace(s)) == parse_value(s),
{
    lemma_skip_whitespace(s);
}

/// An escape consumes text.
pub proof fn lemma_escape_consumes(s: Seq<char>)
    ensures
        consumes(parse_escape(s), s),
{
    if s.len() > 0 {
        lemma_skip_is_suffix(s, 1);
        if s[0] == 'u' && s.len() >= 5 {
            lemma_skip_is_suffix(s.drop_first(), 4);
            lemma_suffix_of_suffix(s.drop_first().skip(4), s.drop_first(), s);
        }
    }
}

/// The rest of a string consumes text.
pub proof fn lemma_string_body_consumes(s: Seq<char>)
    ensures
        consumes(parse_string_body(s), s),
    decreases s.len(),
{
    if s.len() > 0 {
        let t = s.drop_first();
        lemma_skip_is_suffix(s, 1);
        if s[0] == '"' {
        } else if s[0] == '\\' {
            lemma_escape_consumes(t);
            match parse_escape(t) {
                Ok((c, rest)) => {
                    lemma_string_body_consumes(rest);
                    match parse_string_body(rest) {
                        Ok((chars, end)) => {
                            lemma_suffix_of_suffix(end, rest, t);
                            lemma_suffix_of_suffix(end, t, s);
                        },
                        Err(e) => {},
                    }
                },
                Err(e) => {},
            }
        } else {
            lemma_string_body_consumes(t);
            match parse_string_body(t) {
                Ok((chars, end)) => {
                    lemma_suffix_of_suffix(end, t, s);
                },
                Err(e) => {},
            }
        }
    }
}

/// A string consumes text.
pub proof fn lemma_string_consumes(s: Seq<char>)
    ensures
        consumes(parse_string(s), s),
        parse_string(s) matches Ok((value, _)) ==> value is String,
{
    if s.len() > 0 && s[0] == '"' {
        let t = s.drop_first();
        lemma_skip_is_suffix(s, 1);
        lemma_string_body_consumes(t);
        match parse_string_body(t) {
            Ok((chars, end)) => {
                lemma_suffix_of_suffix(end, t, s);
            },
            Err(e) => {},
        }
    }
}

/// A number consumes text.
pub proof fn lemma_number_consumes(s: Seq<char>)
    ensures
        consumes(parse_number(s), s),
{
    let n = run_length(s, CharClass::Number) as int;
    lemma_run_length_is_maximal(s, CharClass::Number);
    lemma_skip_is_suffix(s, n);
    if n == 0 {
        assert(s.take(0).skip(0) =~= Seq::<char>::empty());
        assert(run_length(Seq::<char>::empty(), CharClass::Digit) == 0);
    }
}

/// A truth value consumes text.
pub proof fn lemma_bool_consumes(s: Seq<char>)
    ensures
        consumes(parse_bool(s), s),
{
    let n = run_length(s, CharClass::Alphabetic) as int;
    lemma_run_length_is_maximal(s, CharClass::Alphabetic);
    lemma_skip_is_suffix(s, n);
    reveal_strlit("true");
    reveal_strlit("false");
    assert(s.take(n).len() == n);
    assert("true"@.len() == 4);
    assert("false"@.len() == 5);
}

/// A word that is found is all that is consumed.
pub proof fn lemma_expect_word_consumes(s: Seq<char>, word: Seq<char>, context: Production)
    ensures
        expect_word(s, word, context) matches Ok(rest) ==> is_suffix(rest, s) && s.len()
            == rest.len() + word.len() && s.take(word.len() as int) == word,
    decreases word.len(),
{
    if word.len() == 0 {
        assert(s.skip(0) =~= s);
        assert(s.take(0) =~= word);
    } else if s.len() > 0 && s[0] == word[0] {
        let t = s.drop_first();
        lemma_expect_word_consumes(t, word.drop_first(), context);
        match expect_word(t, word.drop_first(), context) {
            Ok(rest) => {
                lemma_skip_is_suffix(s, 1);
                lemma_suffix_of_suffix(rest, t, s);
                assert(s.take(word.len() as int) =~= word) by {
                    assert forall|i: int| 0 <= i < word.len() implies s.take(word.len() as int)[i]
                        == word[i] by {
                        if i > 0 {
                            assert(t.take(word.len() - 1)[i - 1] == word.drop_first()[i - 1]);
                        }
                    }
                }
            },
            Err(e) => {},
        }
    }
}

/// The word `null` consumes text.
pub proof fn lemma_null_consumes(s: Seq<char>)
    ensures
        consumes(parse_null(s), s),
{
    lemma_expect_word_consumes(s, "null"@, Production::Null);
    reveal_strlit("null");
}

/// A key and its colon consume text.
pub proof fn lemma_key_consumes(s: Seq<char>)
    ensures
        consumes(parse_key(s), s),
{
    let t = skip_whitespace(s);
    lemma_skip_whitespace(s);
    lemma_string_consumes(t);
    match parse_string(t) {
        Ok((SpecValue::String(key), rest)) => {
            let colon = skip_whitespace(rest);
            lemma_skip_whitespace(rest);
            if colon.len() > 0 {
                lemma_skip_is_suffix(colon, 1);
                lemma_suffix_of_suffix(colon.drop_first(), colon, rest);
                lemma_suffix_of_suffix(colon.drop_first(), rest, t);
                lemma_suffix_of_suffix(colon.drop_first(), t, s);
            }
        },
        _ => {},
    }
}

/// A value consumes text.
pub proof fn lemma_value_consumes(s: Seq<char>)
    ensures
        consumes(parse_value(s), s),
    decreases s.len(), 2nat,
{
    let t = skip_whitespace(s);
    lemma_skip_whitespace(s);
    if t.len() > 0 {
        if t[0] == '{' {
            lemma_object_consumes(t);
        } else if t[0] == '"' {
            lemma_string_consumes(t);
        } else if t[0] == '[' {
            lemma_array_consumes(t);
        } else if starts_number(t[0]) {
            lemma_number_consumes(t);
        } else if t[0] == 't' || t[0] == 'f' {
            lemma_bool_consumes(t);
        } else if t[0] == 'n' {
            lemma_null_consumes(t);
        }
        match parse_value(s) {
            Ok((value, rest)) => {
                lemma_suffix_of_suffix(rest, t, s);
            },
            Err(e) => {},
        }
    }
}

/// An array consumes text.
pub proof fn lemma_array_consumes(s: Seq<char>)
    ensures
        consumes(parse_array(s), s),
    decreases s.len(), 1nat,
{
    if s.len() > 0 && s[0] == '[' {
        let t = s.drop_first();
        let inner = skip_whitespace(t);
        lemma_skip_is_suffix(s, 1);
        lemma_skip_whitespace(t);
        lemma_suffix_of_suffix(inner, t, s);
        if inner.len() > 0 && inner[0] == ']' {
            lemma_skip_is_suffix(inner, 1);
            lemma_suffix_of_suffix(inner.drop_first(), inner, s);
        } else {
            lemma_elements_consume(inner);
            match parse_elements(inner) {
                Ok((items, rest)) => {
                    lemma_suffix_of_suffix(rest, inner, s);
                },
                Err(e) => {},
            }
        }
    }
}

/// The elements of an array consume text.
pub proof fn lemma_elements_consume(s: Seq<char>)
    ensures
        consumes(parse_elements(s), s),
    decreases s.len(), 3nat,
{
    lemma_value_consumes(s);
    match parse_value(s) {
        Ok((value, rest)) => {
            if rest.len() > 0 {
                let next = rest.drop_first();
                lemma_skip_is_suffix(rest, 1);
                lemma_suffix_of_suffix(next, rest, s);
                if rest[0] == ',' {
                    lemma_elements_consume(next);
                    match parse_elements(next) {
                        Ok((items, end)) => {
                            lemma_suffix_of_suffix(end, next, s);
                        },
                        Err(e) => {},
                    }
                }
            }
        },
        Err(e) => {},
    }
}

/// An object consumes text.
pub proof fn lemma_object_consumes(s: Seq<char>)
    ensures
        consumes(parse_object(s), s),
    decreases s.len(), 1nat,
{
    if s.len() > 0 && s[0] == '{' {
        let t = s.drop_first();
        let inner = skip_whitespace(t);
        lemma_skip_is_suffix(s, 1);
        lemma_skip_whitespace(t);
        lemma_suffix_of_suffix(inner, t, s);
        if inner.len() > 0 && inner[0] == '}' {
            lemma_skip_is_suffix(inner, 1);
            lemma_suffix_of_suffix(inner.drop_first(), inner, s);
        } else {
            lemma_members_consume(inner);
            match parse_members(inner) {
                Ok((members, rest)) => {
                    lemma_suffix_of_suffix(rest, inner, s);
                },
                Err(e) => {},
            }
        }
    }
}

/// The members of an object consume text.
pub proof fn lemma_members_consume(s: Seq<char>)
    ensures
        consumes(parse_members(s), s),
    decreases s.len(), 3nat,
{
    lemma_key_consumes(s);
    match parse_key(s) {
        Ok((key, after_colon)) => {
            lemma_value_consumes(after_colon);
            match parse_value(after_colon) {
                Ok((value, rest)) => {
                    let end = skip_whitespace(rest);
                    lemma_skip_whitespace(rest);
                    lemma_suffix_of_suffix(end, rest, after_colon);
                    lemma_suffix_of_suffix(end, after_colon, s);
                    if end.len() > 0 {
                        let next = end.drop_first();
                        lemma_skip_is_suffix(end, 1);
                        lemma_suffix_of_suffix(next, end, s);
                        if end[0] == ',' {
                            lemma_members_consume(next);
                            match parse_members(next) {
                                Ok((members, left)) => {
                                    lemma_suffix_of_suffix(left, next, s);
                                },
                                Err(e) => {},
                            }
                        }
                    }
                },
                Err(e) => {},
            }
        },
        Err(e) => {},
    }
}

} // verus!
