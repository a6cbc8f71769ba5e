//! What holds of every text: laws of the grammar and of the parser's results.

use vstd::prelude::*;
use crate::chars::{
    is_whitespace,
    lemma_run_length_is_maximal,
    lemma_run_length_unique,
    run_length,
    CharClass,
};
use crate::error::{ParseError, Production, SpecError};
use crate::grammar::{
    expect_word,
    lemma_key_consumes,
    lemma_skip_whitespace,
    lemma_value_consumes,
    parse_elements,
    parse_key,
    parse_members,
    parse_number,
    parse_string,
    parse_string_body,
    parse_value,
    prepend,
    skip_whitespace,
    starts_number,
};
use crate::number::{is_float_literal, lemma_float_literal_chars};
use crate::object::entries_map;
use crate::parser::agrees;
use crate::value::{JsonValue, SpecValue};

verus! {

/// Reading is a function of the text. Two results that agree with the grammar on
/// the same text are both values or both failures: the same value, with the same
/// text left, or the same failure.
pub proof fn lemma_parse_is_deterministic(
    s: Seq<char>,
    first: Result<JsonValue, ParseError>,
    first_left: Seq<char>,
    second: Result<JsonValue, ParseError>,
    second_left: Seq<char>,
)
    requires
        agrees(parse_value(s), first, first_left),
        agrees(parse_value(s), second, second_left),
    ensures
        match (first, second) {
            (Ok(a), Ok(b)) => a@ == b@ && first_left == second_left,
            (Err(a), Err(b)) => a@ == b@,
            _ => false,
        },
{
}

/// White space before a text changes nothing of the value that is read from it,
/// nor of the failure.
pub proof fn lemma_leading_whitespace_is_skipped(space: Seq<char>, s: Seq<char>)
    requires
        forall|i: int| 0 <= i < space.len() ==> is_whitespace(#[trigger] space[i]),
    ensures
        skip_whitespace(space + s) == skip_whitespace(s),
        parse_value(space + s) == parse_value(s),
{
    let all = space + s;
    let n = run_length(s, CharClass::Whitespace) as int;
    lemma_run_length_is_maximal(s, CharClass::Whitespace);
    assert forall|i: int| 0 <= i < space.len() + n implies CharClass::Whitespace.contains(
        #[trigger] all[i],
    ) by {
        if i < space.len() {
            assert(all[i] == space[i]);
        } else {
            assert(all[i] == s[i - space.len()]);
        }
    }
    if space.len() + n < all.len() {
        assert(all[space.len() + n] == s[n]);
    }
    lemma_run_length_unique(all, CharClass::Whitespace, space.len() + n);
    assert(all.skip(space.len() + n) =~= s.skip(n));
}

/// The word `null` is read as the null value, whatever follows it.
pub proof fn lemma_null_is_read(rest: Seq<char>)
    ensures
        parse_value("null"@ + rest) == Ok::<_, SpecError>((SpecValue::Null, rest)),
{
    reveal_strlit("null");
    let word = "null"@;
    let s = word + rest;
    assert(s[0] == 'n');
    lemma_run_length_unique(s, CharClass::Whitespace, 0);
    assert(s.skip(0) =~= s);
    lemma_word_is_found(word, rest, Production::Null);
}

/// A word is found at the start of a text that starts with it.
pub proof fn lemma_word_is_found(word: Seq<char>, rest: Seq<char>, context: Production)
    ensures
        expect_word(word + rest, word, context) == Ok::<_, SpecError>(rest),
    decreases word.len(),
{
    let s = word + rest;
    if word.len() == 0 {
        assert(s =~= rest);
    } else {
        assert(s[0] == word[0]);
        assert(s.drop_first() =~= word.drop_first() + rest);
        lemma_word_is_found(word.drop_first(), rest, context);
    }
}

/// Characters between quotes, none of them a quote or a backslash, are read as
/// the string of these characters, whatever follows the closing quote.
pub proof fn lemma_plain_string_is_read(chars: Seq<char>, rest: Seq<char>)
    requires
        forall|i: int| 0 <= i < chars.len() ==> chars[i] != '"' && chars[i] != '\\',
    ensures
        parse_string_body(chars + seq!['"'] + rest) == Ok::<_, SpecError>((chars, rest)),
        parse_string(seq!['"'] + chars + seq!['"'] + rest) == Ok::<_, SpecError>(
            (SpecValue::String(chars), rest),
        ),
        parse_value(seq!['"'] + chars + seq!['"'] + rest) == Ok::<_, SpecError>(
            (SpecValue::String(chars), rest),
        ),
    decreases chars.len(),
{
    let body = chars + seq!['"'] + rest;
    if chars.len() == 0 {
        assert(body[0] == '"');
        assert(body.drop_first() =~= rest);
        assert(chars =~= Seq::<char>::empty());
    } else {
        let tail = chars.drop_first();
        assert(body[0] == chars[0]);
        assert(body.drop_first() =~= tail + seq!['"'] + rest);
        assert forall|i: int| 0 <= i < tail.len() implies tail[i] != '"' && tail[i] != '\\' by {
            assert(tail[i] == chars[i + 1]);
        }
        lemma_plain_string_is_read(tail, rest);
        assert(seq![chars[0]] + tail =~= chars);
    }
    let s = seq!['"'] + chars + seq!['"'] + rest;
    assert(s[0] == '"');
    assert(s.drop_first() =~= body);
    lemma_run_length_unique(s, CharClass::Whitespace, 0);
    assert(s.skip(0) =~= s);
}

/// The literal of a number is read as that number where the text ends after it or
/// goes on with a character that no number is written with. As a value it is read
/// where it starts with a digit or with the sign `-`.
pub proof fn lemma_number_is_read(literal: Seq<char>, rest: Seq<char>)
    requires
        is_float_literal(literal),
        rest.len() > 0 ==> !CharClass::Number.contains(rest[0]),
    ensures
        parse_number(literal + rest) == Ok::<_, SpecError>((SpecValue::Number(literal), rest)),
        literal.len() > 0,
        starts_number(literal[0]) ==> parse_value(literal + rest) == Ok::<_, SpecError>(
            (SpecValue::Number(literal), rest),
        ),
{
    let s = literal + rest;
    let n = literal.len() as int;
    lemma_float_literal_chars(literal);
    assert forall|i: int| 0 <= i < n implies CharClass::Number.contains(#[trigger] s[i]) by {
        assert(s[i] == literal[i]);
    }
    if n < s.len() {
        assert(s[n] == rest[0]);
    }
    lemma_run_length_unique(s, CharClass::Number, n);
    assert(s.take(n) =~= literal);
    assert(s.skip(n) =~= rest);
    if n == 0 {
        assert(literal.skip(0) =~= literal);
        assert(run_length(literal, CharClass::Digit) == 0);
    }
    if starts_number(literal[0]) {
        assert(s[0] == literal[0]);
        lemma_run_length_unique(s, CharClass::Whitespace, 0);
        assert(s.skip(0) =~= s);
    }
}

/// After an element and a comma, the elements that follow are read, whatever
/// their number.
pub proof fn lemma_elements_go_on(s: Seq<char>)
    ensures
        parse_value(s) matches Ok((value, rest)) ==> rest.len() > 0 && rest[0] == ','
            ==> parse_elements(s) == prepend(seq![value], parse_elements(rest.drop_first())),
{
    lemma_value_consumes(s);
}

/// After a member and a comma, the members that follow are read, whatever their
/// number.
pub proof fn lemma_members_go_on(s: Seq<char>)
    ensures
        parse_key(s) matches Ok((key, after_colon)) ==> parse_value(after_colon) matches Ok(
            (value, rest),
        ) ==> skip_whitespace(rest).len() > 0 && skip_whitespace(rest)[0] == ','
            ==> parse_members(s) == prepend(
            seq![(key, value)],
            parse_members(skip_whitespace(rest).drop_first()),
        ),
{
    lemma_key_consumes(s);
    match parse_key(s) {
        Ok((key, after_colon)) => {
            lemma_value_consumes(after_colon);
            match parse_value(after_colon) {
                Ok((value, rest)) => {
                    lemma_skip_whitespace(rest);
                },
                Err(e) => {},
            }
        },
        Err(e) => {},
    }
}

/// The last member with a key decides the value of the key; the other keys keep
/// what the members before gave them.
pub proof fn lemma_last_member_wins(
    members: Seq<(Seq<char>, SpecValue)>,
    key: Seq<char>,
    value: SpecValue,
)
    ensures
        entries_map(members.push((key, value))) == entries_map(members).insert(key, value),
        entries_map(members.push((key, value))).dom().contains(key),
        entries_map(members.push((key, value)))[key] == value,
{
    assert(members.push((key, value)).drop_last() =~= members);
}

} // verus!
