//! The parser: a cursor over the characters of a text, and one function for each
//! production of the grammar.

use vstd::prelude::*;
use crate::chars::{
    chars_of,
    hex_value,
    is_digit,
    is_whitespace,
    lemma_run_length_is_maximal,
    lemma_run_length_unique,
    run_length,
    spells,
    string_from_chars,
    CharClass,
};
use crate::error::{ParseError, Production, SpecError};
use crate::grammar;
use crate::number::JsonNumber;
use crate::object::{entries_map, JsonObject};
use crate::value::{value_views, JsonValue, SpecValue};

verus! {

/// Whether `result`, with `left` still to be read, is what the grammar asks for:
/// on success the value and the text that the production leaves, on failure the
/// failure of the production.
pub open spec fn agrees(
    expected: Result<(SpecValue, Seq<char>), SpecError>,
    result: Result<JsonValue, ParseError>,
    left: Seq<char>,
) -> bool {
    match result {
        Ok(value) => expected == Ok::<(SpecValue, Seq<char>), SpecError>((value@, left)),
        Err(error) => expected == Err::<(SpecValue, Seq<char>), SpecError>(error@),
    }
}

/// A cursor over the characters of a text. It moves forward only, and shows the
/// next character before it is consumed.
pub struct Parser {
    chars: Vec<char>,
    pos: usize,
}

impl View for Parser {
    type V = Seq<char>;

    /// The characters that are still to be read.
    closed spec fn view(&self) -> Seq<char> {
        self.chars@.skip(self.pos as int)
    }
}

impl Parser {
    #[verifier::type_invariant]
    spec fn well_formed(&self) -> bool {
        self.pos <= self.chars.len()
    }

    /// A parser at the start of `input`.
    pub fn new(input: &str) -> (parser: Self)
        ensures
            parser@ == input@,
    {
        Parser { chars: chars_of(input), pos: 0 }
    }

    /// The next character, which stays in place; `None` at the end of the input.
    pub fn peek(&self) -> (next: Option<char>)
        ensures
            next == grammar::first_of(self@),
    {
        proof {
            use_type_invariant(self);
        }
        if self.pos < self.chars.len() {
            Some(self.chars[self.pos])
        } else {
            None
        }
    }

    /// Consumes the next character and returns it; `None` at the end of the input.
    pub fn advance(&mut self) -> (next: Option<char>)
        ensures
            next == grammar::first_of(old(self)@),
            final(self)@ == (if old(self)@.len() > 0 {
                old(self)@.drop_first()
            } else {
                old(self)@
            }),
    {
        proof {
            use_type_invariant(&*self);
        }
        if self.pos < self.chars.len() {
            let c = self.chars[self.pos];
            self.pos = self.pos + 1;
            Some(c)
        } else {
            None
        }
    }

    /// Consumes the white space that the input starts with.
    pub fn remove_whitespace(&mut self)
        ensures
            final(self)@ == grammar::skip_whitespace(old(self)@),
    {
        loop
            invariant
                grammar::skip_whitespace(self@) == grammar::skip_whitespace(old(self)@),
            ensures
                self@ == grammar::skip_whitespace(old(self)@),
            decreases self@.len(),
        {
            let ghost before = self@;
            match self.peek() {
                Some(c) => {
                    if is_whitespace(c) {
                        self.advance();
                        proof {
                            let n = run_length(before.drop_first(), CharClass::Whitespace) as int;
                            lemma_run_length_is_maximal(
                                before.drop_first(),
                                CharClass::Whitespace,
                            );
                            assert(before.drop_first().skip(n) =~= before.skip(n + 1));
                        }
                    } else {
                        assert(before.skip(0) =~= before);
                        break ;
                    }
                },
                None => {
                    assert(before.skip(0) =~= before);
                    break ;
                },
            }
        }
    }

    /// Consumes the longest run of characters of `class` that the input starts
    /// with, and returns it.
    pub fn take_run(&mut self, class: CharClass) -> (run: Vec<char>)
        ensures
            run@ == old(self)@.take(run_length(old(self)@, class) as int),
            final(self)@ == old(self)@.skip(run_length(old(self)@, class) as int),
    {
        let mut run: Vec<char> = Vec::new();
        loop
            invariant
                run@.len() <= old(self)@.len(),
                run@ == old(self)@.take(run@.len() as int),
                self@ == old(self)@.skip(run@.len() as int),
                forall|i: int| 0 <= i < run@.len() ==> class.contains(#[trigger] old(self)@[i]),
            ensures
                run@ == old(self)@.take(run_length(old(self)@, class) as int),
                self@ == old(self)@.skip(run_length(old(self)@, class) as int),
            decreases self@.len(),
        {
            let ghost k = run@.len() as int;
            let ghost start = old(self)@;
            let next = self.peek();
            let go_on = match next {
                Some(c) => class.contains(c),
                None => false,
            };
            if !go_on {
                proof {
                    lemma_run_length_unique(start, class, k);
                }
                break ;
            }
            let c = next.unwrap();
            self.advance();
            run.push(c);
            proof {
                assert(start.skip(k).drop_first() =~= start.skip(k + 1));
                assert(start.take(k).push(start[k]) =~= start.take(k + 1));
            }
        }
        run
    }

    /// Reads a number.
    pub fn parse_number(&mut self) -> (result: Result<JsonValue, ParseError>)
        ensures
            agrees(grammar::parse_number(old(self)@), result, final(self)@),
    {
        let run = self.take_run(CharClass::Number);
        match JsonNumber::from_chars(&run) {
            Some(number) => Ok(JsonValue::Number(number)),
            None => Err(ParseError::InvalidNumber(string_from_chars(&run))),
        }
    }

    /// Reads one of the words `true` and `false`.
    pub fn parse_bool(&mut self) -> (result: Result<JsonValue, ParseError>)
        ensures
            agrees(grammar::parse_bool(old(self)@), result, final(self)@),
    {
        let word = self.take_run(CharClass::Alphabetic);
        if spells(&word, "true") {
            Ok(JsonValue::Bool(true))
        } else if spells(&word, "false") {
            Ok(JsonValue::Bool(false))
        } else {
            Err(ParseError::InvalidLiteral(string_from_chars(&word)))
        }
    }

    /// Reads the word `null`, character by character.
    pub fn parse_null(&mut self) -> (result: Result<JsonValue, ParseError>)
        ensures
            agrees(grammar::parse_null(old(self)@), result, final(self)@),
    {
        let word = chars_of("null");
        let mut i: usize = 0;
        assert(word@.skip(0) =~= word@);
        while i < word.len()
            invariant
                i <= word.len(),
                word@ == "null"@,
                grammar::expect_word(old(self)@, "null"@, Production::Null)
                    == grammar::expect_word(self@, word@.skip(i as int), Production::Null),
            decreases word.len() - i,
        {
            let expected = word[i];
            let ghost rest = word@.skip(i as int);
            assert(rest[0] == expected);
            assert(rest.drop_first() =~= word@.skip(i + 1));
            match self.advance() {
                Some(c) => {
                    if c != expected {
                        return Err(ParseError::ExpectedToken { expected, found: Some(c) });
                    }
                },
                None => {
                    return Err(ParseError::UnexpectedEof(Production::Null));
                },
            }
            i = i + 1;
        }
        Ok(JsonValue::Null)
    }

    /// Reads the four hexadecimal digits that follow `\u` and returns the character
    /// whose code they give.
    pub fn parse_unicode_escape(&mut self) -> (result: Result<char, ParseError>)
        ensures
            match result {
                Ok(c) => grammar::parse_unicode_escape(old(self)@) == Ok::<_, SpecError>(
                    (c, final(self)@),
                ),
                Err(error) => grammar::parse_unicode_escape(old(self)@) == Err::<
                    (char, Seq<char>),
                    _,
                >(error@),
            },
    {
        let mut digits: Vec<char> = Vec::new();
        while digits.len() < 4
            invariant
                digits@.len() <= 4,
                digits@.len() <= old(self)@.len(),
                digits@ == old(self)@.take(digits@.len() as int),
                self@ == old(self)@.skip(digits@.len() as int),
            decreases 4 - digits.len(),
        {
            let ghost k = digits@.len() as int;
            match self.advance() {
                Some(c) => {
                    digits.push(c);
                    proof {
                        assert(old(self)@.skip(k).drop_first() =~= old(self)@.skip(k + 1));
                        assert(old(self)@.take(k).push(old(self)@[k]) =~= old(self)@.take(k + 1));
                    }
                },
                None => {
                    return Err(ParseError::UnexpectedEof(Production::UnicodeEscape));
                },
            }
        }
        let d0 = hex_value(digits[0]);
        let d1 = hex_value(digits[1]);
        let d2 = hex_value(digits[2]);
        let d3 = hex_value(digits[3]);
        match (d0, d1, d2, d3) {
            (Some(a), Some(b), Some(c), Some(d)) => {
                let code: u32 = a * 4096 + b * 256 + c * 16 + d;
                match char::from_u32(code) {
                    Some(ch) => Ok(ch),
                    None => Err(ParseError::InvalidUnicodeEscape(string_from_chars(&digits))),
                }
            },
            _ => Err(ParseError::InvalidHexDigits(string_from_chars(&digits))),
        }
    }

    /// Reads what follows a backslash in a string and returns the character that
    /// the escape stands for.
    pub fn parse_escape(&mut self) -> (result: Result<char, ParseError>)
        ensures
            match result {
                Ok(c) => grammar::parse_escape(old(self)@) == Ok::<_, SpecError>(
                    (c, final(self)@),
                ),
                Err(error) => grammar::parse_escape(old(self)@) == Err::<(char, Seq<char>), _>(
                    error@,
                ),
            },
    {
        match self.advance() {
            None => Err(ParseError::UnexpectedEof(Production::Escape)),
            Some(c) => {
                if c == '"' || c == '\\' || c == '/' {
                    Ok(c)
                } else if c == 'b' {
                    Ok('\u{8}')
                } else if c == 'f' {
                    Ok('\u{c}')
                } else if c == 'n' {
                    Ok('\n')
                } else if c == 'r' {
                    Ok('\r')
                } else if c == 't' {
                    Ok('\t')
                } else if c == 'u' {
                    self.parse_unicode_escape()
                } else {
                    Err(ParseError::InvalidEscapeSequence(c))
                }
            },
        }
    }

    /// Reads a string: a quote, then characters and escapes up to the closing
    /// quote.
    pub fn parse_string(&mut self) -> (result: Result<JsonValue, ParseError>)
        ensures
            agrees(grammar::parse_string(old(self)@), result, final(self)@),
    {
        let first = self.advance();
        let opened = match first {
            Some(c) => c == '"',
            None => false,
        };
        if !opened {
            return Err(ParseError::ExpectedToken { expected: '"', found: first });
        }
        let ghost body = self@;
        let mut text = String::new();
        assert(Seq::<char>::empty() + Seq::<char>::empty() =~= Seq::<char>::empty());
        loop
            invariant
                old(self)@.len() > 0,
                old(self)@[0] == '"',
                body == old(self)@.drop_first(),
                grammar::parse_string_body(body) == grammar::prepend(
                    text@,
                    grammar::parse_string_body(self@),
                ),
            decreases self@.len(),
        {
            let ghost before = self@;
            let ghost so_far = text@;
            match self.peek() {
                None => {
                    return Err(ParseError::UnterminatedString);
                },
                Some(c) => {
                    self.advance();
                    if c == '"' {
                        assert(so_far + Seq::<char>::empty() =~= so_far);
                        return Ok(JsonValue::String(text));
                    } else if c == '\\' {
                        match self.parse_escape() {
                            Ok(escaped) => {
                                text.push(escaped);
                                proof {
                                    grammar::lemma_prepend_twice(
                                        so_far,
                                        seq![escaped],
                                        grammar::parse_string_body(self@),
                                    );
                                    assert(so_far + seq![escaped] =~= so_far.push(escaped));
                                }
                            },
                            Err(error) => {
                                return Err(error);
                            },
                        }
                    } else {
                        text.push(c);
                        proof {
                            grammar::lemma_prepend_twice(
                                so_far,
                                seq![c],
                                grammar::parse_string_body(self@),
                            );
                            assert(so_far + seq![c] =~= so_far.push(c));
                        }
                    }
                },
            }
        }
    }

    /// Reads a value: skips white space and lets the next character decide which
    /// production reads on.
    pub fn parse(&mut self) -> (result: Result<JsonValue, ParseError>)
        ensures
            agrees(grammar::parse_value(old(self)@), result, final(self)@),
        decreases old(self)@.len(), 2nat,
    {
        self.remove_whitespace();
        proof {
            grammar::lemma_skip_whitespace(old(self)@);
        }
        match self.peek() {
            None => Err(ParseError::UnexpectedEof(Production::Value)),
            Some(c) => {
                if c == '{' {
                    self.parse_object()
                } else if c == '"' {
                    self.parse_string()
                } else if c == '[' {
                    self.parse_array()
                } else if is_digit(c) || c == '-' {
                    self.parse_number()
                } else if c == 't' || c == 'f' {
                    self.parse_bool()
                } else if c == 'n' {
                    self.parse_null()
                } else {
                    Err(ParseError::UnexpectedToken { token: c, context: Production::Value })
                }
            },
        }
    }

    /// Reads an array: its elements stand between brackets, with a comma directly
    /// after each one but the last.
    pub fn parse_array(&mut self) -> (result: Result<JsonValue, ParseError>)
        ensures
            agrees(grammar::parse_array(old(self)@), result, final(self)@),
        decreases old(self)@.len(), 1nat,
    {
        let first = self.advance();
        let opened = match first {
            Some(c) => c == '[',
            None => false,
        };
        if !opened {
            return Err(ParseError::ExpectedToken { expected: '[', found: first });
        }
        let mut items: Vec<JsonValue> = Vec::new();
        self.remove_whitespace();
        proof {
            grammar::lemma_skip_whitespace(old(self)@.drop_first());
        }
        match self.peek() {
            Some(c) => {
                if c == ']' {
                    self.advance();
                    assert(value_views(items@) =~= Seq::<SpecValue>::empty());
                    return Ok(JsonValue::Array(items));
                }
            },
            None => {},
        }
        let ghost inner = self@;
        assert(Seq::<SpecValue>::empty() + Seq::<SpecValue>::empty() =~= Seq::<SpecValue>::empty());
        assert(value_views(items@) =~= Seq::<SpecValue>::empty());
        loop
            invariant
                old(self)@.len() > 0,
                old(self)@[0] == '[',
                inner == grammar::skip_whitespace(old(self)@.drop_first()),
                !(inner.len() > 0 && inner[0] == ']'),
                self@.len() < old(self)@.len(),
                grammar::parse_elements(inner) == grammar::prepend(
                    value_views(items@),
                    grammar::parse_elements(self@),
                ),
            decreases self@.len(),
        {
            let ghost s = self@;
            let ghost so_far = value_views(items@);
            self.remove_whitespace();
            proof {
                grammar::lemma_skip_whitespace(s);
                grammar::lemma_value_after_whitespace(s);
                grammar::lemma_value_consumes(s);
            }
            let value = match self.parse() {
                Ok(value) => value,
                Err(error) => {
                    return Err(error);
                },
            };
            let ghost rest = self@;
            let ghost element = value@;
            items.push(value);
            proof {
                assert(value_views(items@) =~= so_far.push(element));
                assert(so_far + seq![element] =~= so_far.push(element));
                assert(value_views(items@) + Seq::<SpecValue>::empty() =~= value_views(items@));
            }
            match self.advance() {
                Some(c) => {
                    if c == ']' {
                        return Ok(JsonValue::Array(items));
                    } else if c != ',' {
                        return Err(
                            ParseError::UnexpectedToken { token: c, context: Production::Array },
                        );
                    }
                    proof {
                        grammar::lemma_prepend_twice(
                            so_far,
                            seq![element],
                            grammar::parse_elements(rest.drop_first()),
                        );
                    }
                },
                None => {
                    return Err(ParseError::UnexpectedEof(Production::Array));
                },
            }
        }
    }

    /// Reads an object: its members stand between braces, each a key, a colon and a
    /// value, with a comma after each one but the last. A key that was read before
    /// gets the new value.
    pub fn parse_object(&mut self) -> (result: Result<JsonValue, ParseError>)
        ensures
            agrees(grammar::parse_object(old(self)@), result, final(self)@),
        decreases old(self)@.len(), 1nat,
    {
        let first = self.advance();
        let opened = match first {
            Some(c) => c == '{',
            None => false,
        };
        if !opened {
            return Err(ParseError::ExpectedToken { expected: '{', found: first });
        }
        let mut object = JsonObject::new();
        self.remove_whitespace();
        proof {
            grammar::lemma_skip_whitespace(old(self)@.drop_first());
        }
        match self.peek() {
            Some(c) => {
                if c == '}' {
                    self.advance();
                    return Ok(JsonValue::Object(object));
                }
            },
            None => {},
        }
        let ghost inner = self@;
        let ghost mut members: Seq<(Seq<char>, SpecValue)> = Seq::empty();
        assert(members + members =~= members);
        loop
            invariant
                old(self)@.len() > 0,
                old(self)@[0] == '{',
                inner == grammar::skip_whitespace(old(self)@.drop_first()),
                !(inner.len() > 0 && inner[0] == '}'),
                self@.len() < old(self)@.len(),
                object@ == entries_map(members),
                grammar::parse_members(inner) == grammar::prepend(
                    members,
                    grammar::parse_members(self@),
                ),
            decreases self@.len(),
        {
            let ghost s = self@;
            let ghost so_far = members;
            self.remove_whitespace();
            let key = match self.parse_string() {
                Ok(JsonValue::String(key)) => key,
                Ok(_) => {
                    return Err(ParseError::InvalidKey);
                },
                Err(error) => {
                    return Err(error);
                },
            };
            self.remove_whitespace();
            let colon = self.advance();
            let found = match colon {
                Some(c) => c == ':',
                None => false,
            };
            if !found {
                return Err(ParseError::ExpectedToken { expected: ':', found: colon });
            }
            let ghost after_colon = self@;
            self.remove_whitespace();
            proof {
                grammar::lemma_key_consumes(s);
                grammar::lemma_skip_whitespace(after_colon);
                grammar::lemma_value_after_whitespace(after_colon);
                grammar::lemma_value_consumes(after_colon);
            }
            let value = match self.parse() {
                Ok(value) => value,
                Err(error) => {
                    return Err(error);
                },
            };
            let ghost member = (key@, value@);
            let ghost rest = self@;
            object.insert(key, value);
            self.remove_whitespace();
            proof {
                members = so_far.push(member);
                assert(members.drop_last() =~= so_far);
                assert(so_far + seq![member] =~= members);
                assert(members + Seq::<(Seq<char>, SpecValue)>::empty() =~= members);
                grammar::lemma_skip_whitespace(rest);
            }
            let ghost end = self@;
            match self.advance() {
                Some(c) => {
                    if c == '}' {
                        return Ok(JsonValue::Object(object));
                    } else if c != ',' {
                        return Err(
                            ParseError::UnexpectedToken { token: c, context: Production::Object },
                        );
                    }
                    proof {
                        grammar::lemma_prepend_twice(
                            so_far,
                            seq![member],
                            grammar::parse_members(end.drop_first()),
                        );
                    }
                },
                None => {
                    return Err(ParseError::UnexpectedEof(Production::Object));
                },
            }
        }
    }
}

} // verus!
