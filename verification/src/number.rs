//! Numbers, kept as the decimal literal that was read.
//!
//! The literals are those that the standard library reads as a binary floating
//! point number, as far as they can be written with the characters of
//! [`CharClass::Number`]: an optional sign, digits with an optional decimal point
//! among them, and an optional exponent.

use vstd::prelude::*;
use crate::chars::{
    chars_of,
    is_digit,
    lemma_run_length_is_maximal,
    lemma_run_length_unique,
    run_length,
    string_from_chars,
    CharClass,
};

verus! {

/// Whether a sign stands at position `i` of `t`.
pub open spec fn sign_at(t: Seq<char>, i: int) -> bool {
    0 <= i < t.len() && (t[i] == '+' || t[i] == '-')
}

/// The position after the digits that start at position `i` of `t`.
pub open spec fn digits_end(t: Seq<char>, i: int) -> int
    recommends
        0 <= i <= t.len(),
{
    i + run_length(t.skip(i), CharClass::Digit)
}

/// Whether `t` from position `i` on is an exponent: the letter `e` in either case,
/// an optional sign, and one digit or more up to the end of `t`.
pub open spec fn is_exponent_at(t: Seq<char>, i: int) -> bool
    recommends
        0 <= i < t.len(),
{
    let digits = if sign_at(t, i + 1) {
        i + 2
    } else {
        i + 1
    };
    &&& t[i] == 'e' || t[i] == 'E'
    &&& digits < t.len()
    &&& digits_end(t, digits) == t.len()
}

/// Whether `t` is the literal of a number: an optional sign; then digits, a decimal
/// point with digits before it, after it or on both sides; then nothing more, or an
/// exponent.
pub open spec fn is_float_literal(t: Seq<char>) -> bool {
    let start = if sign_at(t, 0) {
        1int
    } else {
        0int
    };
    let int_end = digits_end(t, start);
    let has_point = int_end < t.len() && t[int_end] == '.';
    let mantissa_end = if has_point {
        digits_end(t, int_end + 1)
    } else {
        int_end
    };
    let digits = if has_point {
        mantissa_end - start - 1
    } else {
        mantissa_end - start
    };
    &&& digits > 0
    &&& mantissa_end == t.len() || is_exponent_at(t, mantissa_end)
}

/// The position after the digits that start at position `from`.
fn scan_digits(text: &Vec<char>, from: usize) -> (end: usize)
    requires
        from <= text.len(),
    ensures
        end == digits_end(text@, from as int),
        from <= end <= text.len(),
{
    let mut end = from;
    while end < text.len() && is_digit(text[end])
        invariant
            from <= end <= text.len(),
            forall|k: int| from <= k < end ==> is_digit(#[trigger] text@[k]),
        decreases text.len() - end,
    {
        end = end + 1;
    }
    proof {
        let rest = text@.skip(from as int);
        assert forall|i: int| 0 <= i < end - from implies CharClass::Digit.contains(
            #[trigger] rest[i],
        ) by {
            assert(rest[i] == text@[from + i]);
        }
        if end - from < rest.len() {
            assert(rest[end - from] == text@[end as int]);
        }
        lemma_run_length_unique(rest, CharClass::Digit, end - from);
    }
    end
}

/// Whether `text` is the literal of a number.
pub fn check_float_literal(text: &Vec<char>) -> (ok: bool)
    ensures
        ok == is_float_literal(text@),
{
    let len = text.len();
    let start: usize = if len > 0 && (text[0] == '+' || text[0] == '-') {
        1
    } else {
        0
    };
    let int_end = scan_digits(text, start);
    let has_point = int_end < len && text[int_end] == '.';
    let mantissa_end = if has_point {
        scan_digits(text, int_end + 1)
    } else {
        int_end
    };
    let digits = if has_point {
        mantissa_end - start - 1
    } else {
        mantissa_end - start
    };
    if digits == 0 {
        return false;
    }
    if mantissa_end == len {
        return true;
    }
    if text[mantissa_end] != 'e' && text[mantissa_end] != 'E' {
        return false;
    }
    let signed = mantissa_end + 1 < len && (text[mantissa_end + 1] == '+' || text[mantissa_end + 1]
        == '-');
    let exp_start = if signed {
        mantissa_end + 2
    } else {
        mantissa_end + 1
    };
    if exp_start >= len {
        return false;
    }
    scan_digits(text, exp_start) == len
}

/// Every character of a literal is one that a number may be written with.
pub proof fn lemma_float_literal_chars(t: Seq<char>)
    requires
        is_float_literal(t),
    ensures
        forall|i: int| 0 <= i < t.len() ==> CharClass::Number.contains(#[trigger] t[i]),
{
    let start = if sign_at(t, 0) {
        1int
    } else {
        0int
    };
    lemma_digits(t, start);
    let int_end = digits_end(t, start);
    let has_point = int_end < t.len() && t[int_end] == '.';
    if has_point {
        lemma_digits(t, int_end + 1);
    }
    let mantissa_end = if has_point {
        digits_end(t, int_end + 1)
    } else {
        int_end
    };
    if mantissa_end != t.len() {
        let digits = if sign_at(t, mantissa_end + 1) {
            mantissa_end + 2
        } else {
            mantissa_end + 1
        };
        lemma_digits(t, digits);
    }
}

/// From position `i` up to `digits_end(t, i)` stand digits; the position after
/// them is within `t`, and no digit stands there.
pub proof fn lemma_digits(t: Seq<char>, i: int)
    requires
        0 <= i <= t.len(),
    ensures
        i <= digits_end(t, i) <= t.len(),
        forall|k: int| i <= k < digits_end(t, i) ==> is_digit(#[trigger] t[k]),
        digits_end(t, i) < t.len() ==> !is_digit(t[digits_end(t, i)]),
{
    let rest = t.skip(i);
    lemma_run_length_is_maximal(rest, CharClass::Digit);
    assert forall|k: int| i <= k < digits_end(t, i) implies is_digit(#[trigger] t[k]) by {
        assert(t[k] == rest[k - i]);
        assert(CharClass::Digit.contains(rest[k - i]));
    }
    if digits_end(t, i) < t.len() {
        assert(t[digits_end(t, i)] == rest[digits_end(t, i) - i]);
    }
}

/// A number of a JSON text: the literal that stands for it, as it was written.
#[derive(Debug, PartialEq, Eq)]
pub struct JsonNumber {
    literal: String,
}

impl View for JsonNumber {
    type V = Seq<char>;

    closed spec fn view(&self) -> Seq<char> {
        self.literal@
    }
}

impl JsonNumber {
    #[verifier::type_invariant]
    spec fn well_formed(&self) -> bool {
        is_float_literal(self.literal@)
    }

    /// The number that `text` is the literal of, if it is one.
    pub fn from_chars(text: &Vec<char>) -> (n: Option<JsonNumber>)
        ensures
            n is Some <==> is_float_literal(text@),
            n matches Some(number) ==> number@ == text@,
    {
        if check_float_literal(text) {
            Some(JsonNumber { literal: string_from_chars(text) })
        } else {
            None
        }
    }

    /// The number that `text` is the literal of, if it is one.
    pub fn from_literal(text: &str) -> (n: Option<JsonNumber>)
        ensures
            n is Some <==> is_float_literal(text@),
            n matches Some(number) ==> number@ == text@,
    {
        let chars = chars_of(text);
        JsonNumber::from_chars(&chars)
    }

    /// Whether two numbers have the same literal.
    pub fn same_as(&self, other: &JsonNumber) -> (same: bool)
        ensures
            same == (self@ == other@),
    {
        self.literal == other.literal
    }

    /// The literal of the number.
    pub fn as_str(&self) -> (literal: &str)
        ensures
            literal@ == self@,
            is_float_literal(literal@),
    {
        proof {
            use_type_invariant(self);
        }
        self.literal.as_str()
    }
}

} // verus!
