//! The values of a JSON text.

use vstd::prelude::*;
use vstd::std_specs::cmp::PartialEqSpecImpl;
use crate::number::JsonNumber;
use crate::object::JsonObject;

verus! {

/// A value, as contracts speak of it.
pub enum SpecValue {
    Null,
    Bool(bool),
    /// A number, given by its literal.
    Number(Seq<char>),
    String(Seq<char>),
    Array(Seq<SpecValue>),
    Object(Map<Seq<char>, SpecValue>),
}

/// A value of a JSON text.
#[derive(Debug)]
pub enum JsonValue {
    Null,
    Bool(bool),
    Number(JsonNumber),
    String(String),
    Array(Vec<JsonValue>),
    Object(JsonObject),
}

/// The values that a sequence of values stands for.
pub open spec fn value_views(items: Seq<JsonValue>) -> Seq<SpecValue>
    decreases items,
{
    Seq::new(
        items.len(),
        |i: int|
            if 0 <= i < items.len() {
                items[i].view()
            } else {
                SpecValue::Null
            },
    )
}

impl View for JsonValue {
    type V = SpecValue;

    open spec fn view(&self) -> SpecValue
        decreases self,
    {
        match self {
            JsonValue::Null => SpecValue::Null,
            JsonValue::Bool(b) => SpecValue::Bool(*b),
            JsonValue::Number(n) => SpecValue::Number(n@),
            JsonValue::String(s) => SpecValue::String(s@),
            JsonValue::Array(items) => SpecValue::Array(value_views(items@)),
            JsonValue::Object(o) => SpecValue::Object(o.view()),
        }
    }
}

/// Whether two sequences of values stand for the same values, one by one.
pub fn same_values(left: &Vec<JsonValue>, right: &Vec<JsonValue>) -> (same: bool)
    ensures
        same == (value_views(left@) == value_views(right@)),
    decreases left,
{
    if left.len() != right.len() {
        assert(value_views(left@).len() != value_views(right@).len());
        return false;
    }
    let mut i: usize = 0;
    while i < left.len()
        invariant
            i <= left.len(),
            left.len() == right.len(),
            forall|k: int| 0 <= k < i ==> left@[k]@ == right@[k]@,
        decreases left.len() - i,
    {
        if !left[i].same_as(&right[i]) {
            assert(value_views(left@)[i as int] != value_views(right@)[i as int]);
            return false;
        }
        i = i + 1;
    }
    assert(value_views(left@) =~= value_views(right@));
    true
}

impl JsonValue {
    /// Whether two values are the same: of the same kind, and the same truth value,
    /// literal or characters, the same elements in the same order, or the same
    /// members in any order.
    pub fn same_as(&self, other: &JsonValue) -> (same: bool)
        ensures
            same == (self@ == other@),
        decreases self,
    {
        match self {
            JsonValue::Null => match other {
                JsonValue::Null => true,
                _ => false,
            },
            JsonValue::Bool(a) => match other {
                JsonValue::Bool(b) => *a == *b,
                _ => false,
            },
            JsonValue::Number(a) => match other {
                JsonValue::Number(b) => a.same_as(b),
                _ => false,
            },
            JsonValue::String(a) => match other {
                JsonValue::String(b) => *a == *b,
                _ => false,
            },
            JsonValue::Array(a) => match other {
                JsonValue::Array(b) => same_values(a, b),
                _ => false,
            },
            JsonValue::Object(a) => match other {
                JsonValue::Object(b) => a.same_as(b),
                _ => false,
            },
        }
    }
}

impl PartialEq for JsonValue {
    fn eq(&self, other: &Self) -> (same: bool) {
        self.same_as(other)
    }
}

impl PartialEqSpecImpl for JsonValue {
    open spec fn obeys_eq_spec() -> bool {
        true
    }

    open spec fn eq_spec(&self, other: &Self) -> bool {
        self@ == other@
    }
}

} // verus!
