//! A JSON document as plain values, as a JSON parser hands it over.

use vstd::prelude::*;
use crate::text::str_eq;

verus! {

/// A JSON value. Numbers are kept as the text they were written with.
#[derive(Debug, PartialEq)]
pub enum JsonValue {
    Null,
    Bool(bool),
    Number(String),
    String(String),
    Array(Vec<JsonValue>),
    /// members in the order the parser gives them, each key once
    Object(Vec<JsonMember>),
}

/// One `"key": value` member of an object.
#[derive(Debug, PartialEq)]
pub struct JsonMember {
    pub key: String,
    pub value: JsonValue,
}

/// The value of the first member named `key` at or after index `i`.
pub open spec fn member_from(ms: Seq<JsonMember>, key: Seq<char>, i: int) -> Option<JsonValue>
    decreases ms.len() - i,
{
    if i < 0 || i >= ms.len() {
        None
    } else if ms[i].key@ == key {
        Some(ms[i].value)
    } else {
        member_from(ms, key, i + 1)
    }
}

/// The member named `key` of an object; `None` for anything else.
pub open spec fn member(v: JsonValue, key: Seq<char>) -> Option<JsonValue> {
    match v {
        JsonValue::Object(ms) => member_from(ms@, key, 0),
        _ => None,
    }
}

impl JsonValue {
    /// The member named `key`, when this is an object that has one.
    pub fn get(&self, key: &str) -> (r: Option<&JsonValue>)
        ensures
            match r {
                Some(v) => member(*self, key@) == Some(*v),
                None => member(*self, key@) is None,
            },
    {
        match self {
            JsonValue::Object(ms) => {
                let mut i: usize = 0;
                while i < ms.len()
                    invariant
                        i <= ms@.len(),
                        member(*self, key@) == member_from(ms@, key@, 0),
                        member_from(ms@, key@, 0) == member_from(ms@, key@, i as int),
                    decreases ms@.len() - i,
                {
                    if str_eq(ms[i].key.as_str(), key) {
                        return Some(&ms[i].value);
                    }
                    i = i + 1;
                }
                None
            },
            _ => None,
        }
    }

    /// Whether this is an object.
    pub fn is_object(&self) -> (b: bool)
        ensures
            b == (*self is Object),
    {
        match self {
            JsonValue::Object(_) => true,
            _ => false,
        }
    }
}

/// A JSON value as plain values.
pub enum JsonView {
    Null,
    Bool(bool),
    Number(Seq<char>),
    String(Seq<char>),
    Array(Seq<JsonView>),
    Object(Seq<(Seq<char>, JsonView)>),
}

/// The plain values of a JSON value.
pub open spec fn json_view(j: JsonValue) -> JsonView
    decreases j,
{
    match j {
        JsonValue::Null => JsonView::Null,
        JsonValue::Bool(b) => JsonView::Bool(b),
        JsonValue::Number(t) => JsonView::Number(t@),
        JsonValue::String(s) => JsonView::String(s@),
        JsonValue::Array(items) => JsonView::Array(
            Seq::new(items@.len(), |i: int| if 0 <= i < items@.len() { json_view(items@[i]) } else { JsonView::Null }),
        ),
        JsonValue::Object(ms) => JsonView::Object(
            Seq::new(
                ms@.len(),
                |i: int| if 0 <= i < ms@.len() { (ms@[i].key@, json_view(ms@[i].value)) } else { (Seq::empty(), JsonView::Null) },
            ),
        ),
    }
}

/// A member whose value is a string.
pub fn string_member(key: &str, value: &str) -> (m: JsonMember)
    ensures
        m.key@ == key@,
        json_view(m.value) == JsonView::String(value@),
{
    JsonMember { key: key.to_string(), value: JsonValue::String(value.to_string()) }
}


fn object_of(ms: Vec<JsonMember>) -> (j: JsonValue)
    ensures
        json_view(j) == JsonView::Object(ms@.map_values(|m: JsonMember| (m.key@, json_view(m.value)))),
{
    let j = JsonValue::Object(ms);
    proof {
        let s = match json_view(j) {
            JsonView::Object(s) => s,
            _ => Seq::empty(),
        };
        assert(s =~= ms@.map_values(|m: JsonMember| (m.key@, json_view(m.value))));
    }
    j
}

/// An object of one member.
pub fn object1(a: JsonMember) -> (j: JsonValue)
    ensures
        json_view(j) == JsonView::Object(seq![(a.key@, json_view(a.value))]),
{
    let ghost ga = a;
    let mut ms: Vec<JsonMember> = Vec::new();
    ms.push(a);
    proof {
        assert(ms@.map_values(|m: JsonMember| (m.key@, json_view(m.value))) =~= seq![(ga.key@, json_view(ga.value))]);
    }
    object_of(ms)
}

/// An object of two members, in the given order.
pub fn object2(a: JsonMember, b: JsonMember) -> (j: JsonValue)
    ensures
        json_view(j) == JsonView::Object(seq![(a.key@, json_view(a.value)), (b.key@, json_view(b.value))]),
{
    let ghost ga = a;
    let ghost gb = b;
    let mut ms: Vec<JsonMember> = Vec::new();
    ms.push(a);
    ms.push(b);
    proof {
        assert(ms@.map_values(|m: JsonMember| (m.key@, json_view(m.value))) =~= seq![
            (ga.key@, json_view(ga.value)),
            (gb.key@, json_view(gb.value)),
        ]);
    }
    object_of(ms)
}

/// An object of three members, in the given order.
pub fn object3(a: JsonMember, b: JsonMember, c: JsonMember) -> (j: JsonValue)
    ensures
        json_view(j) == JsonView::Object(
            seq![(a.key@, json_view(a.value)), (b.key@, json_view(b.value)), (c.key@, json_view(c.value))],
        ),
{
    let ghost ga = a;
    let ghost gb = b;
    let ghost gc = c;
    let mut ms: Vec<JsonMember> = Vec::new();
    ms.push(a);
    ms.push(b);
    ms.push(c);
    proof {
        assert(ms@.map_values(|m: JsonMember| (m.key@, json_view(m.value))) =~= seq![
            (ga.key@, json_view(ga.value)),
            (gb.key@, json_view(gb.value)),
            (gc.key@, json_view(gc.value)),
        ]);
    }
    object_of(ms)
}


/// An array of the given items, in order.
pub fn array_of(items: Vec<JsonValue>) -> (j: JsonValue)
    ensures
        json_view(j) == JsonView::Array(items@.map_values(|v: JsonValue| json_view(v))),
{
    let j = JsonValue::Array(items);
    proof {
        let s = match json_view(j) {
            JsonView::Array(s) => s,
            _ => Seq::empty(),
        };
        assert(s =~= items@.map_values(|v: JsonValue| json_view(v)));
    }
    j
}

} // verus!
