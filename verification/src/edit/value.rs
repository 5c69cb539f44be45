//! Values in the edit contract, independent of the tree's own types.
//!
//! A decimal number is kept as the text it was written with.

use vstd::prelude::*;
use crate::ast::{
    key_text, ArrayValue, Expression, InlineTable, Key, KeyValue, NumberValue, ScalarValue, TableBlock, TableEntry,
    Value,
};
use crate::engine::pretty_printer::{lemma_seq_le_antisym, lemma_seq_le_total, seq_le};
use crate::span::Span;
use crate::text::{chars_of, decimal_digits, int_text, str_eq, to_owned_string};
use crate::chars::{alpha, is_alpha, is_key_char, key_char};

verus! {

broadcast use vstd::string::group_string_axioms;

/// A value in an edit: what JSON can say.
#[derive(Debug, PartialEq)]
pub enum EditValue {
    Bool(bool),
    Integer(i64),
    /// decimal text such as `1.5`
    Float(String),
    String(String),
    Array(Vec<EditValue>),
    /// fields sorted by name, each name once
    Table(Vec<EditField>),
}

/// One field of a table value.
#[derive(Debug, PartialEq)]
pub struct EditField {
    pub name: String,
    pub value: EditValue,
}

/// Four lower-case hexadecimal digits after `\u00`: the two of a control character.
pub open spec fn hex_digit(d: nat) -> char {
    if d < 10 { ((('0' as u32) + d) as u8) as char } else { ((('a' as u32) + d - 10) as u8) as char }
}

/// A character inside a JSON string as `serde_json` writes it.
pub open spec fn json_string_char(c: char) -> Seq<char> {
    if c == '"' {
        seq!['\\', '"']
    } else if c == '\\' {
        seq!['\\', '\\']
    } else if c == '\u{8}' {
        seq!['\\', 'b']
    } else if c == '\u{c}' {
        seq!['\\', 'f']
    } else if c == '\n' {
        seq!['\\', 'n']
    } else if c == '\r' {
        seq!['\\', 'r']
    } else if c == '\t' {
        seq!['\\', 't']
    } else if (c as u32) < 0x20 {
        seq!['\\', 'u', '0', '0', hex_digit(((c as u32) / 16) as nat), hex_digit(((c as u32) % 16) as nat)]
    } else {
        seq![c]
    }
}

/// The characters of a JSON string literal's body.
pub open spec fn json_string_body(s: Seq<char>) -> Seq<char>
    decreases s.len(),
{
    if s.len() == 0 { Seq::empty() } else { json_string_body(s.drop_last()) + json_string_char(s.last()) }
}

/// A JSON string literal.
pub open spec fn json_string(s: Seq<char>) -> Seq<char> {
    seq!['"'] + json_string_body(s) + seq!['"']
}

/// A value as compact JSON.
pub open spec fn json_text(v: EditValue) -> Seq<char>
    decreases v, 1nat,
{
    match v {
        EditValue::Bool(b) => if b { "true"@ } else { "false"@ },
        EditValue::Integer(i) => int_text(i as int),
        EditValue::Float(t) => t@,
        EditValue::String(s) => json_string(s@),
        EditValue::Array(items) => seq!['['] + json_items(items@) + seq![']'],
        EditValue::Table(fields) => seq!['{'] + json_fields(fields@) + seq!['}'],
    }
}

/// Array items separated by commas.
pub open spec fn json_items(items: Seq<EditValue>) -> Seq<char>
    decreases items, 1nat,
{
    if items.len() == 0 {
        Seq::empty()
    } else if items.len() == 1 {
        json_text(items[0])
    } else {
        json_items(items.drop_last()) + seq![','] + json_text(items.last())
    }
}

/// One `"name":value` member.
pub open spec fn json_member(f: EditField) -> Seq<char>
    decreases f, 0nat,
{
    json_string(f.name@) + seq![':'] + json_text(f.value)
}

/// Object members separated by commas.
pub open spec fn json_fields(fields: Seq<EditField>) -> Seq<char>
    decreases fields, 1nat,
{
    if fields.len() == 0 {
        Seq::empty()
    } else if fields.len() == 1 {
        json_member(fields[0])
    } else {
        json_fields(fields.drop_last()) + seq![','] + json_member(fields.last())
    }
}

fn hex_char(d: u32) -> (c: char)
    requires
        d < 16,
    ensures
        c == hex_digit(d as nat),
{
    if d < 10 {
        ((('0' as u32) + d) as u8) as char
    } else {
        ((('a' as u32) + d - 10) as u8) as char
    }
}

/// Appends `s` as a JSON string literal.
pub fn push_json_string(out: &mut String, s: &str)
    ensures
        final(out)@ == old(out)@ + json_string(s@),
{
    let v = chars_of(s);
    out.push('"');
    let ghost start = out@;
    let mut i: usize = 0;
    while i < v.len()
        invariant
            i <= v@.len(),
            v@ == s@,
            out@ == start + json_string_body(v@.take(i as int)),
        decreases v@.len() - i,
    {
        proof {
            assert(v@.take(i + 1).drop_last() == v@.take(i as int));
        }
        let c = v[i];
        if c == '"' {
            out.push('\\');
            out.push('"');
        } else if c == '\\' {
            out.push('\\');
            out.push('\\');
        } else if c == '\u{8}' {
            out.push('\\');
            out.push('b');
        } else if c == '\u{c}' {
            out.push('\\');
            out.push('f');
        } else if c == '\n' {
            out.push('\\');
            out.push('n');
        } else if c == '\r' {
            out.push('\\');
            out.push('r');
        } else if c == '\t' {
            out.push('\\');
            out.push('t');
        } else if (c as u32) < 0x20 {
            out.push('\\');
            out.push('u');
            out.push('0');
            out.push('0');
            out.push(hex_char((c as u32) / 16));
            out.push(hex_char((c as u32) % 16));
        } else {
            out.push(c);
        }
        i = i + 1;
    }
    proof {
        assert(v@.take(v@.len() as int) == v@);
    }
    out.push('"');
}

fn push_json(out: &mut String, v: &EditValue)
    ensures
        final(out)@ == old(out)@ + json_text(*v),
    decreases v, 1nat,
{
    match v {
        EditValue::Bool(b) => {
            if *b {
                out.push_str("true");
            } else {
                out.push_str("false");
            }
        },
        EditValue::Integer(i) => crate::text::push_i64(out, *i),
        EditValue::Float(t) => out.push_str(t.as_str()),
        EditValue::String(s) => push_json_string(out, s.as_str()),
        EditValue::Array(items) => {
            out.push('[');
            push_json_items(out, items);
            out.push(']');
        },
        EditValue::Table(fields) => {
            out.push('{');
            push_json_fields(out, fields);
            out.push('}');
        },
    }
}

fn push_json_items(out: &mut String, items: &Vec<EditValue>)
    ensures
        final(out)@ == old(out)@ + json_items(items@),
    decreases items@, 1nat,
{
    let ghost start = out@;
    let mut i: usize = 0;
    while i < items.len()
        invariant
            i <= items@.len(),
            out@ == start + json_items(items@.take(i as int)),
        decreases items@.len() - i,
    {
        proof {
            assert(items@.take(i + 1).drop_last() == items@.take(i as int));
            assert(items@.take(i + 1).last() == items@[i as int]);
            assert(items@.take(i + 1)[0] == items@[0]);
        }
        if i > 0 {
            out.push(',');
        }
        push_json(out, &items[i]);
        i = i + 1;
    }
    proof {
        assert(items@.take(items@.len() as int) == items@);
    }
}

fn push_json_fields(out: &mut String, fields: &Vec<EditField>)
    ensures
        final(out)@ == old(out)@ + json_fields(fields@),
    decreases fields@, 1nat,
{
    let ghost start = out@;
    let mut i: usize = 0;
    while i < fields.len()
        invariant
            i <= fields@.len(),
            out@ == start + json_fields(fields@.take(i as int)),
        decreases fields@.len() - i,
    {
        proof {
            assert(fields@.take(i + 1).drop_last() == fields@.take(i as int));
            assert(fields@.take(i + 1).last() == fields@[i as int]);
            assert(fields@.take(i + 1)[0] == fields@[0]);
        }
        if i > 0 {
            out.push(',');
        }
        push_json_string(out, fields[i].name.as_str());
        out.push(':');
        push_json(out, &fields[i].value);
        proof {
            assert(json_member(fields@[i as int]) == json_string(fields@[i as int].name@) + seq![':'] + json_text(
                fields@[i as int].value,
            ));
        }
        i = i + 1;
    }
    proof {
        assert(fields@.take(fields@.len() as int) == fields@);
    }
}

impl EditValue {
    /// The value as compact JSON, fields in name order.
    pub fn to_text(&self) -> (s: String)
        ensures
            s@ == json_text(*self),
    {
        let mut s = String::new();
        push_json(&mut s, self);
        s
    }
}


/// Whether a name can be written as a bare key: an ASCII letter or `_`
/// first, then ASCII letters, digits, `_` and `-`.
pub open spec fn is_bare_name(s: Seq<char>) -> bool {
    &&& s.len() > 0
    &&& (is_alpha(s[0]) || s[0] == '_')
    &&& forall|i: int| 1 <= i < s.len() ==> is_key_char(#[trigger] s[i])
}

/// The key for a field name: bare when that is safe, quoted otherwise.
pub open spec fn key_for_name(name: Seq<char>, k: Key) -> bool {
    &&& key_text(k) == name
    &&& (k is BareKey <==> is_bare_name(name))
}

/// The key for a field name: bare when it can be written bare, else quoted,
/// so that what is generated is always valid.
pub fn key_for(name: &str) -> (k: Key)
    ensures
        key_for_name(name@, k),
{
    let v = chars_of(name);
    let mut bare = v.len() > 0 && (alpha(v[0]) || v[0] == '_');
    let mut i: usize = 1;
    while bare && i < v.len()
        invariant
            v@ == name@,
            1 <= i,
            bare ==> v@.len() > 0 && (is_alpha(v@[0]) || v@[0] == '_') && i <= v@.len() && forall|j: int| 1 <= j < i ==> is_key_char(#[trigger] v@[j]),
            !bare ==> !is_bare_name(name@),
        decreases v@.len() - i,
    {
        if !key_char(v[i]) {
            bare = false;
        }
        i = i + 1;
    }
    if bare {
        Key::BareKey(to_owned_string(name))
    } else {
        Key::QuotedKey(to_owned_string(name))
    }
}

/// The span of something made up, not read from a file.
pub open spec fn no_span() -> Span {
    Span { start: 0, end: 0, line: 0, column: 0 }
}

/// Whether `a` is how `v` is written in the tree: scalars as themselves,
/// arrays as arrays, tables as inline tables whose keys are chosen by
/// [`key_for`], with no metadata, comment or location.
pub open spec fn renders_as(v: EditValue, a: Value) -> bool
    decreases v, 1nat,
{
    match v {
        EditValue::Bool(b) => a == Value::Scalar(ScalarValue::Boolean(b)),
        EditValue::Integer(i) => a == Value::Scalar(ScalarValue::Number(NumberValue::Integer(i))),
        EditValue::Float(t) => a matches Value::Scalar(ScalarValue::Number(NumberValue::Float(u))) && u@ == t@,
        EditValue::String(s) => a matches Value::Scalar(ScalarValue::String(u)) && u@ == s@,
        EditValue::Array(items) => a matches Value::Array(arr) && arr.span == no_span() && items_render_as(
            items@,
            arr.elements@,
        ),
        EditValue::Table(fields) => a matches Value::InlineTable(t) && t.span == no_span() && fields_render_as(
            fields@,
            t.entries@,
        ),
    }
}

/// Item by item, [`renders_as`].
pub open spec fn items_render_as(vs: Seq<EditValue>, xs: Seq<Value>) -> bool
    decreases vs, 1nat,
{
    &&& vs.len() == xs.len()
    &&& vs.len() > 0 ==> items_render_as(vs.drop_last(), xs.drop_last()) && renders_as(vs.last(), xs.last())
}

/// A field written as `key = value`.
pub open spec fn field_renders_as(f: EditField, kv: KeyValue) -> bool
    decreases f, 0nat,
{
    &&& key_for_name(f.name@, kv.key)
    &&& renders_as(f.value, kv.value)
    &&& kv.metadata is None
    &&& kv.comment is None
    &&& kv.span == no_span()
}

/// Field by field, [`field_renders_as`].
pub open spec fn fields_render_as(fs: Seq<EditField>, kvs: Seq<KeyValue>) -> bool
    decreases fs, 1nat,
{
    &&& fs.len() == kvs.len()
    &&& fs.len() > 0 ==> fields_render_as(fs.drop_last(), kvs.drop_last()) && field_renders_as(fs.last(), kvs.last())
}

fn items_to_ast(items: &Vec<EditValue>) -> (r: Vec<Value>)
    ensures
        items_render_as(items@, r@),
    decreases items@, 1nat,
{
    let mut r: Vec<Value> = Vec::new();
    let mut i: usize = 0;
    while i < items.len()
        invariant
            i <= items@.len(),
            items_render_as(items@.take(i as int), r@),
        decreases items@.len() - i,
    {
        let a = items[i].to_ast_value();
        proof {
            assert(items@.take(i + 1).drop_last() == items@.take(i as int));
            assert(items@.take(i + 1).last() == items@[i as int]);
        }
        let ghost before = r@;
        r.push(a);
        proof {
            assert(r@.drop_last() == before);
        }
        i = i + 1;
    }
    proof {
        assert(items@.take(items@.len() as int) == items@);
    }
    r
}

fn fields_to_ast(fields: &Vec<EditField>) -> (r: Vec<KeyValue>)
    ensures
        fields_render_as(fields@, r@),
    decreases fields@, 1nat,
{
    let mut r: Vec<KeyValue> = Vec::new();
    let mut i: usize = 0;
    while i < fields.len()
        invariant
            i <= fields@.len(),
            fields_render_as(fields@.take(i as int), r@),
        decreases fields@.len() - i,
    {
        let kv = KeyValue {
            key: key_for(fields[i].name.as_str()),
            value: fields[i].value.to_ast_value(),
            metadata: None,
            comment: None,
            span: Span::unknown(),
        };
        proof {
            assert(fields@.take(i + 1).drop_last() == fields@.take(i as int));
            assert(fields@.take(i + 1).last() == fields@[i as int]);
            assert(field_renders_as(fields@[i as int], kv));
        }
        let ghost before = r@;
        r.push(kv);
        proof {
            assert(r@.drop_last() == before);
        }
        i = i + 1;
    }
    proof {
        assert(fields@.take(fields@.len() as int) == fields@);
    }
    r
}

impl EditValue {
    /// The value as a tree value, for the formatter to write.
    pub fn to_ast_value(&self) -> (a: Value)
        ensures
            renders_as(*self, a),
        decreases self, 1nat,
    {
        match self {
            EditValue::Bool(b) => Value::Scalar(ScalarValue::Boolean(*b)),
            EditValue::Integer(i) => Value::Scalar(ScalarValue::Number(NumberValue::Integer(*i))),
            EditValue::Float(t) => Value::Scalar(ScalarValue::Number(NumberValue::Float(to_owned_string(t.as_str())))),
            EditValue::String(s) => Value::Scalar(ScalarValue::String(to_owned_string(s.as_str()))),
            EditValue::Array(items) => Value::Array(ArrayValue { elements: items_to_ast(items), span: Span::unknown() }),
            EditValue::Table(fields) => Value::InlineTable(InlineTable { entries: fields_to_ast(fields), span: Span::unknown() }),
        }
    }
}

} // verus!
