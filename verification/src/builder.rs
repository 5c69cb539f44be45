//! Building the syntax tree from tokens by recursive descent.
//!
//! Every parsing function takes the token list and a position and returns
//! the parsed node with the position after it.

use vstd::prelude::*;
use crate::ast::{
    ArrayTable, ArrayValue, Ast, BinaryOperator, Comment, Expression, IncludeDirective,
    InlineTable, Key, KeyValue, MergeStrategy, MetadataItem, MetadataList, MetadataValue,
    NumberValue, RangeConstraint, ScalarValue, SchemaDefinition, SchemaField, SchemaType,
    SourceInfo, StandardMetadata, TableBlock, TableEntry, TimeUnit, Value,
};
use crate::numeric::{float_text, i64_of, is_float_text, parse_i64};
use crate::span::{merged, Span};
use crate::text::{chars_of, str_eq, string_from_chars, to_owned_string, vec_range};
use crate::token::{Operator, Token};

verus! {

broadcast use vstd::string::group_string_axioms;

/// A syntax error with the location of the offending token.
#[derive(Debug, Clone)]
pub struct ParseError {
    pub message: String,
    pub span: Span,
}

impl ParseError {
    pub fn new(message: &str, span: Span) -> (e: ParseError)
        ensures
            e.message@ == message@,
            e.span == span,
    {
        ParseError { message: to_owned_string(message), span }
    }

    /// `message at line:column`.
    pub fn describe(&self) -> (s: String)
        ensures
            s@ == self.message@ + " at "@ + crate::span::span_text(self.span),
    {
        let mut s = String::new();
        s.push_str(self.message.as_str());
        s.push_str(" at ");
        crate::span::push_span_text(&mut s, &self.span);
        s
    }
}

/// A token list as the lexer produces it: it ends with `Eof`.
pub open spec fn tokens_ok(t: Seq<(Token, Span)>) -> bool {
    t.len() >= 1 && t.last().0 is Eof && t.len() <= usize::MAX
}

/// A number token at `i` that reads as a float.
pub open spec fn bound_at(t: Seq<(Token, Span)>, i: int) -> bool {
    0 <= i < t.len() && match t[i].0 {
        Token::NumberLiteral(n) => float_text(n@),
        _ => false,
    }
}

/// Where the upper bound of `range(min..max)` stands when its `(` is at
/// `p`: after `..` written as one token or as two dots.
pub open spec fn range_max_at(t: Seq<(Token, Span)>, p: int) -> Option<int> {
    let d = p + 2;
    if 0 <= d < t.len() && t[d].0 is RangeOp {
        Some(d + 1)
    } else if 0 <= d && d + 1 < t.len() && t[d].0 is Dot && t[d + 1].0 is Dot {
        Some(d + 2)
    } else {
        None
    }
}

/// `key(...)` with its `(` at `p` reads as function metadata: it is
/// `range(min..max)` with two float bounds and a closing `)`.
pub open spec fn range_call_ok(key: Seq<char>, t: Seq<(Token, Span)>, p: int) -> bool {
    key == "range"@ && bound_at(t, p + 1) && match range_max_at(t, p) {
        Some(m) => bound_at(t, m) && m + 1 < t.len() && t[m + 1].0 is RParen,
        None => false,
    }
}

/// The metadata item at `pos` reads: a key, then `(...)` as function
/// metadata, `= value` with a string or a number, or nothing more.
pub open spec fn item_ok(t: Seq<(Token, Span)>, pos: int) -> bool {
    0 <= pos < t.len() && match t[pos].0 {
        Token::BareKey(k) => if pos + 1 < t.len() && t[pos + 1].0 is LParen {
            range_call_ok(k@, t, pos + 1)
        } else if pos + 1 < t.len() && t[pos + 1].0 is Assign {
            pos + 2 < t.len() && (t[pos + 2].0 is StringLiteral || t[pos + 2].0 is NumberLiteral)
        } else {
            true
        },
        _ => false,
    }
}

/// Where the metadata item at `pos` ends.
pub open spec fn item_end(t: Seq<(Token, Span)>, pos: int) -> int {
    if pos + 1 < t.len() && t[pos + 1].0 is LParen {
        match range_max_at(t, pos + 1) {
            Some(m) => m + 2,
            None => pos + 1,
        }
    } else if pos + 1 < t.len() && t[pos + 1].0 is Assign {
        pos + 3
    } else {
        pos + 1
    }
}

/// Every metadata item from `pos` to the end of the line reads; commas
/// between them are skipped.
pub open spec fn metadata_ok(t: Seq<(Token, Span)>, pos: int) -> bool
    decreases t.len() - pos,
{
    if pos < 0 || pos >= t.len() {
        true
    } else if t[pos].0 is LineComment || t[pos].0 is Newline {
        true
    } else if t[pos].0 is Comma {
        metadata_ok(t, pos + 1)
    } else if item_ok(t, pos) && pos < item_end(t, pos) <= t.len() {
        metadata_ok(t, item_end(t, pos))
    } else {
        false
    }
}

/// A one-letter unit name after a number: seconds, minutes, hours, days.
pub open spec fn unit_named(w: Seq<char>) -> bool {
    w == "s"@ || w == "m"@ || w == "h"@ || w == "d"@
}

/// A number token reads: a float when it has a `.`, else an `i64`.
pub open spec fn number_ok(n: Seq<char>) -> bool {
    if n.contains('.') { float_text(n) } else { i64_of(n) is Some }
}

/// Where a literal at `pos` ends, when it reads; a number followed by a
/// unit key is a duration.
pub open spec fn primary_end(t: Seq<(Token, Span)>, pos: int) -> Option<int> {
    if pos < 0 || pos >= t.len() {
        None
    } else {
        match t[pos].0 {
            Token::NumberLiteral(n) => if pos + 1 < t.len() && (match t[pos + 1].0 {
                Token::BareKey(u) => unit_named(u@),
                _ => false,
            }) {
                Some(pos + 2)
            } else if number_ok(n@) {
                Some(pos + 1)
            } else {
                None
            },
            Token::StringLiteral(_) => Some(pos + 1),
            Token::BooleanLiteral(_) => Some(pos + 1),
            Token::DateTimeLiteral(_) => Some(pos + 1),
            Token::DurationLiteral(d) => match duration_parts(d@) {
                Some((num, _)) => if float_text(num) { Some(pos + 1) } else { None },
                None => None,
            },
            _ => None,
        }
    }
}

/// Where `op literal` pairs from `pos` end.
pub open spec fn rest_end(t: Seq<(Token, Span)>, pos: int) -> Option<int>
    decreases t.len() - pos,
{
    if pos < 0 {
        None
    } else if pos >= t.len() {
        Some(pos)
    } else if t[pos].0 is Operator {
        match primary_end(t, pos + 1) {
            Some(p) => if pos < p <= t.len() { rest_end(t, p) } else { None },
            None => None,
        }
    } else {
        Some(pos)
    }
}

/// Where an expression at `pos` ends, when it reads.
pub open spec fn expr_end(t: Seq<(Token, Span)>, pos: int) -> Option<int> {
    match primary_end(t, pos) {
        Some(p) => rest_end(t, p),
        None => None,
    }
}

/// Where the metadata items from `pos` stop: at a line comment, a newline,
/// the end, or an item that does not read.
pub open spec fn metadata_end(t: Seq<(Token, Span)>, pos: int) -> int
    decreases t.len() - pos,
{
    if pos < 0 || pos >= t.len() {
        pos
    } else if t[pos].0 is LineComment || t[pos].0 is Newline {
        pos
    } else if t[pos].0 is Comma {
        metadata_end(t, pos + 1)
    } else if item_ok(t, pos) && pos < item_end(t, pos) <= t.len() {
        metadata_end(t, item_end(t, pos))
    } else {
        pos
    }
}

/// A token that can stand as a key: bare, quoted, or a string.
pub open spec fn key_token(tok: Token) -> bool {
    tok is BareKey || tok is QuotedKey || tok is StringLiteral
}

/// Where a value at `pos` ends, when it reads: a literal expression, an
/// inline table or an array.
pub open spec fn value_end(t: Seq<(Token, Span)>, pos: int) -> Option<int>
    decreases t.len() - pos, 0nat,
{
    if pos < 0 || pos >= t.len() {
        None
    } else {
        match t[pos].0 {
            Token::StringLiteral(_) => expr_end(t, pos),
            Token::NumberLiteral(_) => expr_end(t, pos),
            Token::BooleanLiteral(_) => expr_end(t, pos),
            Token::DurationLiteral(_) => expr_end(t, pos),
            Token::DateTimeLiteral(_) => expr_end(t, pos),
            Token::LBrace => kvs_end(t, pos + 1),
            Token::LBracket => items_end(t, pos + 1),
            _ => None,
        }
    }
}

/// Where the elements of an array from `pos` end, past its `]` (or at the
/// end of the tokens).
pub open spec fn items_end(t: Seq<(Token, Span)>, pos: int) -> Option<int>
    decreases t.len() - pos, 2nat,
{
    if pos < 0 {
        None
    } else if pos >= t.len() {
        Some(pos)
    } else if t[pos].0 is RBracket {
        Some(pos + 1)
    } else if t[pos].0 is Comma || t[pos].0 is Newline {
        items_end(t, pos + 1)
    } else {
        match value_end(t, pos) {
            Some(p) => if pos < p <= t.len() { items_end(t, p) } else { None },
            None => None,
        }
    }
}

/// Where the pairs of an inline table from `pos` end, past its `}` (or at
/// the end of the tokens).
pub open spec fn kvs_end(t: Seq<(Token, Span)>, pos: int) -> Option<int>
    decreases t.len() - pos, 2nat,
{
    if pos < 0 {
        None
    } else if pos >= t.len() {
        Some(pos)
    } else if t[pos].0 is RBrace {
        Some(pos + 1)
    } else if t[pos].0 is Comma || t[pos].0 is Newline {
        kvs_end(t, pos + 1)
    } else {
        match kv_end(t, pos) {
            Some(p) => if pos < p <= t.len() { kvs_end(t, p) } else { None },
            None => None,
        }
    }
}

/// Where a `key = value` pair at `pos` ends, with its metadata and a
/// trailing comment, when it reads.
pub open spec fn kv_end(t: Seq<(Token, Span)>, pos: int) -> Option<int>
    decreases t.len() - pos, 1nat,
{
    if pos < 0 || pos + 2 >= t.len() || !key_token(t[pos].0) || !(t[pos + 1].0 is Assign) {
        None
    } else {
        match value_end(t, pos + 2) {
            Some(v) => if pos + 2 < v <= t.len() {
                after_value(t, v)
            } else {
                None
            },
            None => None,
        }
    }
}

/// Where a pair ends after its value, which ends at `v`: past its metadata
/// (which must read) and a trailing comment.
pub open spec fn after_value(t: Seq<(Token, Span)>, v: int) -> Option<int> {
    let m = if v < t.len() && t[v].0 is MetadataPrefix {
        if metadata_ok(t, v + 1) { Some(metadata_end(t, v + 1)) } else { None }
    } else {
        Some(v)
    };
    match m {
        Some(m) => if 0 <= m < t.len() && (t[m].0 is LineComment || t[m].0 is BlockComment) {
            Some(m + 1)
        } else {
            Some(m)
        },
        None => None,
    }
}

/// Where a readable `@include` at `pos` ends.
pub open spec fn include_end(t: Seq<(Token, Span)>, pos: int) -> int {
    match include_strategy_at(t, pos) {
        Some(q) => if q < t.len() { q + 1 } else { q },
        None => pos + 2,
    }
}

/// Where the entries of a table from `pos` end: past its `}`, or at `Eof`
/// or the end of the tokens.
pub open spec fn entries_end(t: Seq<(Token, Span)>, pos: int) -> Option<int>
    decreases t.len() - pos, 6nat,
{
    if pos < 0 {
        None
    } else if pos >= t.len() {
        Some(pos)
    } else {
        match t[pos].0 {
            Token::RBrace => Some(pos + 1),
            Token::Eof => Some(pos),
            Token::BareKey(_) => key_entry_end(t, pos),
            Token::QuotedKey(_) => key_entry_end(t, pos),
            Token::LDoubleBracket => match array_table_end(t, pos) {
                Some(p) => if pos < p <= t.len() { entries_end(t, p) } else { None },
                None => None,
            },
            Token::Include => if include_ok(t, pos) && pos < include_end(t, pos) <= t.len() {
                entries_end(t, include_end(t, pos))
            } else {
                None
            },
            Token::LineComment(_) => entries_end(t, pos + 1),
            Token::BlockComment(_) => entries_end(t, pos + 1),
            Token::Newline => entries_end(t, pos + 1),
            _ => None,
        }
    }
}

/// The entries of a table from a key at `pos`: a nested table `key { ... }`,
/// a `key [[...]]` list element, or a pair; then the rest.
pub open spec fn key_entry_end(t: Seq<(Token, Span)>, pos: int) -> Option<int>
    decreases t.len() - pos, 5nat,
{
    let first = if pos + 1 < t.len() && t[pos + 1].0 is LBrace {
        if 0 <= pos { entries_end(t, pos + 2) } else { None }
    } else if pos + 1 < t.len() && t[pos + 1].0 is LDoubleBracket {
        array_table_end(t, pos + 1)
    } else {
        kv_end(t, pos)
    };
    match first {
        Some(p) => if 0 <= pos < p <= t.len() { entries_end(t, p) } else { None },
        None => None,
    }
}

/// Where a `[[key]]` list element at `at` ends, with the pairs and comments
/// after it.
pub open spec fn array_table_end(t: Seq<(Token, Span)>, at: int) -> Option<int>
    decreases t.len() - at, 4nat,
{
    if at < 0 || at + 2 >= t.len() || !key_token(t[at + 1].0) || !(t[at + 2].0 is RDoubleBracket) {
        None
    } else {
        element_entries_end(t, at + 3)
    }
}

/// Where the pairs and comments of a list element from `pos` stop.
pub open spec fn element_entries_end(t: Seq<(Token, Span)>, pos: int) -> Option<int>
    decreases t.len() - pos, 3nat,
{
    if pos < 0 {
        None
    } else if pos >= t.len() {
        Some(pos)
    } else {
        match t[pos].0 {
            Token::BareKey(_) => match kv_end(t, pos) {
                Some(p) => if pos < p <= t.len() { element_entries_end(t, p) } else { None },
                None => None,
            },
            Token::QuotedKey(_) => match kv_end(t, pos) {
                Some(p) => if pos < p <= t.len() { element_entries_end(t, p) } else { None },
                None => None,
            },
            Token::LineComment(_) => element_entries_end(t, pos + 1),
            Token::BlockComment(_) => element_entries_end(t, pos + 1),
            Token::Newline => element_entries_end(t, pos + 1),
            _ => Some(pos),
        }
    }
}

/// Past an optional `=` at `pos`.
pub open spec fn skip_assign_at(t: Seq<(Token, Span)>, pos: int) -> int {
    if 0 <= pos < t.len() && t[pos].0 is Assign { pos + 1 } else { pos }
}

/// Where `= "text"` after a property name ends (both parts optional).
pub open spec fn string_prop_end(t: Seq<(Token, Span)>, pos: int) -> int {
    let p = skip_assign_at(t, pos);
    if 0 <= p < t.len() && t[p].0 is StringLiteral { p + 1 } else { p }
}

/// Where `= true|false` after a property name ends (both parts optional).
pub open spec fn bool_prop_end(t: Seq<(Token, Span)>, pos: int) -> int {
    let p = skip_assign_at(t, pos);
    if 0 <= p < t.len() && t[p].0 is BooleanLiteral { p + 1 } else { p }
}

/// Past the token at `p` when `here` says it is the one expected.
pub open spec fn step_if(p: int, here: bool) -> int {
    if here { p + 1 } else { p }
}

/// Where a schema range `(min..max)` from `pos` ends; every part optional.
pub open spec fn schema_range_end(t: Seq<(Token, Span)>, pos: int) -> int {
    let p0 = step_if(pos, 0 <= pos < t.len() && t[pos].0 is LParen);
    let p1 = step_if(p0, 0 <= p0 < t.len() && t[p0].0 is NumberLiteral);
    let p2 = step_if(p1, 0 <= p1 < t.len() && t[p1].0 is RangeOp);
    let p3 = step_if(p2, 0 <= p2 < t.len() && t[p2].0 is NumberLiteral);
    step_if(p3, 0 <= p3 < t.len() && t[p3].0 is RParen)
}

/// Where the items of a schema enum from `pos` end, past its `]`.
pub open spec fn enum_items_end(t: Seq<(Token, Span)>, pos: int) -> int
    decreases t.len() - pos,
{
    if pos < 0 || pos >= t.len() {
        pos
    } else if t[pos].0 is RBracket {
        pos + 1
    } else {
        enum_items_end(t, pos + 1)
    }
}

/// Where a schema enum `[ ... ]` from `pos` ends.
pub open spec fn schema_enum_end(t: Seq<(Token, Span)>, pos: int) -> int {
    enum_items_end(t, step_if(pos, 0 <= pos < t.len() && t[pos].0 is LBracket))
}

/// What reading the property named `key` at `pos` gives: `None` when it
/// fails (a default with no value that reads), `Some(None)` when `key` is
/// not a property name, else where the property ends.
pub open spec fn field_prop_end(key: Seq<char>, t: Seq<(Token, Span)>, pos: int) -> Option<Option<int>> {
    if key == "type"@ {
        let p = skip_assign_at(t, pos);
        Some(Some(if 0 <= p < t.len() && t[p].0 is StringLiteral { p + 1 } else { p }))
    } else if key == "required"@ {
        Some(Some(bool_prop_end(t, pos)))
    } else if key == "default"@ {
        let p = skip_assign_at(t, pos);
        if p >= t.len() {
            None
        } else {
            match value_end(t, p) {
                Some(e) => Some(Some(e)),
                None => None,
            }
        }
    } else if key == "range"@ {
        Some(Some(schema_range_end(t, skip_assign_at(t, pos))))
    } else if key == "pattern"@ {
        Some(Some(string_prop_end(t, pos)))
    } else if key == "enum"@ {
        Some(Some(schema_enum_end(t, skip_assign_at(t, pos))))
    } else if key == "desc"@ || key == "example"@ || key == "llm_hint"@ {
        Some(Some(string_prop_end(t, pos)))
    } else if key == "sensitive"@ {
        Some(Some(bool_prop_end(t, pos)))
    } else {
        Some(None)
    }
}

/// The value of `= true|false` after a property name, if it is there.
pub open spec fn bool_prop_value(t: Seq<(Token, Span)>, pos: int) -> Option<bool> {
    let p = skip_assign_at(t, pos);
    if 0 <= p < t.len() {
        match t[p].0 {
            Token::BooleanLiteral(b) => Some(b),
            _ => None,
        }
    } else {
        None
    }
}

/// The text of `= "text"` after a property name, if it is there.
pub open spec fn string_prop_value(t: Seq<(Token, Span)>, pos: int) -> Option<Seq<char>> {
    let p = skip_assign_at(t, pos);
    if 0 <= p < t.len() {
        match t[p].0 {
            Token::StringLiteral(s) => Some(s@),
            _ => None,
        }
    } else {
        None
    }
}

/// The text of an optional string.
pub open spec fn opt_chars(o: Option<String>) -> Option<Seq<char>> {
    match o {
        Some(s) => Some(s@),
        None => None,
    }
}

/// The integer a number token gives a schema range: its value, or 0 when it
/// is not an `i64`.
pub open spec fn number_or_zero(n: Seq<char>) -> i64 {
    match i64_of(n) {
        Some(x) => x,
        None => 0,
    }
}

/// The bound a number token at `p` gives, if a number is there.
pub open spec fn bound_token_at(t: Seq<(Token, Span)>, p: int) -> Option<i64> {
    if 0 <= p < t.len() {
        match t[p].0 {
            Token::NumberLiteral(n) => Some(number_or_zero(n@)),
            _ => None,
        }
    } else {
        None
    }
}

/// The bounds of a schema range `(min..max)` from `pos`; a part that is not
/// there gives no bound.
pub open spec fn schema_range_of(t: Seq<(Token, Span)>, pos: int) -> (Option<i64>, Option<i64>) {
    let p0 = step_if(pos, 0 <= pos < t.len() && t[pos].0 is LParen);
    let min = bound_token_at(t, p0);
    let p1 = step_if(p0, min is Some);
    let p2 = step_if(p1, 0 <= p1 < t.len() && t[p1].0 is RangeOp);
    (min, bound_token_at(t, p2))
}

/// The texts of the string items from `pos` up to the closing `]`.
pub open spec fn enum_strings(t: Seq<(Token, Span)>, pos: int) -> Seq<Seq<char>>
    decreases t.len() - pos,
{
    if pos < 0 || pos >= t.len() || t[pos].0 is RBracket {
        Seq::empty()
    } else {
        match t[pos].0 {
            Token::StringLiteral(x) => seq![x@] + enum_strings(t, pos + 1),
            _ => enum_strings(t, pos + 1),
        }
    }
}

/// The texts of a schema enum `[ ... ]` from `pos`; none when it has no
/// string items.
pub open spec fn schema_enum_of(t: Seq<(Token, Span)>, pos: int) -> Option<Seq<Seq<char>>> {
    let items = enum_strings(t, step_if(pos, 0 <= pos < t.len() && t[pos].0 is LBracket));
    if items.len() == 0 {
        None
    } else {
        Some(items)
    }
}

/// The texts of scalars that are all strings; `None` if one is not.
pub open spec fn string_scalars(v: Seq<ScalarValue>) -> Option<Seq<Seq<char>>>
    decreases v.len(),
{
    if v.len() == 0 {
        Some(Seq::empty())
    } else {
        match (v.last(), string_scalars(v.drop_last())) {
            (ScalarValue::String(x), Some(rest)) => Some(rest.push(x@)),
            _ => None,
        }
    }
}

/// All-string scalars give as many texts as there are scalars.
proof fn lemma_string_scalars_len(v: Seq<ScalarValue>)
    requires
        string_scalars(v) is Some,
    ensures
        string_scalars(v)->Some_0.len() == v.len(),
    decreases v.len(),
{
    if v.len() > 0 {
        lemma_string_scalars_len(v.drop_last());
    }
}

/// The texts of an optional list of enum values.
pub open spec fn enum_texts(o: Option<Vec<ScalarValue>>) -> Option<Seq<Seq<char>>> {
    match o {
        Some(v) => string_scalars(v@),
        None => None,
    }
}

/// The bounds of an optional range.
pub open spec fn range_bounds(r: Option<RangeConstraint>) -> Option<(Option<i64>, Option<i64>)> {
    match r {
        Some(c) => Some((c.min, c.max)),
        None => None,
    }
}

/// The type and the flag and text properties of a schema field.
pub struct FieldFlags {
    pub field_type: SchemaType,
    pub required: bool,
    pub sensitive: bool,
    /// the bounds of `range(min..max)`
    pub range: Option<(Option<i64>, Option<i64>)>,
    /// the texts of `enum [...]`
    pub enum_values: Option<Seq<Seq<char>>>,
    pub pattern: Option<Seq<char>>,
    pub desc: Option<Seq<char>>,
    pub example: Option<Seq<char>>,
    pub llm_hint: Option<Seq<char>>,
}

/// The flags of a built field.
pub open spec fn field_flags(f: SchemaField) -> FieldFlags {
    FieldFlags {
        field_type: f.field_type,
        required: f.required,
        sensitive: f.sensitive,
        range: range_bounds(f.range),
        enum_values: enum_texts(f.enum_values),
        pattern: opt_chars(f.pattern),
        desc: opt_chars(f.desc),
        example: opt_chars(f.example),
        llm_hint: opt_chars(f.llm_hint),
    }
}

/// A text property replaces the one before only when its value is there.
pub open spec fn text_or(v: Option<Seq<char>>, before: Option<Seq<char>>) -> Option<Seq<char>> {
    match v {
        Some(x) => Some(x),
        None => before,
    }
}

/// The flags after reading the property named `key` at `pos`: `type` sets
/// the type named by its string, `required` and `sensitive` their value,
/// `range` its bounds, `enum` its texts, `pattern`, `desc`, `example` and
/// `llm_hint` their text; a property
/// without its value, and any other name, changes none of them.
pub open spec fn prop_flags(key: Seq<char>, t: Seq<(Token, Span)>, pos: int, f: FieldFlags) -> FieldFlags {
    if key == "type"@ {
        match string_prop_value(t, pos) {
            Some(s) => FieldFlags { field_type: schema_type_of(s), ..f },
            None => f,
        }
    } else if key == "required"@ {
        match bool_prop_value(t, pos) {
            Some(b) => FieldFlags { required: b, ..f },
            None => f,
        }
    } else if key == "sensitive"@ {
        match bool_prop_value(t, pos) {
            Some(b) => FieldFlags { sensitive: b, ..f },
            None => f,
        }
    } else if key == "range"@ {
        FieldFlags { range: Some(schema_range_of(t, skip_assign_at(t, pos))), ..f }
    } else if key == "enum"@ {
        FieldFlags { enum_values: schema_enum_of(t, skip_assign_at(t, pos)), ..f }
    } else if key == "pattern"@ {
        FieldFlags { pattern: text_or(string_prop_value(t, pos), f.pattern), ..f }
    } else if key == "desc"@ {
        FieldFlags { desc: text_or(string_prop_value(t, pos), f.desc), ..f }
    } else if key == "example"@ {
        FieldFlags { example: text_or(string_prop_value(t, pos), f.example), ..f }
    } else if key == "llm_hint"@ {
        FieldFlags { llm_hint: text_or(string_prop_value(t, pos), f.llm_hint), ..f }
    } else {
        f
    }
}

/// The flags after the properties of a `{ ... }` field from `pos`, read in
/// order; nested fields are passed over.
pub open spec fn nested_flags(t: Seq<(Token, Span)>, pos: int, f: FieldFlags) -> FieldFlags
    decreases t.len() - pos,
{
    if pos < 0 || pos >= t.len() {
        f
    } else {
        match t[pos].0 {
            Token::RBrace => f,
            Token::BareKey(k) => match field_prop_end(k@, t, pos + 1) {
                Some(Some(p)) => if pos < p <= t.len() {
                    nested_flags(t, p, prop_flags(k@, t, pos + 1, f))
                } else {
                    f
                },
                Some(None) => match schema_field_end(t, pos) {
                    Some(p) => if pos < p <= t.len() { nested_flags(t, p, f) } else { f },
                    None => f,
                },
                None => f,
            },
            _ => nested_flags(t, pos + 1, f),
        }
    }
}

/// The flags after the properties of a one-line field from `pos`, read in
/// order.
pub open spec fn flat_flags(t: Seq<(Token, Span)>, pos: int, f: FieldFlags) -> FieldFlags
    decreases t.len() - pos,
{
    if pos < 0 || pos >= t.len() {
        f
    } else {
        match t[pos].0 {
            Token::Newline => if pos + 1 < t.len() && t[pos + 1].0 is BareKey {
                flat_flags(t, pos + 1, f)
            } else {
                f
            },
            Token::LineComment(_) => flat_flags(t, pos + 1, f),
            Token::BlockComment(_) => flat_flags(t, pos + 1, f),
            Token::Comma => flat_flags(t, pos + 1, f),
            Token::BareKey(k) => match field_prop_end(k@, t, pos + 1) {
                Some(Some(p)) => if pos < p <= t.len() {
                    flat_flags(t, p, prop_flags(k@, t, pos + 1, f))
                } else {
                    f
                },
                Some(None) => flat_flags(t, pos + 1, f),
                None => f,
            },
            _ => f,
        }
    }
}

/// The flags of the schema field at `at`: a `{ ... }` field starts as a
/// table, a one-line field as a string, neither required nor sensitive and
/// with no texts; its properties are then read in order.
pub open spec fn field_flags_at(t: Seq<(Token, Span)>, at: int) -> FieldFlags {
    let nested = at + 1 < t.len() && t[at + 1].0 is LBrace;
    let init = FieldFlags {
        field_type: if nested { SchemaType::Table } else { SchemaType::String },
        required: false,
        sensitive: false,
        range: None,
        enum_values: None,
        pattern: None,
        desc: None,
        example: None,
        llm_hint: None,
    };
    if nested {
        nested_flags(t, at + 2, init)
    } else {
        flat_flags(t, at + 1, init)
    }
}

/// The names of the field properties differ from one another.
proof fn lemma_property_names_differ()
    ensures
        "type"@ != "required"@,
        "type"@ != "default"@,
        "type"@ != "range"@,
        "type"@ != "pattern"@,
        "type"@ != "enum"@,
        "type"@ != "desc"@,
        "type"@ != "example"@,
        "type"@ != "llm_hint"@,
        "type"@ != "sensitive"@,
        "required"@ != "default"@,
        "required"@ != "range"@,
        "required"@ != "pattern"@,
        "required"@ != "enum"@,
        "required"@ != "desc"@,
        "required"@ != "example"@,
        "required"@ != "llm_hint"@,
        "required"@ != "sensitive"@,
        "default"@ != "range"@,
        "default"@ != "pattern"@,
        "default"@ != "enum"@,
        "default"@ != "desc"@,
        "default"@ != "example"@,
        "default"@ != "llm_hint"@,
        "default"@ != "sensitive"@,
        "range"@ != "pattern"@,
        "range"@ != "enum"@,
        "range"@ != "desc"@,
        "range"@ != "example"@,
        "range"@ != "llm_hint"@,
        "range"@ != "sensitive"@,
        "pattern"@ != "enum"@,
        "pattern"@ != "desc"@,
        "pattern"@ != "example"@,
        "pattern"@ != "llm_hint"@,
        "pattern"@ != "sensitive"@,
        "enum"@ != "desc"@,
        "enum"@ != "example"@,
        "enum"@ != "llm_hint"@,
        "enum"@ != "sensitive"@,
        "desc"@ != "example"@,
        "desc"@ != "llm_hint"@,
        "desc"@ != "sensitive"@,
        "example"@ != "llm_hint"@,
        "example"@ != "sensitive"@,
        "llm_hint"@ != "sensitive"@,
{
    reveal_strlit("type");
    reveal_strlit("required");
    reveal_strlit("default");
    reveal_strlit("range");
    reveal_strlit("pattern");
    reveal_strlit("enum");
    reveal_strlit("desc");
    reveal_strlit("example");
    reveal_strlit("llm_hint");
    reveal_strlit("sensitive");
    assert("type"@[0] != "required"@[0]);
    assert("type"@[0] != "default"@[0]);
    assert("type"@[0] != "range"@[0]);
    assert("type"@[0] != "pattern"@[0]);
    assert("type"@[0] != "enum"@[0]);
    assert("type"@[0] != "desc"@[0]);
    assert("type"@[0] != "example"@[0]);
    assert("type"@[0] != "llm_hint"@[0]);
    assert("type"@[0] != "sensitive"@[0]);
    assert("required"@[0] != "default"@[0]);
    assert("required"@[1] != "range"@[1]);
    assert("required"@[0] != "pattern"@[0]);
    assert("required"@[0] != "enum"@[0]);
    assert("required"@[0] != "desc"@[0]);
    assert("required"@[0] != "example"@[0]);
    assert("required"@[0] != "llm_hint"@[0]);
    assert("required"@[0] != "sensitive"@[0]);
    assert("default"@[0] != "range"@[0]);
    assert("default"@[0] != "pattern"@[0]);
    assert("default"@[0] != "enum"@[0]);
    assert("default"@[2] != "desc"@[2]);
    assert("default"@[0] != "example"@[0]);
    assert("default"@[0] != "llm_hint"@[0]);
    assert("default"@[0] != "sensitive"@[0]);
    assert("range"@[0] != "pattern"@[0]);
    assert("range"@[0] != "enum"@[0]);
    assert("range"@[0] != "desc"@[0]);
    assert("range"@[0] != "example"@[0]);
    assert("range"@[0] != "llm_hint"@[0]);
    assert("range"@[0] != "sensitive"@[0]);
    assert("pattern"@[0] != "enum"@[0]);
    assert("pattern"@[0] != "desc"@[0]);
    assert("pattern"@[0] != "example"@[0]);
    assert("pattern"@[0] != "llm_hint"@[0]);
    assert("pattern"@[0] != "sensitive"@[0]);
    assert("enum"@[0] != "desc"@[0]);
    assert("enum"@[1] != "example"@[1]);
    assert("enum"@[0] != "llm_hint"@[0]);
    assert("enum"@[0] != "sensitive"@[0]);
    assert("desc"@[0] != "example"@[0]);
    assert("desc"@[0] != "llm_hint"@[0]);
    assert("desc"@[0] != "sensitive"@[0]);
    assert("example"@[0] != "llm_hint"@[0]);
    assert("example"@[0] != "sensitive"@[0]);
    assert("llm_hint"@[0] != "sensitive"@[0]);
}

/// `default` leaves the flags as they are.
proof fn lemma_other_props_keep_flags(key: Seq<char>, t: Seq<(Token, Span)>, pos: int, f: FieldFlags)
    requires
        key == "default"@,
    ensures
        prop_flags(key, t, pos, f) == f,
{
    lemma_property_names_differ();
}

/// Where the nested fields of a `{ ... }` field from `pos` start, in order.
pub open spec fn nested_starts(t: Seq<(Token, Span)>, pos: int) -> Seq<int>
    decreases t.len() - pos,
{
    if pos < 0 || pos >= t.len() {
        Seq::empty()
    } else {
        match t[pos].0 {
            Token::RBrace => Seq::empty(),
            Token::BareKey(k) => match field_prop_end(k@, t, pos + 1) {
                Some(Some(p)) => if pos < p <= t.len() { nested_starts(t, p) } else { Seq::empty() },
                Some(None) => match schema_field_end(t, pos) {
                    Some(p) => if pos < p <= t.len() { seq![pos] + nested_starts(t, p) } else { Seq::empty() },
                    None => Seq::empty(),
                },
                None => Seq::empty(),
            },
            _ => nested_starts(t, pos + 1),
        }
    }
}

/// Where the nested fields of the field at `at` start: none for a one-line
/// field.
pub open spec fn field_children_at(t: Seq<(Token, Span)>, at: int) -> Seq<int> {
    if at + 1 < t.len() && t[at + 1].0 is LBrace {
        nested_starts(t, at + 2)
    } else {
        Seq::empty()
    }
}

/// The fields `fs` are those at `starts`: each with the name of its key and
/// the flags its properties give.
pub open spec fn fields_at(fs: Seq<SchemaField>, t: Seq<(Token, Span)>, starts: Seq<int>) -> bool {
    &&& fs.len() == starts.len()
    &&& forall|i: int|
        0 <= i < fs.len() ==> {
            &&& field_flags(#[trigger] fs[i]) == field_flags_at(t, starts[i])
            &&& 0 <= starts[i] < t.len()
            &&& t[starts[i]].0 matches Token::BareKey(k) && fs[i].name@ == k@
        }
}

/// The flags gathered so far.
spec fn props_flags(p: FieldProps) -> FieldFlags {
    FieldFlags {
        field_type: p.field_type,
        required: p.required,
        sensitive: p.sensitive,
        range: range_bounds(p.range),
        enum_values: enum_texts(p.enum_values),
        pattern: opt_chars(p.pattern),
        desc: opt_chars(p.desc),
        example: opt_chars(p.example),
        llm_hint: opt_chars(p.llm_hint),
    }
}

/// Where a schema field at `at` ends, when it reads: a name, then either
/// `{ properties and nested fields }` or properties on the line.
pub open spec fn schema_field_end(t: Seq<(Token, Span)>, at: int) -> Option<int>
    decreases t.len() - at, 0nat,
{
    if at < 0 || at >= t.len() || !(t[at].0 is BareKey) {
        None
    } else if at + 1 < t.len() && t[at + 1].0 is LBrace {
        nested_items_end(t, at + 2)
    } else {
        flat_items_end(t, at + 1)
    }
}

/// Where the properties and nested fields of a `{ ... }` field from `pos`
/// end, past its `}`.
pub open spec fn nested_items_end(t: Seq<(Token, Span)>, pos: int) -> Option<int>
    decreases t.len() - pos, 1nat,
{
    if pos < 0 {
        None
    } else if pos >= t.len() {
        Some(pos)
    } else {
        match t[pos].0 {
            Token::RBrace => Some(pos + 1),
            Token::Newline => nested_items_end(t, pos + 1),
            Token::LineComment(_) => nested_items_end(t, pos + 1),
            Token::BlockComment(_) => nested_items_end(t, pos + 1),
            Token::BareKey(k) => match field_prop_end(k@, t, pos + 1) {
                Some(Some(p)) => if pos < p <= t.len() { nested_items_end(t, p) } else { None },
                Some(None) => match schema_field_end(t, pos) {
                    Some(p) => if pos < p <= t.len() { nested_items_end(t, p) } else { None },
                    None => None,
                },
                None => None,
            },
            _ => nested_items_end(t, pos + 1),
        }
    }
}

/// Where the properties of a one-line field from `pos` end; a line that
/// starts with a key continues it.
pub open spec fn flat_items_end(t: Seq<(Token, Span)>, pos: int) -> Option<int>
    decreases t.len() - pos,
{
    if pos < 0 {
        None
    } else if pos >= t.len() {
        Some(pos)
    } else {
        match t[pos].0 {
            Token::Newline => if pos + 1 < t.len() && t[pos + 1].0 is BareKey {
                flat_items_end(t, pos + 1)
            } else {
                Some(pos + 1)
            },
            Token::LineComment(_) => flat_items_end(t, pos + 1),
            Token::BlockComment(_) => flat_items_end(t, pos + 1),
            Token::Comma => flat_items_end(t, pos + 1),
            Token::BareKey(k) => match field_prop_end(k@, t, pos + 1) {
                Some(Some(p)) => if pos < p <= t.len() { flat_items_end(t, p) } else { None },
                Some(None) => flat_items_end(t, pos + 1),
                None => None,
            },
            _ => Some(pos),
        }
    }
}

/// Where the body of a schema block from `pos` ends, past its `}`.
pub open spec fn schema_block_end(t: Seq<(Token, Span)>, pos: int) -> Option<int>
    decreases t.len() - pos,
{
    if pos < 0 {
        None
    } else if pos >= t.len() {
        Some(pos)
    } else {
        match t[pos].0 {
            Token::RBrace => Some(pos + 1),
            Token::Newline => schema_block_end(t, pos + 1),
            Token::LineComment(_) => schema_block_end(t, pos + 1),
            Token::BlockComment(_) => schema_block_end(t, pos + 1),
            Token::BareKey(k) => if k@ == "version"@ || k@ == "description"@ {
                if pos < string_prop_end(t, pos + 1) <= t.len() { schema_block_end(t, string_prop_end(t, pos + 1)) } else { None }
            } else if k@ == "strict"@ {
                if pos < bool_prop_end(t, pos + 1) <= t.len() { schema_block_end(t, bool_prop_end(t, pos + 1)) } else { None }
            } else {
                match schema_field_end(t, pos) {
                    Some(p) => if pos < p <= t.len() { schema_block_end(t, p) } else { None },
                    None => None,
                }
            },
            _ => schema_block_end(t, pos + 1),
        }
    }
}

/// What the leading part of the tokens from `pos` gives: blank lines and
/// comments skipped, then a `#@ schema { ... }` block if one follows;
/// `None` when that block does not read, else whether there was one and
/// where the rest begins.
pub open spec fn schema_prefix(t: Seq<(Token, Span)>, pos: int) -> Option<(bool, int)>
    decreases t.len() - pos,
{
    if pos < 0 {
        None
    } else if pos >= t.len() {
        Some((false, pos))
    } else {
        match t[pos].0 {
            Token::Newline => schema_prefix(t, pos + 1),
            Token::LineComment(_) => schema_prefix(t, pos + 1),
            Token::BlockComment(_) => schema_prefix(t, pos + 1),
            Token::MetadataPrefix => if pos + 2 < t.len() && (match t[pos + 1].0 {
                Token::BareKey(k) => k@ == "schema"@,
                _ => false,
            }) && t[pos + 2].0 is LBrace {
                match schema_block_end(t, pos + 3) {
                    Some(p) => Some((true, p)),
                    None => None,
                }
            } else {
                Some((false, pos))
            },
            _ => Some((false, pos)),
        }
    }
}

/// The tokens read as a document: the schema prefix, then the root table.
pub open spec fn document_ok(t: Seq<(Token, Span)>) -> bool {
    match schema_prefix(t, 0) {
        Some((_, p)) => entries_end(t, p) is Some,
        None => false,
    }
}

/// The merge strategy a name gives in `@include ... merge=name`.
pub open spec fn strategy_named(s: Seq<char>) -> Option<MergeStrategy> {
    if s == "override"@ {
        Some(MergeStrategy::Override)
    } else if s == "append"@ {
        Some(MergeStrategy::Append)
    } else if s == "merge"@ {
        Some(MergeStrategy::Merge)
    } else if s == "deep_merge"@ {
        Some(MergeStrategy::DeepMerge)
    } else {
        None
    }
}

/// Where the strategy name of an `@include` at `pos` stands, when it has a
/// `merge` clause.
pub open spec fn include_strategy_at(t: Seq<(Token, Span)>, pos: int) -> Option<int> {
    let q = pos + 2;
    if q < t.len() && t[q].0 is Merge {
        Some(if q + 1 < t.len() && t[q + 1].0 is Assign { q + 2 } else { q + 1 })
    } else {
        None
    }
}

/// The `@include` at `pos` reads: a string path, then optionally `merge`,
/// an optional `=`, and a known strategy name.
pub open spec fn include_ok(t: Seq<(Token, Span)>, pos: int) -> bool {
    pos + 1 < t.len() && t[pos + 1].0 is StringLiteral && match include_strategy_at(t, pos) {
        Some(q) => q >= t.len() || match t[q].0 {
            Token::BareKey(s) => strategy_named(s@) is Some,
            _ => false,
        },
        None => true,
    }
}

/// The strategy of a readable `@include` at `pos`: the named one, else override.
pub open spec fn include_strategy(t: Seq<(Token, Span)>, pos: int) -> MergeStrategy {
    match include_strategy_at(t, pos) {
        Some(q) => if q < t.len() {
            match t[q].0 {
                Token::BareKey(s) => match strategy_named(s@) {
                    Some(m) => m,
                    None => MergeStrategy::Override,
                },
                _ => MergeStrategy::Override,
            }
        } else {
            MergeStrategy::Override
        },
        None => MergeStrategy::Override,
    }
}

/// The schema type named by `s`; unknown names read as `string`.
pub open spec fn schema_type_of(s: Seq<char>) -> SchemaType
    decreases s.len(),
{
    if s == "string"@ {
        SchemaType::String
    } else if s == "integer"@ || s == "int"@ {
        SchemaType::Integer
    } else if s == "float"@ || s == "number"@ {
        SchemaType::Float
    } else if s == "bool"@ || s == "boolean"@ {
        SchemaType::Boolean
    } else if s == "datetime"@ {
        SchemaType::DateTime
    } else if s == "duration"@ {
        SchemaType::Duration
    } else if s == "table"@ {
        SchemaType::Table
    } else if s == "array"@ {
        SchemaType::Array(Box::new(SchemaType::String))
    } else if s.len() >= 7 && s.take(6) == "array<"@ && s.last() == '>' {
        SchemaType::Array(Box::new(schema_type_of(s.subrange(6, s.len() - 1))))
    } else {
        SchemaType::String
    }
}

/// The duration unit a literal ends with, and the number before it.
pub open spec fn duration_parts(s: Seq<char>) -> Option<(Seq<char>, TimeUnit)> {
    if s.len() == 0 {
        None
    } else if s.last() == 's' {
        Some((s.drop_last(), TimeUnit::Seconds))
    } else if s.last() == 'm' {
        Some((s.drop_last(), TimeUnit::Minutes))
    } else if s.last() == 'h' {
        Some((s.drop_last(), TimeUnit::Hours))
    } else if s.last() == 'd' {
        Some((s.drop_last(), TimeUnit::Days))
    } else {
        None
    }
}

/// The operator of the tree for an operator token.
pub open spec fn binary_of(o: Operator) -> BinaryOperator {
    match o {
        Operator::Add => BinaryOperator::Add,
        Operator::Subtract => BinaryOperator::Subtract,
        Operator::Multiply => BinaryOperator::Multiply,
        Operator::Divide => BinaryOperator::Divide,
    }
}

/// The operators of an expression, left to right.
pub open spec fn expr_ops(e: Expression) -> Seq<BinaryOperator>
    decreases e,
{
    match e {
        Expression::BinaryOp { left, operator, right } => expr_ops(*left).push(operator) + expr_ops(*right),
        _ => Seq::empty(),
    }
}

/// The operators of the operator tokens from `i` up to `j`, in order.
pub open spec fn ops_between(t: Seq<(Token, Span)>, i: int, j: int) -> Seq<BinaryOperator>
    decreases j - i,
{
    if i >= j || i < 0 || i >= t.len() {
        Seq::empty()
    } else {
        (match t[i].0 {
            Token::Operator(o) => seq![binary_of(o)],
            _ => Seq::empty(),
        }) + ops_between(t, i + 1, j)
    }
}

proof fn lemma_no_ops(t: Seq<(Token, Span)>, i: int, j: int)
    requires
        forall|k: int| i <= k < j && 0 <= k < t.len() ==> !(#[trigger] t[k].0 is Operator),
    ensures
        ops_between(t, i, j).len() == 0,
    decreases j - i,
{
    if i < j && 0 <= i < t.len() {
        lemma_no_ops(t, i + 1, j);
    }
}

proof fn lemma_ops_between_split(t: Seq<(Token, Span)>, i: int, j: int, k: int)
    requires
        0 <= i <= j <= k <= t.len(),
    ensures
        ops_between(t, i, k) == ops_between(t, i, j) + ops_between(t, j, k),
    decreases j - i,
{
    if i == j {
        assert(ops_between(t, i, j) + ops_between(t, j, k) =~= ops_between(t, j, k));
    } else {
        lemma_ops_between_split(t, i + 1, j, k);
        let head = match t[i].0 {
            Token::Operator(o) => seq![binary_of(o)],
            _ => Seq::<BinaryOperator>::empty(),
        };
        assert(head + (ops_between(t, i + 1, j) + ops_between(t, j, k)) =~= (head + ops_between(t, i + 1, j))
            + ops_between(t, j, k));
    }
}

/// The unit letter of a key at `p`, if one is there.
pub open spec fn unit_word_at(t: Seq<(Token, Span)>, p: int) -> Option<Seq<char>> {
    if 0 <= p < t.len() {
        match t[p].0 {
            Token::BareKey(w) => if unit_named(w@) { Some(w@) } else { None },
            _ => None,
        }
    } else {
        None
    }
}

/// A number token's text read as a scalar: a decimal when it has a `.`,
/// else an integer.
pub open spec fn number_reads_as(n: Seq<char>, sc: ScalarValue) -> bool {
    if n.contains('.') {
        sc matches ScalarValue::Number(NumberValue::Float(t)) && t@ == n
    } else {
        i64_of(n) matches Some(v) && sc == ScalarValue::Number(NumberValue::Integer(v))
    }
}

/// A duration's suffix names its unit: `s` seconds, `m` minutes, `h`
/// hours, `d` days; the number is what comes before it. Text that does
/// not end in one of these letters is no duration.
pub proof fn lemma_duration_suffix_names_unit(num: Seq<char>, c: char)
    ensures
        duration_parts(num + "s"@) == Some((num, TimeUnit::Seconds)),
        duration_parts(num + "m"@) == Some((num, TimeUnit::Minutes)),
        duration_parts(num + "h"@) == Some((num, TimeUnit::Hours)),
        duration_parts(num + "d"@) == Some((num, TimeUnit::Days)),
        c != 's' && c != 'm' && c != 'h' && c != 'd' ==> duration_parts(num.push(c)) is None,
        duration_parts(Seq::<char>::empty()) is None,
{
    reveal_strlit("s");
    reveal_strlit("m");
    reveal_strlit("h");
    reveal_strlit("d");
    assert((num + "s"@).drop_last() =~= num);
    assert((num + "m"@).drop_last() =~= num);
    assert((num + "h"@).drop_last() =~= num);
    assert((num + "d"@).drop_last() =~= num);
}

/// The metadata item for `key` (with an optional value): the standard
/// names become standard items, anything else is kept as a custom item.
pub open spec fn metadata_item_spec(key: Seq<char>, value: Option<MetadataValue>, item: MetadataItem) -> bool {
    let text = match value {
        Some(MetadataValue::String(s)) => Some(s@),
        _ => None,
    };
    let text_or_empty = match text {
        Some(t) => t,
        None => Seq::<char>::empty(),
    };
    if key == "sensitive"@ {
        item == MetadataItem::Standard(StandardMetadata::Sensitive)
    } else if key == "required"@ {
        item == MetadataItem::Standard(StandardMetadata::Required)
    } else if key == "deprecated"@ {
        item matches MetadataItem::Standard(StandardMetadata::Deprecated { message })
            && match message { Some(m) => text == Some(m@), None => text is None }
    } else if key == "description"@ {
        item matches MetadataItem::Standard(StandardMetadata::Description { text: t }) && t@ == text_or_empty
    } else if key == "example"@ {
        item matches MetadataItem::Standard(StandardMetadata::Example { value: t }) && t@ == text_or_empty
    } else if key == "type_hint"@ {
        item matches MetadataItem::Standard(StandardMetadata::TypeHint { hint: t }) && t@ == text_or_empty
    } else if key == "item_type"@ {
        item matches MetadataItem::Standard(StandardMetadata::ItemType { item_type: t }) && t@ == text_or_empty
    } else {
        item matches MetadataItem::Custom { key: k, value: v } && k@ == key && v == value
    }
}

/// Properties collected for one schema field.
struct FieldProps {
    field_type: SchemaType,
    required: bool,
    default: Option<Value>,
    range: Option<RangeConstraint>,
    pattern: Option<String>,
    enum_values: Option<Vec<ScalarValue>>,
    desc: Option<String>,
    example: Option<String>,
    llm_hint: Option<String>,
    sensitive: bool,
}

/// The tree builder.
pub struct AstBuilder {
    source: String,
    errors: Vec<ParseError>,
}

impl AstBuilder {
    /// A builder for `source`; the source text is kept in the tree.
    pub fn new(source: String) -> (b: AstBuilder)
        ensures
            b.source_text() == source@,
    {
        AstBuilder { source, errors: Vec::new() }
    }

    /// The source text given to [`AstBuilder::new`].
    pub closed spec fn source_text(&self) -> Seq<char> {
        self.source@
    }

    /// Builds the tree: an optional leading `#@schema { ... }` block, then the
    /// root table up to `Eof`.
    pub fn build(&mut self, tokens: &Vec<(Token, Span)>) -> (r: Result<Ast, ParseError>)
        requires
            tokens_ok(tokens@),
        ensures
            final(self).source_text() == old(self).source_text(),
            r matches Ok(ast) ==> ast.source.content@ == old(self).source_text() && ast.source.path is None
                && ast.root.name is None,
            r is Ok <==> document_ok(tokens@),
    {
        let (schema, pos) = self.try_parse_schema(tokens, 0)?;
        let (root, _) = self.parse_table_block(tokens, pos)?;
        Ok(Ast {
            root,
            schema,
            source: SourceInfo { path: None, content: self.source.clone() },
        })
    }

    fn is_key_named(key: &String, name: &str) -> (b: bool)
        ensures
            b == (key@ == name@),
    {
        str_eq(key.as_str(), name)
    }

    /// Skips leading blank lines and comments; parses `#@ schema {` if it follows.
    fn try_parse_schema(&mut self, tokens: &Vec<(Token, Span)>, at: usize) -> (r: Result<(Option<SchemaDefinition>, usize), ParseError>)
        requires
            tokens_ok(tokens@),
            at <= tokens@.len(),
        ensures
            r matches Ok((_, p)) ==> at <= p <= tokens@.len(),
            final(self).source_text() == old(self).source_text(),
            match schema_prefix(tokens@, at as int) {
                Some((found, p)) => r matches Ok((sd, q)) && q == p && (sd is Some) == found,
                None => r is Err,
            },
    {
        let mut pos = at;
        while pos < tokens.len()
            invariant_except_break
                schema_prefix(tokens@, at as int) == schema_prefix(tokens@, pos as int),
            invariant
                tokens_ok(tokens@),
                at <= pos <= tokens@.len(),
                old(self).source_text() == self.source_text(),
            ensures
                at <= pos <= tokens@.len(),
                schema_prefix(tokens@, at as int) == Some((false, pos as int)),
            decreases tokens@.len() - pos,
        {
            match &tokens[pos].0 {
                Token::Newline | Token::LineComment(_) | Token::BlockComment(_) => {
                    pos = pos + 1;
                },
                Token::MetadataPrefix => {
                    if pos + 2 < tokens.len() {
                        if let Token::BareKey(key) = &tokens[pos + 1].0 {
                            if Self::is_key_named(key, "schema") && matches!(tokens[pos + 2].0, Token::LBrace) {
                                let (schema, p) = self.parse_schema_block(tokens, pos + 3)?;
                                return Ok((Some(schema), p));
                            }
                        }
                    }
                    break;
                },
                _ => {
                    break;
                },
            }
        }
        Ok((None, pos))
    }

    /// Reads `= "text"` after a property name; the `=` and the value are both optional.
    fn string_property(tokens: &Vec<(Token, Span)>, pos: usize) -> (r: (Option<String>, usize))
        requires
            pos <= tokens@.len(),
        ensures
            pos <= r.1 <= tokens@.len(),
            r.1 == string_prop_end(tokens@, pos as int),
            opt_chars(r.0) == string_prop_value(tokens@, pos as int),
    {
        let mut pos = pos;
        if pos < tokens.len() && matches!(tokens[pos].0, Token::Assign) {
            pos = pos + 1;
        }
        if pos < tokens.len() {
            if let Token::StringLiteral(s) = &tokens[pos].0 {
                return (Some(s.clone()), pos + 1);
            }
        }
        (None, pos)
    }

    /// Reads `= true|false` after a property name; the `=` and the value are both optional.
    fn bool_property(tokens: &Vec<(Token, Span)>, pos: usize) -> (r: (Option<bool>, usize))
        requires
            pos <= tokens@.len(),
        ensures
            pos <= r.1 <= tokens@.len(),
            r.1 == bool_prop_end(tokens@, pos as int),
            r.0 == bool_prop_value(tokens@, pos as int),
    {
        let mut pos = pos;
        if pos < tokens.len() && matches!(tokens[pos].0, Token::Assign) {
            pos = pos + 1;
        }
        if pos < tokens.len() {
            if let Token::BooleanLiteral(b) = &tokens[pos].0 {
                return (Some(*b), pos + 1);
            }
        }
        (None, pos)
    }

    /// Skips an optional `=`.
    fn skip_assign(tokens: &Vec<(Token, Span)>, pos: usize) -> (p: usize)
        requires
            pos <= tokens@.len(),
        ensures
            pos <= p <= tokens@.len(),
            p == skip_assign_at(tokens@, pos as int),
    {
        if pos < tokens.len() && matches!(tokens[pos].0, Token::Assign) { pos + 1 } else { pos }
    }

    /// The fields of the schema block, up to its `}`.
    fn parse_schema_block(&mut self, tokens: &Vec<(Token, Span)>, at: usize) -> (r: Result<(SchemaDefinition, usize), ParseError>)
        requires
            tokens_ok(tokens@),
            at < tokens@.len(),
        ensures
            r matches Ok((_, p)) ==> at <= p <= tokens@.len(),
            final(self).source_text() == old(self).source_text(),
            r is Ok <==> schema_block_end(tokens@, at as int) is Some,
            r matches Ok((_, p)) ==> schema_block_end(tokens@, at as int) == Some(p as int),
    {
        let start = tokens[at].1;
        let mut pos = at;
        let mut version: Option<String> = None;
        let mut description: Option<String> = None;
        let mut strict = false;
        let mut fields: Vec<SchemaField> = Vec::new();
        let ghost pos0 = at;
        while pos < tokens.len()
            invariant_except_break
                schema_block_end(tokens@, at as int) == schema_block_end(tokens@, pos as int),
            invariant
                tokens_ok(tokens@),
                at <= pos <= tokens@.len(),
                old(self).source_text() == self.source_text(),
            ensures
                at <= pos <= tokens@.len(),
                schema_block_end(tokens@, at as int) == Some(pos as int),
            decreases tokens@.len() - pos,
        {
            if matches!(tokens[pos].0, Token::RBrace) {
                pos = pos + 1;
                break;
            }
            if matches!(tokens[pos].0, Token::Newline | Token::LineComment(_) | Token::BlockComment(_)) {
                pos = pos + 1;
                continue;
            }
            if let Token::BareKey(key) = &tokens[pos].0 {
                if Self::is_key_named(key, "version") {
                    let (v, p) = Self::string_property(tokens, pos + 1);
                    if v.is_some() {
                        version = v;
                    }
                    pos = p;
                } else if Self::is_key_named(key, "description") {
                    let (v, p) = Self::string_property(tokens, pos + 1);
                    if v.is_some() {
                        description = v;
                    }
                    pos = p;
                } else if Self::is_key_named(key, "strict") {
                    let (v, p) = Self::bool_property(tokens, pos + 1);
                    if let Some(b) = v {
                        strict = b;
                    }
                    pos = p;
                } else {
                    let (field, p) = self.parse_schema_field(tokens, pos)?;
                    fields.push(field);
                    pos = p;
                }
            } else {
                pos = pos + 1;
            }
        }
        let end = if pos > 0 && pos <= tokens.len() { tokens[pos - 1].1 } else { start };
        Ok((SchemaDefinition { version, description, strict, fields, span: start.merge(&end) }, pos))
    }

    /// Applies the property named `key` at `pos` (just after the name).
    /// Returns `None` when `key` is not a property name.
    fn field_property(
        &mut self,
        key: &String,
        tokens: &Vec<(Token, Span)>,
        pos: usize,
        props: &mut FieldProps,
    ) -> (r: Result<Option<usize>, ParseError>)
        requires
            tokens_ok(tokens@),
            pos <= tokens@.len(),
        ensures
            r matches Ok(Some(p)) ==> pos <= p <= tokens@.len(),
            final(self).source_text() == old(self).source_text(),
            r is Err <==> field_prop_end(key@, tokens@, pos as int) is None,
            r matches Ok(None) ==> field_prop_end(key@, tokens@, pos as int) == Some(None::<int>),
            r matches Ok(Some(p)) ==> field_prop_end(key@, tokens@, pos as int) == Some(Some(p as int)),
            r is Ok ==> props_flags(*final(props)) == prop_flags(key@, tokens@, pos as int, props_flags(*old(props))),
    {
        proof {
            reveal_strlit("type");
            reveal_strlit("required");
            reveal_strlit("default");
            reveal_strlit("range");
            reveal_strlit("pattern");
            reveal_strlit("enum");
            reveal_strlit("desc");
            reveal_strlit("example");
            reveal_strlit("llm_hint");
            reveal_strlit("sensitive");
        }
        let ghost f0 = props_flags(*props);
        proof {
            lemma_property_names_differ();
        }
        if Self::is_key_named(key, "type") {
            let p = Self::skip_assign(tokens, pos);
            if p < tokens.len() {
                if let Token::StringLiteral(s) = &tokens[p].0 {
                    props.field_type = Self::parse_schema_type(s.as_str());
                            return Ok(Some(p + 1));
                }
            }
            Ok(Some(p))
        } else if Self::is_key_named(key, "required") {
            let (v, p) = Self::bool_property(tokens, pos);
            if let Some(b) = v {
                props.required = b;
            }
            Ok(Some(p))
        } else if Self::is_key_named(key, "default") {
            let p = Self::skip_assign(tokens, pos);
            if p >= tokens.len() {
                return Err(ParseError::new("expected value", Span::unknown()));
            }
            let (value, p2) = self.parse_value(tokens, p)?;
            props.default = Some(value);
            proof {
                lemma_other_props_keep_flags(key@, tokens@, pos as int, f0);
            }
            Ok(Some(p2))
        } else if Self::is_key_named(key, "range") {
            let p = Self::skip_assign(tokens, pos);
            let (range, p2) = Self::parse_schema_range(tokens, p);
            props.range = Some(range);
            Ok(Some(p2))
        } else if Self::is_key_named(key, "pattern") {
            let (v, p) = Self::string_property(tokens, pos);
            if v.is_some() {
                props.pattern = v;
            }
            Ok(Some(p))
        } else if Self::is_key_named(key, "enum") {
            let p = Self::skip_assign(tokens, pos);
            let (values, p2) = Self::parse_schema_enum(tokens, p);
            props.enum_values = values;
            Ok(Some(p2))
        } else if Self::is_key_named(key, "desc") {
            let (v, p) = Self::string_property(tokens, pos);
            if v.is_some() {
                props.desc = v;
            }
            Ok(Some(p))
        } else if Self::is_key_named(key, "example") {
            let (v, p) = Self::string_property(tokens, pos);
            if v.is_some() {
                props.example = v;
            }
            Ok(Some(p))
        } else if Self::is_key_named(key, "llm_hint") {
            let (v, p) = Self::string_property(tokens, pos);
            if v.is_some() {
                props.llm_hint = v;
            }
            Ok(Some(p))
        } else if Self::is_key_named(key, "sensitive") {
            let (v, p) = Self::bool_property(tokens, pos);
            if let Some(b) = v {
                props.sensitive = b;
            }
            Ok(Some(p))
        } else {
            Ok(None)
        }
    }

    /// One schema field: `name { props and nested fields }`, or `name props...`
    /// on one line (continuing on following lines that start with a key).
    fn parse_schema_field(&mut self, tokens: &Vec<(Token, Span)>, at: usize) -> (r: Result<(SchemaField, usize), ParseError>)
        requires
            tokens_ok(tokens@),
            at < tokens@.len(),
        ensures
            r matches Ok((_, p)) ==> at < p <= tokens@.len(),
            final(self).source_text() == old(self).source_text(),
            r is Ok <==> schema_field_end(tokens@, at as int) is Some,
            r matches Ok((_, p)) ==> schema_field_end(tokens@, at as int) == Some(p as int),
            r matches Ok((f, _)) ==> field_flags(f) == field_flags_at(tokens@, at as int),
            r matches Ok((f, _)) ==> tokens@[at as int].0 matches Token::BareKey(k) && f.name@ == k@,
            r matches Ok((f, _)) ==> fields_at(f.nested_fields@, tokens@, field_children_at(tokens@, at as int)),
            r matches Ok((f, p)) ==> f.span == merged(tokens@[at as int].1, tokens@[p - 1].1),
        decreases tokens@.len() - at,
    {
        let start = tokens[at].1;
        let name = match &tokens[at].0 {
            Token::BareKey(key) => key.clone(),
            _ => {
                return Err(ParseError::new("expected field name in schema", tokens[at].1));
            },
        };
        let mut pos = at + 1;
        let ghost pos1 = pos;
        assert(pos1 == at + 1);
        let nested = pos < tokens.len() && matches!(tokens[pos].0, Token::LBrace);
        let mut props = FieldProps {
            field_type: if nested { SchemaType::Table } else { SchemaType::String },
            required: false,
            default: None,
            range: None,
            pattern: None,
            enum_values: None,
            desc: None,
            example: None,
            llm_hint: None,
            sensitive: false,
        };
        let mut nested_fields: Vec<SchemaField> = Vec::new();
        let ghost mut done: Seq<int> = Seq::empty();
        if nested {
            pos = pos + 1;
            while pos < tokens.len()
                invariant_except_break
                    schema_field_end(tokens@, at as int) == nested_items_end(tokens@, pos as int),
                    field_flags_at(tokens@, at as int) == nested_flags(tokens@, pos as int, props_flags(props)),
                    done + nested_starts(tokens@, pos as int) == field_children_at(tokens@, at as int),
                invariant
                    tokens_ok(tokens@),
                    at + 1 < pos <= tokens@.len(),
                    old(self).source_text() == self.source_text(),
                    fields_at(nested_fields@, tokens@, done),
                ensures
                    at + 1 < pos <= tokens@.len(),
                    schema_field_end(tokens@, at as int) == Some(pos as int),
                    done == field_children_at(tokens@, at as int),
                    field_flags_at(tokens@, at as int) == props_flags(props),
                decreases tokens@.len() - pos,
            {
                if matches!(tokens[pos].0, Token::RBrace) {
                    pos = pos + 1;
                    break;
                }
                if matches!(tokens[pos].0, Token::Newline | Token::LineComment(_) | Token::BlockComment(_)) {
                    pos = pos + 1;
                    continue;
                }
                if let Token::BareKey(key) = &tokens[pos].0 {
                    match self.field_property(key, tokens, pos + 1, &mut props)? {
                        Some(p) => {
                            pos = p;
                        },
                        None => {
                            let (field, p) = self.parse_schema_field(tokens, pos)?;
                            let ghost before = nested_fields@;
                            nested_fields.push(field);
                            proof {
                                assert(done.push(pos as int) + nested_starts(tokens@, p as int) =~= done + (seq![pos as int]
                                    + nested_starts(tokens@, p as int)));
                                assert forall|i: int| 0 <= i < nested_fields@.len() implies {
                                    &&& field_flags(#[trigger] nested_fields@[i]) == field_flags_at(tokens@, done.push(pos as int)[i])
                                    &&& 0 <= done.push(pos as int)[i] < tokens@.len()
                                    &&& tokens@[done.push(pos as int)[i]].0 matches Token::BareKey(k) && nested_fields@[i].name@ == k@
                                } by {
                                    if i < before.len() {
                                        assert(nested_fields@[i] == before[i]);
                                    }
                                }
                                done = done.push(pos as int);
                            }
                            pos = p;
                        },
                    }
                } else {
                    pos = pos + 1;
                }
            }
        } else {
            while pos < tokens.len()
                invariant_except_break
                    schema_field_end(tokens@, at as int) == flat_items_end(tokens@, pos as int),
                    field_flags_at(tokens@, at as int) == flat_flags(tokens@, pos as int, props_flags(props)),
                invariant
                    tokens_ok(tokens@),
                    at + 1 <= pos <= tokens@.len(),
                    old(self).source_text() == self.source_text(),
                ensures
                    at + 1 <= pos <= tokens@.len(),
                    schema_field_end(tokens@, at as int) == Some(pos as int),
                    field_flags_at(tokens@, at as int) == props_flags(props),
                decreases tokens@.len() - pos,
            {
                if matches!(tokens[pos].0, Token::Newline) {
                    pos = pos + 1;
                    if pos < tokens.len() && matches!(tokens[pos].0, Token::BareKey(_)) {
                        continue;
                    }
                    break;
                }
                if matches!(tokens[pos].0, Token::LineComment(_) | Token::BlockComment(_) | Token::Comma) {
                    pos = pos + 1;
                    continue;
                }
                if let Token::BareKey(key) = &tokens[pos].0 {
                    match self.field_property(key, tokens, pos + 1, &mut props)? {
                        Some(p) => {
                            pos = p;
                        },
                        None => {
                            pos = pos + 1;
                        },
                    }
                } else {
                    break;
                }
            }
        }
        let end = if pos > 0 && pos <= tokens.len() { tokens[pos - 1].1 } else { start };
        Ok((SchemaField {
            name,
            field_type: props.field_type,
            required: props.required,
            default: props.default,
            range: props.range,
            pattern: props.pattern,
            enum_values: props.enum_values,
            desc: props.desc,
            example: props.example,
            llm_hint: props.llm_hint,
            sensitive: props.sensitive,
            nested_fields,
            span: start.merge(&end),
        }, pos))
    }

    /// The schema type named by `s` (`array<T>` nests).
    pub fn parse_schema_type(s: &str) -> (t: SchemaType)
        ensures
            t == schema_type_of(s@),
        decreases s@.len(),
    {
        let v = chars_of(s);
        Self::schema_type_of_chars(&v)
    }

    fn schema_type_of_chars(v: &Vec<char>) -> (t: SchemaType)
        ensures
            t == schema_type_of(v@),
        decreases v@.len(),
    {
        let s = string_from_chars(v);
        let s = s.as_str();
        if str_eq(s, "string") {
            SchemaType::String
        } else if str_eq(s, "integer") || str_eq(s, "int") {
            SchemaType::Integer
        } else if str_eq(s, "float") || str_eq(s, "number") {
            SchemaType::Float
        } else if str_eq(s, "bool") || str_eq(s, "boolean") {
            SchemaType::Boolean
        } else if str_eq(s, "datetime") {
            SchemaType::DateTime
        } else if str_eq(s, "duration") {
            SchemaType::Duration
        } else if str_eq(s, "table") {
            SchemaType::Table
        } else if str_eq(s, "array") {
            SchemaType::Array(Box::new(SchemaType::String))
        } else if v.len() >= 7 && v[v.len() - 1] == '>' {
            let head = vec_range(v, 0, 6);
            let head_s = string_from_chars(&head);
            if str_eq(head_s.as_str(), "array<") {
                let inner = vec_range(v, 6, v.len() - 1);
                SchemaType::Array(Box::new(Self::schema_type_of_chars(&inner)))
            } else {
                SchemaType::String
            }
        } else {
            SchemaType::String
        }
    }

    /// `(min..max)` with integer bounds; missing or unreadable parts give `None`
    /// or `0` as the original grammar allows.
    fn parse_schema_range(tokens: &Vec<(Token, Span)>, at: usize) -> (r: (RangeConstraint, usize))
        requires
            at <= tokens@.len(),
        ensures
            at <= r.1 <= tokens@.len(),
            r.1 == schema_range_end(tokens@, at as int),
            (r.0.min, r.0.max) == schema_range_of(tokens@, at as int),
    {
        let mut pos = at;
        if pos < tokens.len() && matches!(tokens[pos].0, Token::LParen) {
            pos = pos + 1;
        }
        let mut min: Option<i64> = None;
        if pos < tokens.len() {
            if let Token::NumberLiteral(n) = &tokens[pos].0 {
                min = Some(Self::integer_or_zero(n));
                pos = pos + 1;
            }
        }
        if pos < tokens.len() && matches!(tokens[pos].0, Token::RangeOp) {
            pos = pos + 1;
        }
        let mut max: Option<i64> = None;
        if pos < tokens.len() {
            if let Token::NumberLiteral(n) = &tokens[pos].0 {
                max = Some(Self::integer_or_zero(n));
                pos = pos + 1;
            }
        }
        if pos < tokens.len() && matches!(tokens[pos].0, Token::RParen) {
            pos = pos + 1;
        }
        (RangeConstraint { min, max }, pos)
    }

    fn integer_or_zero(n: &String) -> (v: i64)
        ensures
            v == match i64_of(n@) { Some(x) => x, None => 0 },
    {
        let c = chars_of(n.as_str());
        match parse_i64(&c) {
            Some(x) => x,
            None => 0,
        }
    }

    /// `[ "a", "b" ]`: the string elements; `None` when there are none.
    fn parse_schema_enum(tokens: &Vec<(Token, Span)>, at: usize) -> (r: (Option<Vec<ScalarValue>>, usize))
        requires
            at <= tokens@.len(),
        ensures
            at <= r.1 <= tokens@.len(),
            r.0 matches Some(v) ==> v@.len() > 0,
            r.1 == schema_enum_end(tokens@, at as int),
            enum_texts(r.0) == schema_enum_of(tokens@, at as int),
    {
        let mut pos = at;
        if pos < tokens.len() && matches!(tokens[pos].0, Token::LBracket) {
            pos = pos + 1;
        }
        let ghost first = pos;
        let mut values: Vec<ScalarValue> = Vec::new();
        while pos < tokens.len()
            invariant_except_break
                enum_items_end(tokens@, first as int) == enum_items_end(tokens@, pos as int),
                string_scalars(values@) matches Some(c) && c + enum_strings(tokens@, pos as int) == enum_strings(
                    tokens@,
                    first as int,
                ),
            invariant
                at <= pos <= tokens@.len(),
                first == step_if(at as int, at < tokens@.len() && tokens@[at as int].0 is LBracket),
            ensures
                at <= pos <= tokens@.len(),
                enum_items_end(tokens@, first as int) == pos,
                string_scalars(values@) == Some(enum_strings(tokens@, first as int)),
            decreases tokens@.len() - pos,
        {
            if matches!(tokens[pos].0, Token::RBracket) {
                pos = pos + 1;
                break;
            }
            if matches!(tokens[pos].0, Token::Comma) {
                pos = pos + 1;
                continue;
            }
            let ghost before = values@;
            if let Token::StringLiteral(s) = &tokens[pos].0 {
                values.push(ScalarValue::String(s.clone()));
                proof {
                    assert(values@.drop_last() =~= before);
                    let c = string_scalars(before)->Some_0;
                    assert(c.push(s@) + enum_strings(tokens@, pos + 1) =~= c + (seq![s@] + enum_strings(
                        tokens@,
                        pos + 1,
                    )));
                }
            }
            pos = pos + 1;
        }
        proof {
            if values@.len() > 0 {
                lemma_string_scalars_len(values@);
            } else {
                assert(string_scalars(values@) == Some(Seq::<Seq<char>>::empty()));
            }
        }
        if values.len() == 0 { (None, pos) } else { (Some(values), pos) }
    }

    /// Entries up to the matching `}` or `Eof`.
    fn parse_table_block(&mut self, tokens: &Vec<(Token, Span)>, at: usize) -> (r: Result<(TableBlock, usize), ParseError>)
        requires
            tokens_ok(tokens@),
            at <= tokens@.len(),
        ensures
            r matches Ok((t, p)) ==> at <= p <= tokens@.len() && t.name is None,
            final(self).source_text() == old(self).source_text(),
            r is Ok <==> entries_end(tokens@, at as int) is Some,
            r matches Ok((_, p)) ==> entries_end(tokens@, at as int) == Some(p as int),
        decreases tokens@.len() - at, 6nat,
    {
        let start = if at < tokens.len() { tokens[at].1 } else { Span::unknown() };
        let mut entries: Vec<TableEntry> = Vec::new();
        let mut pos = at;
        let ghost pos0 = at;
        while pos < tokens.len()
            invariant_except_break
                entries_end(tokens@, at as int) == entries_end(tokens@, pos as int),
            invariant
                tokens_ok(tokens@),
                at <= pos <= tokens@.len(),
                old(self).source_text() == self.source_text(),
            ensures
                at <= pos <= tokens@.len(),
                entries_end(tokens@, at as int) == Some(pos as int),
            decreases tokens@.len() - pos,
        {
            match &tokens[pos].0 {
                Token::RBrace => {
                    pos = pos + 1;
                    break;
                },
                Token::Eof => {
                    break;
                },
                Token::BareKey(_) | Token::QuotedKey(_) => {
                    if pos + 1 < tokens.len() {
                        if matches!(tokens[pos + 1].0, Token::LBrace) {
                            let table_name = match &tokens[pos].0 {
                                Token::BareKey(k) => Some(k.clone()),
                                Token::QuotedKey(k) => Some(k.clone()),
                                _ => None,
                            };
                            proof {
                                assert(entries_end(tokens@, pos as int) == key_entry_end(tokens@, pos as int));
                                assert(key_entry_end(tokens@, pos as int) == match entries_end(tokens@, pos + 2) {
                                    Some(q) => if 0 <= pos < q <= tokens@.len() { entries_end(tokens@, q) } else { None },
                                    None => None,
                                });
                            }
                            let (mut table, p) = self.parse_table_block(tokens, pos + 2)?;
                            table.name = table_name;
                            entries.push(TableEntry::TableBlock(table));
                            pos = p;
                            continue;
                        }
                        if matches!(tokens[pos + 1].0, Token::LDoubleBracket) {
                            let (at, p) = self.parse_array_table(tokens, pos + 1)?;
                            entries.push(TableEntry::ArrayTable(at));
                            pos = p;
                            continue;
                        }
                    }
                    let (kv, p) = self.parse_key_value(tokens, pos)?;
                    entries.push(TableEntry::KeyValue(kv));
                    pos = p;
                },
                Token::LDoubleBracket => {
                    let (at, p) = self.parse_array_table(tokens, pos)?;
                    entries.push(TableEntry::ArrayTable(at));
                    pos = p;
                },
                Token::Include => {
                    let (inc, p) = Self::parse_include(tokens, pos)?;
                    entries.push(TableEntry::IncludeDirective(inc));
                    pos = p;
                },
                Token::LineComment(_) | Token::BlockComment(_) => {
                    let (comment, p) = Self::parse_comment(tokens, pos)?;
                    entries.push(TableEntry::Comment(comment));
                    pos = p;
                },
                Token::Newline => {
                    pos = pos + 1;
                },
                _ => {
                    let mut message = String::new();
                    message.push_str("unexpected token in table block: ");
                    tokens[pos].0.describe_into(&mut message);
                    return Err(ParseError { message, span: tokens[pos].1 });
                },
            }
        }
        let end = if pos > 0 && pos <= tokens.len() { tokens[pos - 1].1 } else { start };
        Ok((TableBlock { name: None, entries, span: start.merge(&end) }, pos))
    }

    /// `key = value` with optional metadata and trailing comment.
    fn parse_key_value(&mut self, tokens: &Vec<(Token, Span)>, pos: usize) -> (r: Result<(KeyValue, usize), ParseError>)
        requires
            tokens_ok(tokens@),
            pos < tokens@.len(),
        ensures
            r matches Ok((_, p)) ==> pos < p <= tokens@.len(),
            final(self).source_text() == old(self).source_text(),
            r is Ok <==> kv_end(tokens@, pos as int) is Some,
            r matches Ok((_, p)) ==> kv_end(tokens@, pos as int) == Some(p as int),
        decreases tokens@.len() - pos, 4nat,
    {
        let start = tokens[pos].1;
        let (key, pos) = Self::parse_key(tokens, pos)?;
        if pos >= tokens.len() {
            return Err(ParseError::new("expected '=' or ':' after key", start));
        }
        match &tokens[pos].0 {
            Token::Assign => {},
            other => {
                let mut message = String::new();
                message.push_str("expected '=' or ':', found ");
                other.describe_into(&mut message);
                return Err(ParseError { message, span: tokens[pos].1 });
            },
        }
        let pos = pos + 1;
        if pos >= tokens.len() {
            return Err(ParseError::new("expected value", Span::unknown()));
        }
        let (value, pos) = self.parse_value(tokens, pos)?;
        let (metadata, pos) = if pos < tokens.len() && matches!(tokens[pos].0, Token::MetadataPrefix) {
            let (m, p) = Self::parse_metadata(tokens, pos)?;
            (Some(m), p)
        } else {
            (None, pos)
        };
        let (comment, pos) = if pos < tokens.len() && matches!(tokens[pos].0, Token::LineComment(_) | Token::BlockComment(_)) {
            let (c, p) = Self::parse_comment(tokens, pos)?;
            (Some(c), p)
        } else {
            (None, pos)
        };
        let end = tokens[pos - 1].1;
        Ok((KeyValue { key, value, metadata, comment, span: start.merge(&end) }, pos))
    }

    /// A bare key, a quoted key, or a string used as a key.
    fn parse_key(tokens: &Vec<(Token, Span)>, pos: usize) -> (r: Result<(Key, usize), ParseError>)
        requires
            pos <= tokens@.len(),
        ensures
            pos < tokens@.len() ==> match tokens@[pos as int].0 {
                Token::BareKey(k) => r matches Ok((Key::BareKey(x), p)) && x@ == k@ && p == pos + 1,
                Token::QuotedKey(k) => r matches Ok((Key::QuotedKey(x), p)) && x@ == k@ && p == pos + 1,
                Token::StringLiteral(k) => r matches Ok((Key::QuotedKey(x), p)) && x@ == k@ && p == pos + 1,
                _ => r is Err,
            },
            pos >= tokens@.len() ==> r is Err,
    {
        if pos >= tokens.len() {
            return Err(ParseError::new("expected key", Span::unknown()));
        }
        match &tokens[pos].0 {
            Token::BareKey(k) => Ok((Key::BareKey(k.clone()), pos + 1)),
            Token::QuotedKey(k) => Ok((Key::QuotedKey(k.clone()), pos + 1)),
            Token::StringLiteral(k) => Ok((Key::QuotedKey(k.clone()), pos + 1)),
            other => {
                let mut message = String::new();
                message.push_str("expected key, found ");
                other.describe_into(&mut message);
                Err(ParseError { message, span: tokens[pos].1 })
            },
        }
    }

    /// A value: a literal expression, an inline table or an array.
    fn parse_value(&mut self, tokens: &Vec<(Token, Span)>, pos: usize) -> (r: Result<(Value, usize), ParseError>)
        requires
            tokens_ok(tokens@),
            pos < tokens@.len(),
        ensures
            r matches Ok((_, p)) ==> pos < p <= tokens@.len(),
            final(self).source_text() == old(self).source_text(),
            r is Ok <==> value_end(tokens@, pos as int) is Some,
            r matches Ok((_, p)) ==> value_end(tokens@, pos as int) == Some(p as int),
        decreases tokens@.len() - pos, 3nat,
    {
        match &tokens[pos].0 {
            Token::StringLiteral(_) | Token::NumberLiteral(_) | Token::BooleanLiteral(_)
            | Token::DurationLiteral(_) | Token::DateTimeLiteral(_) => {
                let (expr, p) = Self::parse_expression(tokens, pos)?;
                Ok((Value::Expression(expr), p))
            },
            Token::LBrace => self.parse_inline_or_table(tokens, pos),
            Token::LBracket => {
                let (arr, p) = self.parse_array(tokens, pos)?;
                Ok((Value::Array(arr), p))
            },
            other => {
                let mut message = String::new();
                message.push_str("expected value, found ");
                other.describe_into(&mut message);
                Err(ParseError { message, span: tokens[pos].1 })
            },
        }
    }

    /// A primary followed by any number of `op primary` (left-associative).
    fn parse_expression(tokens: &Vec<(Token, Span)>, pos: usize) -> (r: Result<(Expression, usize), ParseError>)
        requires
            pos < tokens@.len(),
        ensures
            r matches Ok((_, p)) ==> pos < p <= tokens@.len(),
            r is Ok <==> expr_end(tokens@, pos as int) is Some,
            r matches Ok((_, p)) ==> expr_end(tokens@, pos as int) == Some(p as int),
    {
        let (left, p) = Self::parse_expression_primary(tokens, pos)?;
        Self::parse_expression_rest(tokens, p, left)
    }

    /// A literal; a number directly followed by a unit key (`s`, `m`, `h`, `d`)
    /// is a duration.
    fn parse_expression_primary(tokens: &Vec<(Token, Span)>, pos: usize) -> (r: Result<(Expression, usize), ParseError>)
        requires
            pos <= tokens@.len(),
        ensures
            r matches Ok((_, p)) ==> pos < p <= tokens@.len(),
            pos < tokens@.len() ==> match tokens@[pos as int].0 {
                Token::StringLiteral(s) => r matches Ok((Expression::Literal(ScalarValue::String(x)), p)) && x@ == s@ && p == pos + 1,
                Token::BooleanLiteral(b) => r matches Ok((Expression::Literal(ScalarValue::Boolean(x)), p)) && x == b && p == pos + 1,
                Token::DateTimeLiteral(s) => r matches Ok((Expression::Literal(ScalarValue::DateTime(x)), p)) && x@ == s@ && p == pos + 1,
                Token::DurationLiteral(d) => match duration_parts(d@) {
                    Some((num, u)) => if float_text(num) {
                        r matches Ok((Expression::UnitValue { value, unit }, p)) && value@ == num && unit == u && p == pos + 1
                    } else {
                        r is Err
                    },
                    None => r is Err,
                },
                Token::NumberLiteral(n) => match unit_word_at(tokens@, pos + 1) {
                    Some(w) => r matches Ok((Expression::UnitValue { value, unit }, p)) && value@ == (if float_text(n@) {
                        n@
                    } else {
                        "0"@
                    }) && duration_parts(w) == Some((Seq::<char>::empty(), unit)) && p == pos + 2,
                    None => match r {
                        Ok((e, p)) => p == pos + 1 && (e matches Expression::Literal(sc) && number_reads_as(n@, sc)),
                        Err(_) => !number_ok(n@),
                    },
                },
                _ => r is Err,
            },
            r is Ok <==> primary_end(tokens@, pos as int) is Some,
            r matches Ok((_, p)) ==> primary_end(tokens@, pos as int) == Some(p as int),
            r matches Ok((e, p)) ==> expr_ops(e).len() == 0 && ops_between(tokens@, pos as int, p as int).len() == 0,
    {
        if pos >= tokens.len() {
            return Err(ParseError::new("expected expression value", Span::unknown()));
        }
        proof {
            if pos < tokens@.len() && !(tokens@[pos as int].0 is Operator) {
                lemma_no_ops(tokens@, pos as int, pos + 1);
                if pos + 1 < tokens@.len() && tokens@[pos + 1].0 is BareKey {
                    lemma_no_ops(tokens@, pos as int, pos + 2);
                }
            }
            lemma_duration_suffix_names_unit(Seq::<char>::empty(), ' ');
            assert(Seq::<char>::empty() + "s"@ =~= "s"@);
            assert(Seq::<char>::empty() + "m"@ =~= "m"@);
            assert(Seq::<char>::empty() + "h"@ =~= "h"@);
            assert(Seq::<char>::empty() + "d"@ =~= "d"@);
        }
        let span = tokens[pos].1;
        match &tokens[pos].0 {
            Token::NumberLiteral(n) => {
                let p = pos + 1;
                if p < tokens.len() {
                    if let Token::BareKey(unit) = &tokens[p].0 {
                        let time_unit = Self::unit_of_word(unit);
                        if let Some(tu) = time_unit {
                            let value = Self::decimal_or_zero(n);
                            return Ok((Expression::UnitValue { value, unit: tu }, p + 1));
                        }
                    }
                }
                let scalar = Self::parse_number_scalar(n, span)?;
                Ok((Expression::Literal(scalar), p))
            },
            Token::StringLiteral(s) => Ok((Expression::Literal(ScalarValue::String(s.clone())), pos + 1)),
            Token::BooleanLiteral(b) => Ok((Expression::Literal(ScalarValue::Boolean(*b)), pos + 1)),
            Token::DurationLiteral(d) => {
                let (num, unit) = Self::parse_duration_literal(d)?;
                Ok((Expression::UnitValue { value: num, unit }, pos + 1))
            },
            Token::DateTimeLiteral(dt) => Ok((Expression::Literal(ScalarValue::DateTime(dt.clone())), pos + 1)),
            other => {
                let mut message = String::new();
                message.push_str("expected expression value, found ");
                other.describe_into(&mut message);
                Err(ParseError { message, span })
            },
        }
    }

    /// The unit named by a one-letter key.
    fn unit_of_word(w: &String) -> (u: Option<TimeUnit>)
        ensures
            u == (if w@ == "s"@ { Some(TimeUnit::Seconds) } else if w@ == "m"@ { Some(TimeUnit::Minutes) }
                else if w@ == "h"@ { Some(TimeUnit::Hours) } else if w@ == "d"@ { Some(TimeUnit::Days) } else { None::<TimeUnit> }),
    {
        if Self::is_key_named(w, "s") {
            Some(TimeUnit::Seconds)
        } else if Self::is_key_named(w, "m") {
            Some(TimeUnit::Minutes)
        } else if Self::is_key_named(w, "h") {
            Some(TimeUnit::Hours)
        } else if Self::is_key_named(w, "d") {
            Some(TimeUnit::Days)
        } else {
            None
        }
    }

    /// The text itself when it reads as a float, otherwise `0`.
    fn decimal_or_zero(n: &String) -> (v: String)
        ensures
            v@ == (if float_text(n@) { n@ } else { "0"@ }),
    {
        let c = chars_of(n.as_str());
        if is_float_text(&c) {
            n.clone()
        } else {
            to_owned_string("0")
        }
    }

    /// Further `op primary` pairs, folded to the left.
    fn parse_expression_rest(tokens: &Vec<(Token, Span)>, pos: usize, left: Expression) -> (r: Result<(Expression, usize), ParseError>)
        requires
            pos <= tokens@.len(),
        ensures
            r matches Ok((_, p)) ==> pos <= p <= tokens@.len(),
            pos < tokens@.len() && !(tokens@[pos as int].0 is Operator) ==> (r matches Ok((e, p)) && e == left && p == pos),
            pos >= tokens@.len() ==> (r matches Ok((e, p)) && e == left && p == pos),
            r is Ok <==> rest_end(tokens@, pos as int) is Some,
            r matches Ok((_, p)) ==> rest_end(tokens@, pos as int) == Some(p as int),
            r matches Ok((e, p)) ==> expr_ops(e) == expr_ops(left) + ops_between(tokens@, pos as int, p as int),
        decreases tokens@.len() - pos,
    {
        if pos >= tokens.len() {
            return Ok((left, pos));
        }
        if let Token::Operator(op) = &tokens[pos].0 {
            let (right, p) = Self::parse_expression_primary(tokens, pos + 1)?;
            let operator = match op {
                Operator::Add => BinaryOperator::Add,
                Operator::Subtract => BinaryOperator::Subtract,
                Operator::Multiply => BinaryOperator::Multiply,
                Operator::Divide => BinaryOperator::Divide,
            };
            let ghost gl = left;
            let ghost gop = *op;
            let expr = Expression::BinaryOp { left: Box::new(left), operator, right: Box::new(right) };
            proof {
                assert(operator == binary_of(gop));
                assert(expr_ops(expr) =~= expr_ops(gl).push(binary_of(gop)));
                lemma_ops_between_split(tokens@, pos + 1, p as int, tokens@.len() as int);
            }
            let r = Self::parse_expression_rest(tokens, p, expr);
            proof {
                if r is Ok {
                    let e = r->Ok_0.0;
                    let pf = r->Ok_0.1;
                    lemma_ops_between_split(tokens@, pos + 1, p as int, pf as int);
                    assert(ops_between(tokens@, pos as int, pf as int) =~= seq![binary_of(gop)] + ops_between(
                        tokens@,
                        pos + 1,
                        pf as int,
                    ));
                    assert(expr_ops(e) =~= expr_ops(gl) + ops_between(tokens@, pos as int, pf as int));
                }
            }
            r
        } else {
            Ok((left, pos))
        }
    }

    /// An integer, or (with a `.`) a decimal kept as text.
    fn parse_number_scalar(n: &String, span: Span) -> (r: Result<ScalarValue, ParseError>)
        ensures
            n@.contains('.') ==> (if float_text(n@) {
                r matches Ok(ScalarValue::Number(NumberValue::Float(t))) && t@ == n@
            } else {
                r matches Err(e) && e.message@ == "invalid float number"@ && e.span == span
            }),
            !n@.contains('.') ==> (match i64_of(n@) {
                Some(v) => r == Ok::<ScalarValue, ParseError>(ScalarValue::Number(NumberValue::Integer(v))),
                None => r matches Err(e) && e.message@ == "invalid integer number"@ && e.span == span,
            }),
    {
        let c = chars_of(n.as_str());
        let mut has_dot = false;
        let mut i: usize = 0;
        while i < c.len()
            invariant
                i <= c@.len(),
                c@ == n@,
                has_dot == exists|j: int| 0 <= j < i && c@[j] == '.',
            decreases c@.len() - i,
        {
            if c[i] == '.' {
                has_dot = true;
            }
            i = i + 1;
        }
        proof {
            if has_dot {
                let j = choose|j: int| 0 <= j < c@.len() && c@[j] == '.';
                assert(n@[j] == '.');
            }
        }
        if has_dot {
            if is_float_text(&c) {
                Ok(ScalarValue::Number(NumberValue::Float(n.clone())))
            } else {
                Err(ParseError::new("invalid float number", span))
            }
        } else {
            match parse_i64(&c) {
                Some(v) => Ok(ScalarValue::Number(NumberValue::Integer(v))),
                None => Err(ParseError::new("invalid integer number", span)),
            }
        }
    }

    /// Inline tables and table blocks after `=` are both read as inline tables.
    fn parse_inline_or_table(&mut self, tokens: &Vec<(Token, Span)>, pos: usize) -> (r: Result<(Value, usize), ParseError>)
        requires
            tokens_ok(tokens@),
            pos < tokens@.len(),
        ensures
            r matches Ok((_, p)) ==> pos < p <= tokens@.len(),
            final(self).source_text() == old(self).source_text(),
            r is Ok <==> kvs_end(tokens@, pos + 1) is Some,
            r matches Ok((_, p)) ==> kvs_end(tokens@, pos + 1) == Some(p as int),
        decreases tokens@.len() - pos, 2nat,
    {
        self.parse_inline_table(tokens, pos)
    }

    /// `60s`, `5m`, `1h`, `1d`: the number as written and the unit.
    fn parse_duration_literal(s: &String) -> (r: Result<(String, TimeUnit), ParseError>)
        ensures
            match duration_parts(s@) {
                Some((num, unit)) => if float_text(num) {
                    r matches Ok((t, u)) && t@ == num && u == unit
                } else {
                    r matches Err(e) && e.message@ == "invalid duration"@
                },
                None => r matches Err(e) && e.message@ == "invalid duration format"@,
            },
    {
        let c = chars_of(s.as_str());
        if c.len() == 0 {
            return Err(ParseError::new("invalid duration format", Span::unknown()));
        }
        let last = c[c.len() - 1];
        let unit = if last == 's' {
            TimeUnit::Seconds
        } else if last == 'm' {
            TimeUnit::Minutes
        } else if last == 'h' {
            TimeUnit::Hours
        } else if last == 'd' {
            TimeUnit::Days
        } else {
            return Err(ParseError::new("invalid duration format", Span::unknown()));
        };
        let num = vec_range(&c, 0, c.len() - 1);
        assert(num@ == s@.drop_last());
        if is_float_text(&num) {
            Ok((string_from_chars(&num), unit))
        } else {
            Err(ParseError::new("invalid duration", Span::unknown()))
        }
    }

    /// `{ key = value, ... }`
    fn parse_inline_table(&mut self, tokens: &Vec<(Token, Span)>, at: usize) -> (r: Result<(Value, usize), ParseError>)
        requires
            tokens_ok(tokens@),
            at < tokens@.len(),
        ensures
            r matches Ok((_, p)) ==> at < p <= tokens@.len(),
            final(self).source_text() == old(self).source_text(),
            r is Ok <==> kvs_end(tokens@, at + 1) is Some,
            r matches Ok((_, p)) ==> kvs_end(tokens@, at + 1) == Some(p as int),
        decreases tokens@.len() - at, 1nat,
    {
        let start = tokens[at].1;
        let mut pos = at + 1;
        let ghost pos1 = pos;
        assert(pos1 == at + 1);
        let mut entries: Vec<KeyValue> = Vec::new();
        while pos < tokens.len()
            invariant_except_break
                kvs_end(tokens@, at + 1) == kvs_end(tokens@, pos as int),
            invariant
                tokens_ok(tokens@),
                at + 1 <= pos <= tokens@.len(),
                old(self).source_text() == self.source_text(),
            ensures
                at + 1 <= pos <= tokens@.len(),
                kvs_end(tokens@, at + 1) == Some(pos as int),
            decreases tokens@.len() - pos,
        {
            if matches!(tokens[pos].0, Token::RBrace) {
                pos = pos + 1;
                break;
            }
            if matches!(tokens[pos].0, Token::Comma | Token::Newline) {
                pos = pos + 1;
                continue;
            }
            let (kv, p) = self.parse_key_value(tokens, pos)?;
            entries.push(kv);
            pos = p;
        }
        let end = tokens[pos - 1].1;
        Ok((Value::InlineTable(InlineTable { entries, span: start.merge(&end) }), pos))
    }

    /// `[ value, ... ]`
    fn parse_array(&mut self, tokens: &Vec<(Token, Span)>, at: usize) -> (r: Result<(ArrayValue, usize), ParseError>)
        requires
            tokens_ok(tokens@),
            at < tokens@.len(),
        ensures
            r matches Ok((_, p)) ==> at < p <= tokens@.len(),
            final(self).source_text() == old(self).source_text(),
            r is Ok <==> items_end(tokens@, at + 1) is Some,
            r matches Ok((_, p)) ==> items_end(tokens@, at + 1) == Some(p as int),
        decreases tokens@.len() - at, 1nat,
    {
        let start = tokens[at].1;
        let mut pos = at + 1;
        let ghost pos1 = pos;
        assert(pos1 == at + 1);
        let mut elements: Vec<Value> = Vec::new();
        while pos < tokens.len()
            invariant_except_break
                items_end(tokens@, at + 1) == items_end(tokens@, pos as int),
            invariant
                tokens_ok(tokens@),
                at + 1 <= pos <= tokens@.len(),
                old(self).source_text() == self.source_text(),
            ensures
                at + 1 <= pos <= tokens@.len(),
                items_end(tokens@, at + 1) == Some(pos as int),
            decreases tokens@.len() - pos,
        {
            if matches!(tokens[pos].0, Token::RBracket) {
                pos = pos + 1;
                break;
            }
            if matches!(tokens[pos].0, Token::Comma | Token::Newline) {
                pos = pos + 1;
                continue;
            }
            let (value, p) = self.parse_value(tokens, pos)?;
            elements.push(value);
            pos = p;
        }
        let end = tokens[pos - 1].1;
        Ok((ArrayValue { elements, span: start.merge(&end) }, pos))
    }

    /// `[[key]]` and the key-value lines (and comments) after it.
    fn parse_array_table(&mut self, tokens: &Vec<(Token, Span)>, at: usize) -> (r: Result<(ArrayTable, usize), ParseError>)
        requires
            tokens_ok(tokens@),
            at < tokens@.len(),
        ensures
            r matches Ok((_, p)) ==> at < p <= tokens@.len(),
            final(self).source_text() == old(self).source_text(),
            r is Ok <==> array_table_end(tokens@, at as int) is Some,
            r matches Ok((_, p)) ==> array_table_end(tokens@, at as int) == Some(p as int),
        decreases tokens@.len() - at, 5nat,
    {
        let start = tokens[at].1;
        let (key, p) = Self::parse_key(tokens, at + 1)?;
        if p >= tokens.len() || !matches!(tokens[p].0, Token::RDoubleBracket) {
            return Err(ParseError::new("expected ']]'", start));
        }
        let mut pos = p + 1;
        let ghost pos1 = pos;
        let mut entries: Vec<KeyValue> = Vec::new();
        while pos < tokens.len()
            invariant_except_break
                element_entries_end(tokens@, at + 3) == element_entries_end(tokens@, pos as int),
            invariant
                tokens_ok(tokens@),
                at + 1 <= pos <= tokens@.len(),
                old(self).source_text() == self.source_text(),
            ensures
                at + 1 <= pos <= tokens@.len(),
                element_entries_end(tokens@, at + 3) == Some(pos as int),
            decreases tokens@.len() - pos,
        {
            match &tokens[pos].0 {
                Token::BareKey(_) | Token::QuotedKey(_) => {
                    let (kv, p) = self.parse_key_value(tokens, pos)?;
                    entries.push(kv);
                    pos = p;
                },
                Token::LineComment(_) | Token::BlockComment(_) => {
                    let (comment, p) = Self::parse_comment(tokens, pos)?;
                    let content = comment.content.clone();
                    entries.push(KeyValue {
                        key: Key::BareKey(to_owned_string("_comment")),
                        value: Value::Scalar(ScalarValue::String(content)),
                        metadata: None,
                        comment: Some(comment),
                        span: Span::unknown(),
                    });
                    pos = p;
                },
                Token::Newline => {
                    pos = pos + 1;
                },
                _ => {
                    break;
                },
            }
        }
        let end = tokens[pos - 1].1;
        Ok((ArrayTable { key, entries, span: start.merge(&end) }, pos))
    }

    /// `@include "path" [merge[=]strategy]`
    fn parse_include(tokens: &Vec<(Token, Span)>, pos: usize) -> (r: Result<(IncludeDirective, usize), ParseError>)
        requires
            tokens_ok(tokens@),
            pos < tokens@.len(),
        ensures
            r matches Ok((inc, p)) ==> pos < p <= tokens@.len()
                && pos + 1 < tokens@.len()
                && (tokens@[pos + 1].0 matches Token::StringLiteral(s) && s@ == inc.path@),
            pos + 1 < tokens@.len() && !(tokens@[pos + 1].0 is StringLiteral) ==> r is Err,
            r is Ok <==> include_ok(tokens@, pos as int),
            r matches Ok((_, p)) ==> p == include_end(tokens@, pos as int),
            r matches Ok((inc, _)) ==> inc.merge_strategy == include_strategy(tokens@, pos as int),
    {
        let start = tokens[pos].1;
        let pos = pos + 1;
        if pos >= tokens.len() {
            return Err(ParseError::new("expected file path", start));
        }
        let path = match &tokens[pos].0 {
            Token::StringLiteral(s) => s.clone(),
            _ => {
                return Err(ParseError::new("expected string path after @include", tokens[pos].1));
            },
        };
        let mut pos = pos + 1;
        let mut merge_strategy = MergeStrategy::Override;
        if pos < tokens.len() && matches!(tokens[pos].0, Token::Merge) {
            pos = pos + 1;
            if pos < tokens.len() && matches!(tokens[pos].0, Token::Assign) {
                pos = pos + 1;
            }
            if pos < tokens.len() {
                merge_strategy = match &tokens[pos].0 {
                    Token::BareKey(s) => {
                        if Self::is_key_named(s, "override") {
                            MergeStrategy::Override
                        } else if Self::is_key_named(s, "append") {
                            MergeStrategy::Append
                        } else if Self::is_key_named(s, "merge") {
                            MergeStrategy::Merge
                        } else if Self::is_key_named(s, "deep_merge") {
                            MergeStrategy::DeepMerge
                        } else {
                            let mut message = String::new();
                            message.push_str("unknown merge strategy: ");
                            message.push_str(s.as_str());
                            return Err(ParseError { message, span: tokens[pos].1 });
                        }
                    },
                    _ => {
                        return Err(ParseError::new("expected merge strategy", tokens[pos].1));
                    },
                };
                pos = pos + 1;
            }
        }
        let end = tokens[pos - 1].1;
        Ok((IncludeDirective { path, merge_strategy, span: start.merge(&end) }, pos))
    }

    /// `#@ item, item, ...` up to a line comment or the end of the line.
    fn parse_metadata(tokens: &Vec<(Token, Span)>, at: usize) -> (r: Result<(MetadataList, usize), ParseError>)
        requires
            tokens_ok(tokens@),
            at < tokens@.len(),
        ensures
            r matches Ok((_, p)) ==> at < p <= tokens@.len() && p == metadata_end(tokens@, at + 1),
            r is Ok <==> metadata_ok(tokens@, at + 1),
    {
        let start = tokens[at].1;
        let mut pos = at + 1;
        let ghost pos1 = pos;
        assert(pos1 == at + 1);
        let mut items: Vec<MetadataItem> = Vec::new();
        while pos < tokens.len()
            invariant
                tokens_ok(tokens@),
                at + 1 <= pos <= tokens@.len(),
                metadata_ok(tokens@, at + 1) == metadata_ok(tokens@, pos as int),
                metadata_end(tokens@, at + 1) == metadata_end(tokens@, pos as int),
            ensures
                at + 1 <= pos <= tokens@.len(),
                metadata_ok(tokens@, at + 1) == metadata_ok(tokens@, pos as int),
                metadata_end(tokens@, at + 1) == metadata_end(tokens@, pos as int),
                pos >= tokens@.len() || tokens@[pos as int].0 is LineComment || tokens@[pos as int].0 is Newline,
            decreases tokens@.len() - pos,
        {
            if matches!(tokens[pos].0, Token::LineComment(_) | Token::Newline) {
                break;
            }
            if matches!(tokens[pos].0, Token::Comma) {
                pos = pos + 1;
                continue;
            }
            let (item, p) = Self::parse_metadata_item(tokens, pos)?;
            items.push(item);
            pos = p;
        }
        let end = if pos > 0 { tokens[pos - 1].1 } else { start };
        Ok((MetadataList { items, span: start.merge(&end) }, pos))
    }

    /// `key`, `key=value` or `key(...)`.
    fn parse_metadata_item(tokens: &Vec<(Token, Span)>, pos: usize) -> (r: Result<(MetadataItem, usize), ParseError>)
        requires
            tokens_ok(tokens@),
            pos < tokens@.len(),
        ensures
            r matches Ok((_, p)) ==> pos < p <= tokens@.len() && p == item_end(tokens@, pos as int),
            !(tokens@[pos as int].0 is BareKey) ==> r is Err,
            r is Ok <==> item_ok(tokens@, pos as int),
    {
        let key = match &tokens[pos].0 {
            Token::BareKey(key) => key.clone(),
            other => {
                let mut message = String::new();
                message.push_str("expected metadata key, found ");
                other.describe_into(&mut message);
                return Err(ParseError { message, span: tokens[pos].1 });
            },
        };
        let pos = pos + 1;
        if pos < tokens.len() && matches!(tokens[pos].0, Token::LParen) {
            return Self::parse_function_metadata(&key, tokens, pos);
        }
        if pos < tokens.len() && matches!(tokens[pos].0, Token::Assign) {
            let pos = pos + 1;
            if pos >= tokens.len() {
                return Err(ParseError::new("expected value after '='", Span::unknown()));
            }
            let value = match &tokens[pos].0 {
                Token::StringLiteral(s) => MetadataValue::String(s.clone()),
                Token::NumberLiteral(n) => MetadataValue::Number(Self::decimal_or_zero(n)),
                _ => {
                    return Err(ParseError::new("expected string or number in metadata", tokens[pos].1));
                },
            };
            Ok((Self::create_standard_metadata(&key, Some(value)), pos + 1))
        } else {
            Ok((Self::create_standard_metadata(&key, None), pos))
        }
    }

    /// A number literal that must read as a float.
    fn range_bound(tokens: &Vec<(Token, Span)>, pos: usize, invalid: &str) -> (r: Result<String, ParseError>)
        requires
            pos < tokens@.len(),
        ensures
            r matches Ok(t) ==> tokens@[pos as int].0 matches Token::NumberLiteral(n) && n@ == t@ && float_text(n@),
            r is Ok <==> bound_at(tokens@, pos as int),
    {
        match &tokens[pos].0 {
            Token::NumberLiteral(n) => {
                let c = chars_of(n.as_str());
                if is_float_text(&c) {
                    Ok(n.clone())
                } else {
                    Err(ParseError::new(invalid, tokens[pos].1))
                }
            },
            _ => Err(ParseError::new("expected number in range", tokens[pos].1)),
        }
    }

    /// `range(min..max)`; `range` is the only function-style metadata.
    fn parse_function_metadata(key: &String, tokens: &Vec<(Token, Span)>, pos: usize) -> (r: Result<(MetadataItem, usize), ParseError>)
        requires
            tokens_ok(tokens@),
            pos < tokens@.len(),
            !(tokens@[pos as int].0 is Eof),
        ensures
            r matches Ok((item, p)) ==> pos < p <= tokens@.len() && item is Standard && range_max_at(tokens@, pos as int)
                == Some(p - 2),
            r is Ok <==> range_call_ok(key@, tokens@, pos as int),
    {
        let pos = pos + 1;
        if !Self::is_key_named(key, "range") {
            let mut message = String::new();
            message.push_str("unknown function metadata: ");
            message.push_str(key.as_str());
            return Err(ParseError { message, span: Span::unknown() });
        }
        let min = Self::range_bound(tokens, pos, "invalid range min value")?;
        let pos = pos + 1;
        if !matches!(tokens[pos].0, Token::RangeOp | Token::Dot) {
            return Err(ParseError::new("expected '..' in range", tokens[pos].1));
        }
        let was_dot = matches!(tokens[pos].0, Token::Dot);
        let mut pos = pos + 1;
        if was_dot {
            if !matches!(tokens[pos].0, Token::Dot) {
                return Err(ParseError::new("expected '..' in range", tokens[pos].1));
            }
            pos = pos + 1;
        }
        let max = Self::range_bound(tokens, pos, "invalid range max value")?;
        let pos = pos + 1;
        if !matches!(tokens[pos].0, Token::RParen) {
            return Err(ParseError::new("expected ')' to close function call", tokens[pos].1));
        }
        Ok((MetadataItem::Standard(StandardMetadata::Range { min, max }), pos + 1))
    }

    fn text_of(value: &Option<MetadataValue>) -> (r: Option<String>)
        ensures
            match value {
                Some(MetadataValue::String(s)) => r matches Some(t) && t@ == s@,
                _ => r is None,
            },
    {
        match value {
            Some(MetadataValue::String(s)) => Some(s.clone()),
            _ => None,
        }
    }

    fn text_or_empty(value: &Option<MetadataValue>) -> (r: String)
        ensures
            r@ == match value {
                Some(MetadataValue::String(s)) => s@,
                _ => Seq::<char>::empty(),
            },
    {
        match value {
            Some(MetadataValue::String(s)) => s.clone(),
            _ => String::new(),
        }
    }

    /// The item for `key` and its optional value.
    pub fn create_standard_metadata(key: &String, value: Option<MetadataValue>) -> (item: MetadataItem)
        ensures
            metadata_item_spec(key@, value, item),
    {
        if Self::is_key_named(key, "sensitive") {
            MetadataItem::Standard(StandardMetadata::Sensitive)
        } else if Self::is_key_named(key, "required") {
            MetadataItem::Standard(StandardMetadata::Required)
        } else if Self::is_key_named(key, "deprecated") {
            MetadataItem::Standard(StandardMetadata::Deprecated { message: Self::text_of(&value) })
        } else if Self::is_key_named(key, "description") {
            MetadataItem::Standard(StandardMetadata::Description { text: Self::text_or_empty(&value) })
        } else if Self::is_key_named(key, "example") {
            MetadataItem::Standard(StandardMetadata::Example { value: Self::text_or_empty(&value) })
        } else if Self::is_key_named(key, "type_hint") {
            MetadataItem::Standard(StandardMetadata::TypeHint { hint: Self::text_or_empty(&value) })
        } else if Self::is_key_named(key, "item_type") {
            MetadataItem::Standard(StandardMetadata::ItemType { item_type: Self::text_or_empty(&value) })
        } else {
            MetadataItem::Custom { key: key.clone(), value }
        }
    }

    /// A line or block comment token.
    fn parse_comment(tokens: &Vec<(Token, Span)>, pos: usize) -> (r: Result<(Comment, usize), ParseError>)
        requires
            pos <= tokens@.len(),
        ensures
            pos < tokens@.len() ==> match tokens@[pos as int].0 {
                Token::LineComment(c) => r matches Ok((x, p)) && x.content@ == c@ && !x.is_block && x.span == tokens@[pos as int].1 && p == pos + 1,
                Token::BlockComment(c) => r matches Ok((x, p)) && x.content@ == c@ && x.is_block && x.span == tokens@[pos as int].1 && p == pos + 1,
                _ => r is Err,
            },
            pos >= tokens@.len() ==> r is Err,
    {
        if pos >= tokens.len() {
            return Err(ParseError::new("expected comment", Span::unknown()));
        }
        let span = tokens[pos].1;
        match &tokens[pos].0 {
            Token::LineComment(c) => Ok((Comment { content: c.clone(), is_block: false, span }, pos + 1)),
            Token::BlockComment(c) => Ok((Comment { content: c.clone(), is_block: true, span }, pos + 1)),
            other => {
                let mut message = String::new();
                message.push_str("expected comment, found ");
                other.describe_into(&mut message);
                Err(ParseError { message, span })
            },
        }
    }
}

} // verus!
