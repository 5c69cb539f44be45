//! Comparing two documents key by key.
//!
//! Both trees are flattened into `(dotted key, rendered value)` pairs; a key
//! written twice keeps its last value. Every key of either document gets
//! exactly one entry: added, removed, modified or unchanged.

use vstd::prelude::*;
use crate::ast::{
    key_text, unit_symbol, ArrayValue, Ast, Expression, InlineTable, KeyValue, NumberValue, ScalarValue,
    TableBlock, TableEntry, TimeUnit, Value,
};
use crate::engine::diff::{DiffEntry, DiffResult, DiffType};
use crate::error::VerseconfError;
use crate::parser::join_path;
use crate::pairs::{find_last, has_key, last_value, lemma_last_value_some, pairs_view};
use crate::text::{decimal_digits, int_text, push_decimal, push_i64, str_eq};
use crate::ast::unit_seconds;
use crate::builder::{duration_parts, lemma_duration_suffix_names_unit};
use crate::numeric::{all_digits, digits_value, lemma_decimal_digits_value, lemma_int_text_injective};

verus! {

broadcast use vstd::string::group_string_axioms;

/// Compares documents.
pub struct AstDiffer;

/// A duration in seconds, in the largest whole unit: `2d`, `3h`, `5m`, `7s`.
pub open spec fn duration_text(secs: u64) -> Seq<char> {
    if secs > 0 && secs % 86400 == 0 {
        decimal_digits((secs / 86400) as nat) + "d"@
    } else if secs > 0 && secs % 3600 == 0 {
        decimal_digits((secs / 3600) as nat) + "h"@
    } else if secs > 0 && secs % 60 == 0 {
        decimal_digits((secs / 60) as nat) + "m"@
    } else {
        decimal_digits(secs as nat) + "s"@
    }
}

/// A number as written back: integers in decimal, decimals as their text.
pub open spec fn number_text(n: NumberValue) -> Seq<char> {
    match n {
        NumberValue::Integer(i) => int_text(i as int),
        NumberValue::Float(t) => t@,
    }
}

/// A scalar in diff output: strings quoted, the rest as written.
pub open spec fn scalar_text(s: ScalarValue) -> Seq<char> {
    match s {
        ScalarValue::String(t) => seq!['"'] + t@ + seq!['"'],
        ScalarValue::Number(n) => number_text(n),
        ScalarValue::Boolean(b) => if b { "true"@ } else { "false"@ },
        ScalarValue::DateTime(t) => t@,
        ScalarValue::Duration(secs) => duration_text(secs),
    }
}

/// Written back, a duration reads as a run of digits and a unit that
/// together make the same number of seconds.
pub proof fn lemma_duration_text_reads_back(secs: u64)
    ensures
        duration_parts(duration_text(secs)) matches Some((num, u)) && all_digits(num) && digits_value(num)
            * unit_seconds(u) == secs,
{
    if secs > 0 && secs % 86400 == 0 {
        let q = (secs / 86400) as nat;
        lemma_duration_suffix_names_unit(decimal_digits(q), ' ');
        lemma_decimal_digits_value(q);
        assert(q * 86400 == secs);
        assert(duration_text(secs) == decimal_digits(q) + "d"@);
        assert(duration_parts(duration_text(secs)) == Some((decimal_digits(q), TimeUnit::Days)));
        assert(digits_value(decimal_digits(q)) * unit_seconds(TimeUnit::Days) == secs) by {
            assert(digits_value(decimal_digits(q)) == q);
            assert(unit_seconds(TimeUnit::Days) == 86400);
        }
    } else if secs > 0 && secs % 3600 == 0 {
        let q = (secs / 3600) as nat;
        lemma_duration_suffix_names_unit(decimal_digits(q), ' ');
        lemma_decimal_digits_value(q);
        assert(q * 3600 == secs);
        assert(duration_text(secs) == decimal_digits(q) + "h"@);
        assert(duration_parts(duration_text(secs)) == Some((decimal_digits(q), TimeUnit::Hours)));
        assert(digits_value(decimal_digits(q)) * unit_seconds(TimeUnit::Hours) == secs) by {
            assert(digits_value(decimal_digits(q)) == q);
            assert(unit_seconds(TimeUnit::Hours) == 3600);
        }
    } else if secs > 0 && secs % 60 == 0 {
        let q = (secs / 60) as nat;
        lemma_duration_suffix_names_unit(decimal_digits(q), ' ');
        lemma_decimal_digits_value(q);
        assert(q * 60 == secs);
        assert(duration_text(secs) == decimal_digits(q) + "m"@);
        assert(duration_parts(duration_text(secs)) == Some((decimal_digits(q), TimeUnit::Minutes)));
        assert(digits_value(decimal_digits(q)) * unit_seconds(TimeUnit::Minutes) == secs) by {
            assert(digits_value(decimal_digits(q)) == q);
            assert(unit_seconds(TimeUnit::Minutes) == 60);
        }
    } else {
        lemma_duration_suffix_names_unit(decimal_digits(secs as nat), ' ');
        lemma_decimal_digits_value(secs as nat);
        assert(duration_text(secs) == decimal_digits(secs as nat) + "s"@);
        assert(duration_parts(duration_text(secs)) == Some((decimal_digits(secs as nat), TimeUnit::Seconds)));
        assert(digits_value(decimal_digits(secs as nat)) * unit_seconds(TimeUnit::Seconds) == secs) by {
            assert(digits_value(decimal_digits(secs as nat)) == secs);
            assert(unit_seconds(TimeUnit::Seconds) == 1);
        }
    }
}

/// Different values of one kind are written differently: two booleans,
/// strings, date-times, integers, decimals or durations with the same text
/// are the same value.
pub proof fn lemma_scalar_text_distinguishes(a: ScalarValue, b: ScalarValue)
    ensures
        scalar_text(a) == scalar_text(b) ==> (match (a, b) {
            (ScalarValue::Boolean(x), ScalarValue::Boolean(y)) => x == y,
            (ScalarValue::String(x), ScalarValue::String(y)) => x@ == y@,
            (ScalarValue::DateTime(x), ScalarValue::DateTime(y)) => x@ == y@,
            (ScalarValue::Number(NumberValue::Integer(x)), ScalarValue::Number(NumberValue::Integer(y))) => x == y,
            (ScalarValue::Number(NumberValue::Float(x)), ScalarValue::Number(NumberValue::Float(y))) => x@ == y@,
            (ScalarValue::Duration(x), ScalarValue::Duration(y)) => x == y,
            _ => true,
        }),
{
    reveal_strlit("true");
    reveal_strlit("false");
    if scalar_text(a) == scalar_text(b) {
        match (a, b) {
            (ScalarValue::String(x), ScalarValue::String(y)) => {
                let tx = scalar_text(a);
                assert(tx.subrange(1, tx.len() - 1) =~= x@);
                assert(scalar_text(b).subrange(1, scalar_text(b).len() - 1) =~= y@);
            },
            (ScalarValue::Number(NumberValue::Integer(x)), ScalarValue::Number(NumberValue::Integer(y))) => {
                lemma_int_text_injective(x as int, y as int);
            },
            (ScalarValue::Duration(x), ScalarValue::Duration(y)) => {
                lemma_duration_text_reads_back(x);
                lemma_duration_text_reads_back(y);
            },
            (ScalarValue::Boolean(x), ScalarValue::Boolean(y)) => {
                assert("true"@[0] != "false"@[0]);
            },
            _ => {},
        }
    }
}

/// The operator symbols.
pub open spec fn operator_text(op: crate::ast::BinaryOperator) -> Seq<char> {
    match op {
        crate::ast::BinaryOperator::Add => "+"@,
        crate::ast::BinaryOperator::Subtract => "-"@,
        crate::ast::BinaryOperator::Multiply => "*"@,
        crate::ast::BinaryOperator::Divide => "/"@,
    }
}

/// An expression as written: `left op right`, or a number with its unit.
pub open spec fn expression_text(e: Expression) -> Seq<char>
    decreases e,
{
    match e {
        Expression::Literal(s) => scalar_text(s),
        Expression::BinaryOp { left, operator, right } => expression_text(*left) + seq![' '] + operator_text(
            operator,
        ) + seq![' '] + expression_text(*right),
        Expression::UnitValue { value, unit } => value@ + unit_symbol(unit),
    }
}

/// A value in diff output.
pub open spec fn value_text(v: Value) -> Seq<char>
    decreases v, 1nat,
{
    match v {
        Value::Scalar(s) => scalar_text(s),
        Value::InlineTable(t) => "{ "@ + key_values_text(t.entries@) + " }"@,
        Value::Array(a) => seq!['['] + values_text(a.elements@) + seq![']'],
        Value::TableBlock(_) => "[table]"@,
        Value::Expression(e) => expression_text(e),
    }
}

/// `key = value` items separated by `, `.
pub open spec fn key_values_text(es: Seq<KeyValue>) -> Seq<char>
    decreases es, 0nat,
{
    if es.len() == 0 {
        Seq::empty()
    } else {
        let item = key_text(es.last().key) + " = "@ + value_text(es.last().value);
        if es.len() == 1 {
            item
        } else {
            key_values_text(es.drop_last()) + ", "@ + item
        }
    }
}

/// Values separated by `, `.
pub open spec fn values_text(vs: Seq<Value>) -> Seq<char>
    decreases vs, 0nat,
{
    if vs.len() == 0 {
        Seq::empty()
    } else if vs.len() == 1 {
        value_text(vs[0])
    } else {
        values_text(vs.drop_last()) + ", "@ + value_text(vs.last())
    }
}

/// The key under which an array table is listed.
pub open spec fn array_table_key(prefix: Seq<char>, key: Seq<char>) -> Seq<char> {
    if prefix.len() == 0 {
        "[["@ + key + "]]"@
    } else {
        prefix + ".[["@ + key + "]]"@
    }
}

/// The `(key, value)` pairs of a table in source order; nested named
/// blocks contribute their pairs under their dotted name.
pub open spec fn flat_pairs(t: TableBlock, prefix: Seq<char>) -> Seq<(Seq<char>, Seq<char>)>
    decreases t, 2nat,
{
    flat_entries(t.entries@, prefix)
}

/// [`flat_pairs`] of a list of entries.
pub open spec fn flat_entries(es: Seq<TableEntry>, prefix: Seq<char>) -> Seq<(Seq<char>, Seq<char>)>
    decreases es, 1nat,
{
    if es.len() == 0 {
        Seq::empty()
    } else {
        flat_entries(es.drop_last(), prefix) + flat_entry(es.last(), prefix)
    }
}

/// [`flat_pairs`] of one entry.
pub open spec fn flat_entry(e: TableEntry, prefix: Seq<char>) -> Seq<(Seq<char>, Seq<char>)>
    decreases e, 0nat,
{
    match e {
        TableEntry::KeyValue(kv) => seq![(join_path(prefix, key_text(kv.key)), value_text(kv.value))],
        TableEntry::TableBlock(tb) => match tb.name {
            Some(n) => flat_pairs(tb, join_path(prefix, n@)),
            None => Seq::empty(),
        },
        TableEntry::ArrayTable(at) => seq![
            (
                array_table_key(prefix, key_text(at.key)),
                "[array table with "@ + decimal_digits(at.entries@.len()) + " entries]"@,
            ),
        ],
        _ => Seq::empty(),
    }
}

/// The entry for a key whose old and new values are `old` and `new`.
pub open spec fn entry_for(e: DiffEntry, old: Option<Seq<char>>, new: Option<Seq<char>>) -> bool {
    &&& e.line is None
    &&& match (old, new) {
        (Some(o), Some(n)) => {
            &&& e.diff_type == if o != n { DiffType::Modified } else { DiffType::Unchanged }
            &&& e.old_value matches Some(x) && x@ == o
            &&& e.new_value matches Some(y) && y@ == n
        },
        (Some(o), None) => e.diff_type == DiffType::Removed && (e.old_value matches Some(x) && x@ == o)
            && e.new_value is None,
        (None, Some(n)) => e.diff_type == DiffType::Added && e.old_value is None && (e.new_value matches Some(
            y,
        ) && y@ == n),
        (None, None) => false,
    }
}

/// The diff of two flattened documents: one entry per key of either, each
/// describing how that key's value changed.
pub open spec fn is_diff_of(
    es: Seq<DiffEntry>,
    old: Seq<(Seq<char>, Seq<char>)>,
    new: Seq<(Seq<char>, Seq<char>)>,
) -> bool {
    &&& forall|a: int| 0 <= a < es.len() ==> entry_for(#[trigger] es[a], last_value(old, es[a].path@), last_value(new, es[a].path@))
    &&& forall|a: int, b: int| 0 <= a < b < es.len() ==> (#[trigger] es[a]).path@ != (#[trigger] es[b]).path@
    &&& forall|k: Seq<char>| #![trigger has_key(old, k)] #![trigger has_key(new, k)] has_key(old, k) || has_key(new, k) ==> exists|a: int|
        0 <= a < es.len() && (#[trigger] es[a]).path@ == k
}

/// A boolean is shown as the word the lexer reads as that boolean, and an
/// integer as text that reads back as that integer.
pub proof fn lemma_scalar_text_reads_back(b: bool, n: i64)
    ensures
        crate::lexer::token_spec(
            scalar_text(ScalarValue::Boolean(b)),
            0,
            false,
            Ok(crate::token::Token::BooleanLiteral(b)),
            scalar_text(ScalarValue::Boolean(b)).len() as int,
        ),
        crate::numeric::i64_of(scalar_text(ScalarValue::Number(NumberValue::Integer(n)))) == Some(n),
{
    reveal_strlit("true");
    reveal_strlit("false");
    let f = scalar_text(ScalarValue::Boolean(b));
    let k = f.len() as int;
    assert(crate::lexer::word_end(f, k) == k);
    assert(crate::lexer::word_end(f, k - 1) == k);
    assert(crate::lexer::word_end(f, k - 2) == k);
    assert(crate::lexer::word_end(f, k - 3) == k);
    assert(crate::lexer::word_end(f, k - 4) == k);
    if !b {
        assert(crate::lexer::word_end(f, 0) == k);
    }
    assert(f.subrange(0, k) =~= f);
    crate::numeric::lemma_int_text_reads_back(n);
}

/// Two scalars of one kind that are different values.
pub open spec fn different_scalars(a: ScalarValue, b: ScalarValue) -> bool {
    match (a, b) {
        (ScalarValue::Boolean(x), ScalarValue::Boolean(y)) => x != y,
        (ScalarValue::String(x), ScalarValue::String(y)) => x@ != y@,
        (ScalarValue::DateTime(x), ScalarValue::DateTime(y)) => x@ != y@,
        (ScalarValue::Number(NumberValue::Integer(x)), ScalarValue::Number(NumberValue::Integer(y))) => x != y,
        (ScalarValue::Number(NumberValue::Float(x)), ScalarValue::Number(NumberValue::Float(y))) => x@ != y@,
        (ScalarValue::Duration(x), ScalarValue::Duration(y)) => x != y,
        _ => false,
    }
}

/// A key whose value changed from one scalar to a different one of the
/// same kind is reported as modified, with both values.
pub proof fn lemma_changed_scalar_is_modified(e: DiffEntry, a: ScalarValue, b: ScalarValue)
    requires
        entry_for(e, Some(value_text(Value::Scalar(a))), Some(value_text(Value::Scalar(b)))),
        different_scalars(a, b),
    ensures
        e.diff_type == DiffType::Modified,
        e.old_value matches Some(x) && x@ == scalar_text(a),
        e.new_value matches Some(y) && y@ == scalar_text(b),
{
    lemma_scalar_text_distinguishes(a, b);
}

fn push_duration(out: &mut String, secs: u64)
    ensures
        final(out)@ == old(out)@ + duration_text(secs),
{
    if secs > 0 && secs % 86400 == 0 {
        push_decimal(out, secs / 86400);
        out.push_str("d");
    } else if secs > 0 && secs % 3600 == 0 {
        push_decimal(out, secs / 3600);
        out.push_str("h");
    } else if secs > 0 && secs % 60 == 0 {
        push_decimal(out, secs / 60);
        out.push_str("m");
    } else {
        push_decimal(out, secs);
        out.push_str("s");
    }
}

fn push_scalar(out: &mut String, s: &ScalarValue)
    ensures
        final(out)@ == old(out)@ + scalar_text(*s),
{
    match s {
        ScalarValue::String(t) => {
            out.push('"');
            out.push_str(t.as_str());
            out.push('"');
        },
        ScalarValue::Number(NumberValue::Integer(i)) => push_i64(out, *i),
        ScalarValue::Number(NumberValue::Float(t)) => out.push_str(t.as_str()),
        ScalarValue::Boolean(b) => {
            if *b {
                out.push_str("true");
            } else {
                out.push_str("false");
            }
        },
        ScalarValue::DateTime(t) => out.push_str(t.as_str()),
        ScalarValue::Duration(secs) => push_duration(out, *secs),
    }
}

fn push_expression(out: &mut String, e: &Expression)
    ensures
        final(out)@ == old(out)@ + expression_text(*e),
    decreases e,
{
    match e {
        Expression::Literal(s) => push_scalar(out, s),
        Expression::BinaryOp { left, operator, right } => {
            push_expression(out, left);
            out.push(' ');
            out.push_str(operator_symbol_str(*operator));
            out.push(' ');
            push_expression(out, right);
        },
        Expression::UnitValue { value, unit } => {
            out.push_str(value.as_str());
            out.push_str(unit.symbol());
        },
    }
}

fn operator_symbol_str(op: crate::ast::BinaryOperator) -> (s: &'static str)
    ensures
        s@ == operator_text(op),
{
    match op {
        crate::ast::BinaryOperator::Add => "+",
        crate::ast::BinaryOperator::Subtract => "-",
        crate::ast::BinaryOperator::Multiply => "*",
        crate::ast::BinaryOperator::Divide => "/",
    }
}

fn push_value(out: &mut String, v: &Value)
    ensures
        final(out)@ == old(out)@ + value_text(*v),
    decreases v, 1nat,
{
    match v {
        Value::Scalar(s) => push_scalar(out, s),
        Value::InlineTable(t) => {
            out.push_str("{ ");
            push_key_values(out, &t.entries);
            out.push_str(" }");
        },
        Value::Array(a) => {
            out.push('[');
            push_values(out, &a.elements);
            out.push(']');
        },
        Value::TableBlock(_) => out.push_str("[table]"),
        Value::Expression(e) => push_expression(out, e),
    }
}

fn push_key_values(out: &mut String, es: &Vec<KeyValue>)
    ensures
        final(out)@ == old(out)@ + key_values_text(es@),
    decreases es@, 0nat,
{
    let ghost start = out@;
    let mut i: usize = 0;
    while i < es.len()
        invariant
            i <= es@.len(),
            out@ == start + key_values_text(es@.take(i as int)),
        decreases es@.len() - i,
    {
        proof {
            assert(es@.take(i + 1).drop_last() == es@.take(i as int));
            assert(es@.take(i + 1).last() == es@[i as int]);
        }
        if i > 0 {
            out.push_str(", ");
        }
        out.push_str(es[i].key.as_str());
        out.push_str(" = ");
        push_value(out, &es[i].value);
        i = i + 1;
    }
    proof {
        assert(es@.take(es@.len() as int) == es@);
    }
}

fn push_values(out: &mut String, vs: &Vec<Value>)
    ensures
        final(out)@ == old(out)@ + values_text(vs@),
    decreases vs@, 0nat,
{
    let ghost start = out@;
    let mut i: usize = 0;
    while i < vs.len()
        invariant
            i <= vs@.len(),
            out@ == start + values_text(vs@.take(i as int)),
        decreases vs@.len() - i,
    {
        proof {
            assert(vs@.take(i + 1).drop_last() == vs@.take(i as int));
            assert(vs@.take(i + 1).last() == vs@[i as int]);
            assert(vs@.take(i + 1)[0] == vs@[0]);
        }
        if i > 0 {
            out.push_str(", ");
        }
        push_value(out, &vs[i]);
        i = i + 1;
    }
    proof {
        assert(vs@.take(vs@.len() as int) == vs@);
    }
}

/// The rendered value, as in diff output.
pub fn format_value(v: &Value) -> (s: String)
    ensures
        s@ == value_text(*v),
{
    let mut s = String::new();
    push_value(&mut s, v);
    s
}

fn joined(prefix: &str, has_prefix: bool, name: &str) -> (s: String)
    requires
        has_prefix == (prefix@.len() > 0),
    ensures
        s@ == join_path(prefix@, name@),
{
    let mut s = String::new();
    if has_prefix {
        s.push_str(prefix);
        s.push('.');
    }
    s.push_str(name);
    s
}

/// Flattens `table` under `prefix`, appending to `out`.
fn flatten_table(table: &TableBlock, prefix: &str, out: &mut Vec<(String, String)>)
    ensures
        pairs_view(final(out)@) == pairs_view(old(out)@) + flat_pairs(*table, prefix@),
    decreases table,
{
    let ghost start = pairs_view(out@);
    let has_prefix = crate::text::chars_of(prefix).len() > 0;
    let mut i: usize = 0;
    while i < table.entries.len()
        invariant
            i <= table.entries@.len(),
            has_prefix == (prefix@.len() > 0),
            pairs_view(out@) == start + flat_entries(table.entries@.take(i as int), prefix@),
        decreases table.entries@.len() - i,
    {
        let ghost before = pairs_view(out@);
        proof {
            assert(table.entries@.take(i + 1).drop_last() == table.entries@.take(i as int));
            assert(table.entries@.take(i + 1).last() == table.entries@[i as int]);
        }
        match &table.entries[i] {
            TableEntry::KeyValue(kv) => {
                let key = joined(prefix, has_prefix, kv.key.as_str());
                let value = format_value(&kv.value);
                let ghost pair = (key@, value@);
                out.push((key, value));
                proof {
                    assert(pairs_view(out@) == before.push(pair));
                    assert(before.push(pair) == before + seq![pair]);
                }
            },
            TableEntry::TableBlock(tb) => {
                match &tb.name {
                    Some(name) => {
                        let child_prefix = joined(prefix, has_prefix, name.as_str());
                        flatten_table(tb, child_prefix.as_str(), out);
                    },
                    None => {
                        proof {
                            assert(before + Seq::<(Seq<char>, Seq<char>)>::empty() == before);
                        }
                    },
                }
            },
            TableEntry::ArrayTable(at) => {
                let mut key = String::new();
                if has_prefix {
                    key.push_str(prefix);
                    key.push_str(".[[");
                } else {
                    key.push_str("[[");
                }
                key.push_str(at.key.as_str());
                key.push_str("]]");
                let mut value = String::new();
                value.push_str("[array table with ");
                push_decimal(&mut value, at.entries.len() as u64);
                value.push_str(" entries]");
                let ghost pair = (key@, value@);
                proof {
                    reveal_strlit("[[");
                    reveal_strlit(".[[");
                    assert(pair.0 == array_table_key(prefix@, key_text(at.key)));
                }
                out.push((key, value));
                proof {
                    assert(pairs_view(out@) == before.push(pair));
                    assert(before.push(pair) == before + seq![pair]);
                }
            },
            _ => {
                proof {
                    assert(before + Seq::<(Seq<char>, Seq<char>)>::empty() == before);
                }
            },
        }
        proof {
            assert(start + flat_entries(table.entries@.take(i + 1), prefix@) == start + flat_entries(
                table.entries@.take(i as int),
                prefix@,
            ) + flat_entry(table.entries@[i as int], prefix@));
        }
        i = i + 1;
    }
    proof {
        assert(table.entries@.take(table.entries@.len() as int) == table.entries@);
    }
}

/// Whether some pair among the first `n` has key `k`.
fn occurs_before(ps: &Vec<(String, String)>, n: usize, k: &String) -> (b: bool)
    requires
        n <= ps@.len(),
    ensures
        b == has_key(pairs_view(ps@.take(n as int)), k@),
{
    let mut j: usize = 0;
    while j < n
        invariant
            j <= n <= ps@.len(),
            forall|m: int| 0 <= m < j ==> ps@[m].0@ != k@,
        decreases n - j,
    {
        if str_eq(ps[j].0.as_str(), k.as_str()) {
            proof {
                assert(pairs_view(ps@.take(n as int))[j as int].0 == k@);
            }
            return true;
        }
        j = j + 1;
    }
    proof {
        if has_key(pairs_view(ps@.take(n as int)), k@) {
            let m = choose|m: int| 0 <= m < n && (#[trigger] pairs_view(ps@.take(n as int))[m]).0 == k@;
            assert(ps@[m].0@ == k@);
        }
    }
    false
}

fn entry_of(path: &String, old: Option<String>, new: Option<String>) -> (e: DiffEntry)
    requires
        old is Some || new is Some,
    ensures
        e.path@ == path@,
        entry_for(
            e,
            match old { Some(o) => Some(o@), None => None },
            match new { Some(n) => Some(n@), None => None },
        ),
{
    match (old, new) {
        (Some(o), Some(n)) => {
            let same = str_eq(o.as_str(), n.as_str());
            DiffEntry {
                diff_type: if same { DiffType::Unchanged } else { DiffType::Modified },
                path: path.clone(),
                old_value: Some(o),
                new_value: Some(n),
                line: None,
            }
        },
        (Some(o), None) => DiffEntry::removed(path.as_str(), o.as_str()),
        (None, Some(n)) => DiffEntry::added(path.as_str(), n.as_str()),
        (None, None) => DiffEntry::added(path.as_str(), ""),
    }
}

impl AstDiffer {
    /// One entry for every key of either document, saying how it changed.
    pub fn diff(old_ast: &Ast, new_ast: &Ast) -> (r: DiffResult)
        ensures
            is_diff_of(
                r.entries@,
                flat_pairs(old_ast.root, Seq::empty()),
                flat_pairs(new_ast.root, Seq::empty()),
            ),
            r.old_source is None,
            r.new_source is None,
    {
        let mut old_pairs: Vec<(String, String)> = Vec::new();
        let mut new_pairs: Vec<(String, String)> = Vec::new();
        proof {
            reveal_strlit("");
            assert(pairs_view(old_pairs@) == Seq::<(Seq<char>, Seq<char>)>::empty());
        }
        flatten_table(&old_ast.root, "", &mut old_pairs);
        flatten_table(&new_ast.root, "", &mut new_pairs);
        let ghost op = flat_pairs(old_ast.root, Seq::empty());
        let ghost np = flat_pairs(new_ast.root, Seq::empty());
        proof {
            assert(""@ == Seq::<char>::empty());
            assert(pairs_view(old_pairs@) == op);
            assert(pairs_view(new_pairs@) == np);
        }
        let mut result = DiffResult::new();
        let mut i: usize = 0;
        while i < old_pairs.len()
            invariant
                i <= old_pairs@.len(),
                pairs_view(old_pairs@) == op,
                pairs_view(new_pairs@) == np,
                result.old_source is None,
                result.new_source is None,
                forall|a: int| 0 <= a < result.entries@.len() ==> entry_for(
                    #[trigger] result.entries@[a],
                    last_value(op, result.entries@[a].path@),
                    last_value(np, result.entries@[a].path@),
                ),
                forall|a: int, b: int| 0 <= a < b < result.entries@.len() ==> (#[trigger] result.entries@[a]).path@
                    != (#[trigger] result.entries@[b]).path@,
                forall|a: int| 0 <= a < result.entries@.len() ==> has_key(pairs_view(old_pairs@.take(i as int)), (#[trigger] result.entries@[a]).path@),
                forall|k: Seq<char>| #[trigger] has_key(pairs_view(old_pairs@.take(i as int)), k) ==> exists|a: int|
                    0 <= a < result.entries@.len() && (#[trigger] result.entries@[a]).path@ == k,
            decreases old_pairs@.len() - i,
        {
            let key = &old_pairs[i].0;
            let seen = occurs_before(&old_pairs, i, key);
            proof {
                assert(pairs_view(old_pairs@.take(i + 1)) == pairs_view(old_pairs@.take(i as int)).push((key@, old_pairs@[i as int].1@)));
                assert forall|k: Seq<char>| has_key(pairs_view(old_pairs@.take(i + 1)), k) implies
                    has_key(pairs_view(old_pairs@.take(i as int)), k) || k == key@ by {
                    let m = choose|m: int| 0 <= m < i + 1 && (#[trigger] pairs_view(old_pairs@.take(i + 1))[m]).0 == k;
                    if m < i {
                        assert(pairs_view(old_pairs@.take(i as int))[m].0 == k);
                    }
                }
                assert forall|k: Seq<char>| has_key(pairs_view(old_pairs@.take(i as int)), k) implies
                    has_key(pairs_view(old_pairs@.take(i + 1)), k) by {
                    let m = choose|m: int| 0 <= m < i && (#[trigger] pairs_view(old_pairs@.take(i as int))[m]).0 == k;
                    assert(pairs_view(old_pairs@.take(i + 1))[m].0 == k);
                }
                assert(pairs_view(old_pairs@.take(i + 1))[i as int].0 == key@);
                assert(has_key(pairs_view(old_pairs@.take(i + 1)), key@));
                assert(has_key(op, key@)) by {
                    assert(op[i as int].0 == key@);
                }
                lemma_last_value_some(op, key@);
            }
            if !seen {
                let o = find_last(&old_pairs, key);
                let n = find_last(&new_pairs, key);
                let e = entry_of(key, o, n);
                let ghost prev = result.entries@;
                result.add_entry(e);
                proof {
                    assert(result.entries@[prev.len() as int] == e);
                    assert forall|a: int| 0 <= a < result.entries@.len() implies has_key(
                        pairs_view(old_pairs@.take(i + 1)),
                        (#[trigger] result.entries@[a]).path@,
                    ) by {
                        if a < prev.len() {
                            assert(result.entries@[a] == prev[a]);
                        }
                    }
                    assert forall|k: Seq<char>| #[trigger] has_key(pairs_view(old_pairs@.take(i + 1)), k) implies exists|a: int|
                        0 <= a < result.entries@.len() && (#[trigger] result.entries@[a]).path@ == k by {
                        if k == key@ {
                            assert(result.entries@[prev.len() as int].path@ == k);
                        } else {
                            assert(has_key(pairs_view(old_pairs@.take(i as int)), k));
                            let a = choose|a: int| 0 <= a < prev.len() && (#[trigger] prev[a]).path@ == k;
                            assert(result.entries@[a] == prev[a]);
                        }
                    }
                }
            } else {
                proof {
                    assert forall|k: Seq<char>| #[trigger] has_key(pairs_view(old_pairs@.take(i + 1)), k) implies exists|a: int|
                        0 <= a < result.entries@.len() && (#[trigger] result.entries@[a]).path@ == k by {
                        assert(has_key(pairs_view(old_pairs@.take(i as int)), k));
                    }
                }
            }
            i = i + 1;
        }
        proof {
            assert(old_pairs@.take(old_pairs@.len() as int) == old_pairs@);
        }
        let mut j: usize = 0;
        while j < new_pairs.len()
            invariant
                j <= new_pairs@.len(),
                pairs_view(old_pairs@) == op,
                pairs_view(new_pairs@) == np,
                result.old_source is None,
                result.new_source is None,
                forall|a: int| 0 <= a < result.entries@.len() ==> entry_for(
                    #[trigger] result.entries@[a],
                    last_value(op, result.entries@[a].path@),
                    last_value(np, result.entries@[a].path@),
                ),
                forall|a: int, b: int| 0 <= a < b < result.entries@.len() ==> (#[trigger] result.entries@[a]).path@
                    != (#[trigger] result.entries@[b]).path@,
                forall|a: int| 0 <= a < result.entries@.len() ==> has_key(op, (#[trigger] result.entries@[a]).path@)
                    || has_key(pairs_view(new_pairs@.take(j as int)), result.entries@[a].path@),
                forall|k: Seq<char>| #![trigger has_key(op, k)] #![trigger has_key(pairs_view(new_pairs@.take(j as int)), k)] has_key(op, k) || has_key(pairs_view(new_pairs@.take(j as int)), k) ==> exists|a: int|
                    0 <= a < result.entries@.len() && (#[trigger] result.entries@[a]).path@ == k,
            decreases new_pairs@.len() - j,
        {
            let key = &new_pairs[j].0;
            let in_old = occurs_before(&old_pairs, old_pairs.len(), key);
            let seen = occurs_before(&new_pairs, j, key);
            proof {
                assert(old_pairs@.take(old_pairs@.len() as int) == old_pairs@);
                assert(pairs_view(new_pairs@.take(j + 1)) == pairs_view(new_pairs@.take(j as int)).push((key@, new_pairs@[j as int].1@)));
                assert forall|k: Seq<char>| has_key(pairs_view(new_pairs@.take(j + 1)), k) implies
                    has_key(pairs_view(new_pairs@.take(j as int)), k) || k == key@ by {
                    let m = choose|m: int| 0 <= m < j + 1 && (#[trigger] pairs_view(new_pairs@.take(j + 1))[m]).0 == k;
                    if m < j {
                        assert(pairs_view(new_pairs@.take(j as int))[m].0 == k);
                    }
                }
                assert forall|k: Seq<char>| has_key(pairs_view(new_pairs@.take(j as int)), k) implies
                    has_key(pairs_view(new_pairs@.take(j + 1)), k) by {
                    let m = choose|m: int| 0 <= m < j && (#[trigger] pairs_view(new_pairs@.take(j as int))[m]).0 == k;
                    assert(pairs_view(new_pairs@.take(j + 1))[m].0 == k);
                }
                assert(pairs_view(new_pairs@.take(j + 1))[j as int].0 == key@);
                assert(has_key(np, key@)) by {
                    assert(np[j as int].0 == key@);
                }
                lemma_last_value_some(np, key@);
                lemma_last_value_some(op, key@);
            }
            if !in_old && !seen {
                let n = find_last(&new_pairs, key);
                let e = entry_of(key, None, n);
                let ghost prev = result.entries@;
                result.add_entry(e);
                proof {
                    assert(result.entries@[prev.len() as int] == e);
                    assert forall|a: int| 0 <= a < result.entries@.len() implies has_key(op, (#[trigger] result.entries@[a]).path@)
                        || has_key(pairs_view(new_pairs@.take(j + 1)), result.entries@[a].path@) by {
                        if a < prev.len() {
                            assert(result.entries@[a] == prev[a]);
                        }
                    }
                    assert forall|a: int, b: int| 0 <= a < b < result.entries@.len() implies (#[trigger] result.entries@[a]).path@
                        != (#[trigger] result.entries@[b]).path@ by {
                        if b == prev.len() {
                            assert(result.entries@[a] == prev[a]);
                        } else {
                            assert(result.entries@[a] == prev[a]);
                            assert(result.entries@[b] == prev[b]);
                        }
                    }
                    assert forall|k: Seq<char>| #![trigger has_key(op, k)] #![trigger has_key(pairs_view(new_pairs@.take(j + 1)), k)] has_key(op, k) || has_key(pairs_view(new_pairs@.take(j + 1)), k) implies exists|a: int|
                        0 <= a < result.entries@.len() && (#[trigger] result.entries@[a]).path@ == k by {
                        if k == key@ {
                            assert(result.entries@[prev.len() as int].path@ == k);
                        } else {
                            if !has_key(op, k) {
                                assert(has_key(pairs_view(new_pairs@.take(j as int)), k));
                            }
                            let a = choose|a: int| 0 <= a < prev.len() && (#[trigger] prev[a]).path@ == k;
                            assert(result.entries@[a] == prev[a]);
                        }
                    }
                }
            } else {
                proof {
                    assert forall|k: Seq<char>| #![trigger has_key(op, k)] #![trigger has_key(pairs_view(new_pairs@.take(j + 1)), k)] has_key(op, k) || has_key(pairs_view(new_pairs@.take(j + 1)), k) implies exists|a: int|
                        0 <= a < result.entries@.len() && (#[trigger] result.entries@[a]).path@ == k by {
                        if !has_key(op, k) {
                            if k == key@ {
                                assert(pairs_view(old_pairs@.take(old_pairs@.len() as int)) == op);
                                assert(seen);
                            }
                            assert(has_key(pairs_view(new_pairs@.take(j as int)), k));
                        }
                    }
                }
            }
            j = j + 1;
        }
        proof {
            assert(new_pairs@.take(new_pairs@.len() as int) == new_pairs@);
            assert forall|k: Seq<char>| #![trigger has_key(op, k)] #![trigger has_key(np, k)] has_key(op, k) || has_key(np, k) implies exists|a: int|
                0 <= a < result.entries@.len() && (#[trigger] result.entries@[a]).path@ == k by {
                if !has_key(op, k) {
                    assert(has_key(pairs_view(new_pairs@.take(new_pairs@.len() as int)), k));
                }
            }
        }
        result
    }
}

/// Parses both sources and compares them.
pub fn diff_sources(old_source: &str, new_source: &str) -> (r: Result<DiffResult, VerseconfError>)
    requires
        old_source@.len() < u32::MAX,
        new_source@.len() < u32::MAX,
    ensures
        r matches Ok(d) ==> crate::parser::parses(old_source@) && crate::parser::parses(new_source@) && exists|
            a: Ast,
            b: Ast,
        | {
            &&& a.source.content@ == old_source@
            &&& b.source.content@ == new_source@
            &&& is_diff_of(d.entries@, flat_pairs(a.root, Seq::empty()), flat_pairs(b.root, Seq::empty()))
        },
        r matches Err(e) ==> crate::parser::parse_failure(old_source@, e) || (crate::parser::parses(old_source@)
            && crate::parser::parse_failure(new_source@, e)),
{
    let old_ast = match crate::parse(old_source) {
        Ok(a) => a,
        Err(e) => {
            return Err(e);
        },
    };
    let new_ast = match crate::parse(new_source) {
        Ok(a) => a,
        Err(e) => {
            return Err(e);
        },
    };
    let d = AstDiffer::diff(&old_ast, &new_ast);
    assert(old_ast.source.content@ == old_source@ && new_ast.source.content@ == new_source@ && is_diff_of(
        d.entries@,
        flat_pairs(old_ast.root, Seq::empty()),
        flat_pairs(new_ast.root, Seq::empty()),
    ));
    Ok(d)
}


/// The kind of a change seen from the other side: an addition is a removal
/// and back; the other kinds stay.
pub open spec fn reversed_type(t: DiffType) -> DiffType {
    match t {
        DiffType::Added => DiffType::Removed,
        DiffType::Removed => DiffType::Added,
        other => other,
    }
}

/// A text option as plain text.
pub open spec fn opt_view(o: Option<String>) -> Option<Seq<char>> {
    match o {
        Some(s) => Some(s@),
        None => None,
    }
}

/// `r` is the entry `e` seen from the other side: same key and line, the
/// old and new values swapped, the kind reversed.
pub open spec fn reverses(r: DiffEntry, e: DiffEntry) -> bool {
    &&& r.path@ == e.path@
    &&& r.line == e.line
    &&& r.diff_type == reversed_type(e.diff_type)
    &&& opt_view(r.old_value) == opt_view(e.new_value)
    &&& opt_view(r.new_value) == opt_view(e.old_value)
}

/// Diffing is symmetric: the diff of `old` against `new`, each entry seen
/// from the other side, is the diff of `new` against `old`.
pub proof fn lemma_diff_is_symmetric(
    es: Seq<DiffEntry>,
    rs: Seq<DiffEntry>,
    old: Seq<(Seq<char>, Seq<char>)>,
    new: Seq<(Seq<char>, Seq<char>)>,
)
    requires
        is_diff_of(es, old, new),
        rs.len() == es.len(),
        forall|i: int| 0 <= i < es.len() ==> reverses(#[trigger] rs[i], es[i]),
    ensures
        is_diff_of(rs, new, old),
{
    assert forall|a: int| 0 <= a < rs.len() implies entry_for(#[trigger] rs[a], last_value(new, rs[a].path@), last_value(old, rs[a].path@)) by {
        assert(reverses(rs[a], es[a]));
        assert(entry_for(es[a], last_value(old, es[a].path@), last_value(new, es[a].path@)));
    }
    assert forall|a: int, b: int| 0 <= a < b < rs.len() implies (#[trigger] rs[a]).path@ != (#[trigger] rs[b]).path@ by {
        assert(reverses(rs[a], es[a]) && reverses(rs[b], es[b]));
        assert(es[a].path@ != es[b].path@);
    }
    assert forall|k: Seq<char>| #![trigger has_key(new, k)] #![trigger has_key(old, k)] has_key(new, k) || has_key(old, k) implies exists|a: int|
        0 <= a < rs.len() && (#[trigger] rs[a]).path@ == k by {
        let a = choose|a: int| 0 <= a < es.len() && (#[trigger] es[a]).path@ == k;
        assert(reverses(rs[a], es[a]));
    }
}

} // verus!
