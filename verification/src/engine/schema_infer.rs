//! Inferring a `#@schema { ... }` block from a document.
//!
//! Only what the current values determine is inferred: each field's type,
//! `required = true` for fields that are present, and the nesting of
//! tables. Ranges, enums, patterns and defaults are design decisions, not
//! observations, and are never produced. A field whose type cannot be
//! determined is listed as a comment instead of being given a type.

use vstd::prelude::*;
use crate::ast::{key_text, Ast, Expression, KeyValue, NumberValue, ScalarValue, TableBlock, TableEntry, Value};
use crate::engine::pretty_printer::deeper;
use crate::error::VerseconfError;
use crate::text::{chars_of, push_repeated, repeat_seq};

verus! {

broadcast use vstd::string::group_string_axioms;

/// The type name of a scalar.
pub open spec fn scalar_type_name(s: ScalarValue) -> Seq<char> {
    match s {
        ScalarValue::String(_) => "string"@,
        ScalarValue::Number(NumberValue::Integer(_)) => "integer"@,
        ScalarValue::Number(NumberValue::Float(_)) => "float"@,
        ScalarValue::Boolean(_) => "boolean"@,
        ScalarValue::DateTime(_) => "datetime"@,
        ScalarValue::Duration(_) => "duration"@,
    }
}

/// Whether decimal text denotes zero: no digit other than `0` before the exponent.
pub open spec fn zero_text(t: Seq<char>) -> bool {
    forall|i: int| 0 <= i < t.len() && (forall|j: int| 0 <= j <= i ==> t[j] != 'e' && t[j] != 'E')
        ==> #[trigger] t[i] == '0' || t[i] == '.' || t[i] == '+' || t[i] == '-'
}

/// What evaluating an expression gives, as far as its type goes: the type
/// name and whether the value is a number known to be zero; `None` when
/// evaluation fails (an operand that is not a number, or division by zero).
/// A number computed by an operation is taken as non-zero.
pub open spec fn expression_outcome(e: Expression) -> Option<(Seq<char>, bool)>
    decreases e,
{
    match e {
        Expression::Literal(s) => Some(
            (
                scalar_type_name(s),
                match s {
                    ScalarValue::Number(NumberValue::Integer(n)) => n == 0,
                    ScalarValue::Number(NumberValue::Float(t)) => zero_text(t@),
                    _ => false,
                },
            ),
        ),
        Expression::UnitValue { .. } => Some(("duration"@, false)),
        Expression::BinaryOp { left, operator, right } => match (expression_outcome(*left), expression_outcome(*right)) {
            (Some(l), Some(r)) => {
                let numeric = |t: Seq<char>| t == "integer"@ || t == "float"@;
                if numeric(l.0) && numeric(r.0) {
                    if operator == crate::ast::BinaryOperator::Divide && r.1 {
                        None
                    } else {
                        Some(("float"@, false))
                    }
                } else {
                    None
                }
            },
            _ => None,
        },
    }
}

/// The type name inferred for a value, if any.
pub open spec fn value_type(v: Value) -> Option<Seq<char>> {
    match v {
        Value::Scalar(s) => Some(scalar_type_name(s)),
        Value::Array(_) => Some("array"@),
        Value::InlineTable(_) => Some("table"@),
        Value::TableBlock(_) => Some("table"@),
        Value::Expression(e) => match expression_outcome(e) {
            Some(o) => Some(o.0),
            None => None,
        },
    }
}

/// Two spaces per level.
pub open spec fn pad(depth: usize) -> Seq<char> {
    repeat_seq("  "@, depth as nat)
}

/// The schema of a field with a value.
pub open spec fn field_schema(name: Seq<char>, v: Value, depth: usize) -> Seq<char>
    decreases v, 1nat,
{
    match v {
        Value::TableBlock(t) => table_schema(name, t, depth),
        Value::InlineTable(it) => pad(depth) + name + " {\n"@ + pad(deeper(depth)) + "type = \"table\"\n"@
            + kv_fields_schema(it.entries@, deeper(depth)) + pad(depth) + "}\n"@,
        _ => match value_type(v) {
            Some(t) => pad(depth) + name + " {\n"@ + pad(deeper(depth)) + "type = \""@ + t + "\"\n"@ + pad(
                deeper(depth),
            ) + "required = true\n"@ + pad(depth) + "}\n"@,
            None => pad(depth) + "# 无法从当前值确定 '"@ + name + "' 的类型（表达式求值失败或类型未知）\n"@,
        },
    }
}

/// The fields of an inline table.
pub open spec fn kv_fields_schema(kvs: Seq<KeyValue>, depth: usize) -> Seq<char>
    decreases kvs, 0nat,
{
    if kvs.len() == 0 {
        Seq::empty()
    } else {
        kv_fields_schema(kvs.drop_last(), depth) + field_schema(key_text(kvs.last().key), kvs.last().value, depth)
    }
}

/// The schema of a named table block.
pub open spec fn table_schema(name: Seq<char>, t: TableBlock, depth: usize) -> Seq<char>
    decreases t, 2nat,
{
    pad(depth) + name + " {\n"@ + pad(deeper(depth)) + "type = \"table\"\n"@ + pad(deeper(depth))
        + "required = true\n"@ + entries_schema(t.entries@, deeper(depth)) + pad(depth) + "}\n"@
}

/// The schema of an array table.
pub open spec fn array_schema(name: Seq<char>, depth: usize) -> Seq<char> {
    pad(depth) + name + " {\n"@ + pad(deeper(depth)) + "type = \"array\"\n"@ + pad(deeper(depth))
        + "required = true\n"@ + pad(depth) + "}\n"@
}

/// The schema of one entry; include directives, comments and unnamed
/// blocks give none.
pub open spec fn entry_schema(e: TableEntry, depth: usize) -> Option<Seq<char>>
    decreases e, 1nat,
{
    match e {
        TableEntry::KeyValue(kv) => Some(field_schema(key_text(kv.key), kv.value, depth)),
        TableEntry::TableBlock(child) => match child.name {
            Some(n) => Some(table_schema(n@, child, depth)),
            None => None,
        },
        TableEntry::ArrayTable(at) => Some(array_schema(key_text(at.key), depth)),
        _ => None,
    }
}

/// The schemas of the entries, one after the other.
pub open spec fn entries_schema(es: Seq<TableEntry>, depth: usize) -> Seq<char>
    decreases es, 0nat,
{
    if es.len() == 0 {
        Seq::empty()
    } else {
        entries_schema(es.drop_last(), depth) + match entry_schema(es.last(), depth) {
            Some(b) => b,
            None => Seq::empty(),
        }
    }
}

/// Whether some entry gives a schema.
pub open spec fn any_schema(es: Seq<TableEntry>) -> bool {
    exists|i: int| 0 <= i < es.len() && (#[trigger] entry_schema(es[i], 1)) is Some
}

/// The root entries, each preceded by an empty line.
pub open spec fn root_entries(es: Seq<TableEntry>) -> Seq<char>
    decreases es.len(),
{
    if es.len() == 0 {
        Seq::empty()
    } else {
        root_entries(es.drop_last()) + match entry_schema(es.last(), 1) {
            Some(b) => "\n"@ + b,
            None => Seq::empty(),
        }
    }
}

/// The schema block of a document, without a newline after its `}`.
pub open spec fn schema_text(root: TableBlock) -> Seq<char> {
    "#@schema {\n  version = \"1.0\"\n"@ + root_entries(root.entries@) + if any_schema(root.entries@) {
        Seq::empty()
    } else {
        "\n  # 当前文档里没有可推断的字段\n"@
    } + "}"@
}


fn scalar_type_str(s: &ScalarValue) -> (t: &'static str)
    ensures
        t@ == scalar_type_name(*s),
{
    match s {
        ScalarValue::String(_) => "string",
        ScalarValue::Number(NumberValue::Integer(_)) => "integer",
        ScalarValue::Number(NumberValue::Float(_)) => "float",
        ScalarValue::Boolean(_) => "boolean",
        ScalarValue::DateTime(_) => "datetime",
        ScalarValue::Duration(_) => "duration",
    }
}

fn is_zero_text(t: &String) -> (b: bool)
    ensures
        b == zero_text(t@),
{
    let v = chars_of(t.as_str());
    let mut i: usize = 0;
    while i < v.len() && v[i] != 'e' && v[i] != 'E'
        invariant
            i <= v@.len(),
            v@ == t@,
            forall|j: int| 0 <= j < i ==> v@[j] != 'e' && v@[j] != 'E',
            forall|k: int| 0 <= k < i ==> (#[trigger] v@[k] == '0' || v@[k] == '.' || v@[k] == '+' || v@[k] == '-'),
        decreases v@.len() - i,
    {
        if !(v[i] == '0' || v[i] == '.' || v[i] == '+' || v[i] == '-') {
            proof {
                assert(forall|j: int| 0 <= j <= i ==> v@[j] != 'e' && v@[j] != 'E');
            }
            return false;
        }
        i = i + 1;
    }
    proof {
        assert forall|k: int| 0 <= k < v@.len() && (forall|j: int| 0 <= j <= k ==> v@[j] != 'e' && v@[j] != 'E')
            implies #[trigger] v@[k] == '0' || v@[k] == '.' || v@[k] == '+' || v@[k] == '-' by {
            if k >= i {
                assert(i < v@.len());
                assert(v@[i as int] == 'e' || v@[i as int] == 'E');
            }
        }
    }
    true
}

fn is_numeric(t: &str) -> (b: bool)
    ensures
        b == (t@ == "integer"@ || t@ == "float"@),
{
    crate::text::str_eq(t, "integer") || crate::text::str_eq(t, "float")
}

fn expr_outcome(e: &Expression) -> (r: Option<(&'static str, bool)>)
    ensures
        match expression_outcome(*e) {
            Some(o) => r matches Some(x) && x.0@ == o.0 && x.1 == o.1,
            None => r is None,
        },
    decreases e,
{
    match e {
        Expression::Literal(s) => {
            let zero = match s {
                ScalarValue::Number(NumberValue::Integer(n)) => *n == 0,
                ScalarValue::Number(NumberValue::Float(t)) => is_zero_text(t),
                _ => false,
            };
            Some((scalar_type_str(s), zero))
        },
        Expression::UnitValue { .. } => Some(("duration", false)),
        Expression::BinaryOp { left, operator, right } => {
            let l = expr_outcome(left);
            let r = expr_outcome(right);
            match (l, r) {
                (Some(a), Some(b)) => {
                    if is_numeric(a.0) && is_numeric(b.0) {
                        if *operator == crate::ast::BinaryOperator::Divide && b.1 {
                            None
                        } else {
                            Some(("float", false))
                        }
                    } else {
                        None
                    }
                },
                _ => None,
            }
        },
    }
}

fn value_type_str(v: &Value) -> (r: Option<&'static str>)
    ensures
        match value_type(*v) {
            Some(t) => r matches Some(x) && x@ == t,
            None => r is None,
        },
{
    match v {
        Value::Scalar(s) => Some(scalar_type_str(s)),
        Value::Array(_) => Some("array"),
        Value::InlineTable(_) => Some("table"),
        Value::TableBlock(_) => Some("table"),
        Value::Expression(e) => match expr_outcome(e) {
            Some(o) => Some(o.0),
            None => None,
        },
    }
}

fn push_pad(out: &mut String, depth: usize)
    ensures
        final(out)@ == old(out)@ + pad(depth),
{
    push_repeated(out, "  ", depth);
}

fn next_depth(depth: usize) -> (d: usize)
    ensures
        d == deeper(depth),
{
    if depth < usize::MAX { depth + 1 } else { depth }
}

fn push_field(out: &mut String, name: &str, v: &Value, depth: usize)
    ensures
        final(out)@ == old(out)@ + field_schema(name@, *v, depth),
    decreases v, 1nat,
{
    let inner = next_depth(depth);
    match v {
        Value::TableBlock(t) => push_table_schema(out, name, t, depth),
        Value::InlineTable(it) => {
            push_pad(out, depth);
            out.push_str(name);
            out.push_str(" {\n");
            push_pad(out, inner);
            out.push_str("type = \"table\"\n");
            push_kv_fields(out, &it.entries, inner);
            push_pad(out, depth);
            out.push_str("}\n");
        },
        _ => match value_type_str(v) {
            Some(t) => {
                push_pad(out, depth);
                out.push_str(name);
                out.push_str(" {\n");
                push_pad(out, inner);
                out.push_str("type = \"");
                out.push_str(t);
                out.push_str("\"\n");
                push_pad(out, inner);
                out.push_str("required = true\n");
                push_pad(out, depth);
                out.push_str("}\n");
            },
            None => {
                push_pad(out, depth);
                out.push_str("# 无法从当前值确定 '");
                out.push_str(name);
                out.push_str("' 的类型（表达式求值失败或类型未知）\n");
            },
        },
    }
}

fn push_kv_fields(out: &mut String, kvs: &Vec<KeyValue>, depth: usize)
    ensures
        final(out)@ == old(out)@ + kv_fields_schema(kvs@, depth),
    decreases kvs@, 0nat,
{
    let ghost start = out@;
    let mut i: usize = 0;
    while i < kvs.len()
        invariant
            i <= kvs@.len(),
            out@ == start + kv_fields_schema(kvs@.take(i as int), depth),
        decreases kvs@.len() - i,
    {
        proof {
            assert(kvs@.take(i + 1).drop_last() == kvs@.take(i as int));
            assert(kvs@.take(i + 1).last() == kvs@[i as int]);
        }
        push_field(out, kvs[i].key.as_str(), &kvs[i].value, depth);
        i = i + 1;
    }
    proof {
        assert(kvs@.take(kvs@.len() as int) == kvs@);
    }
}

fn push_table_schema(out: &mut String, name: &str, t: &TableBlock, depth: usize)
    ensures
        final(out)@ == old(out)@ + table_schema(name@, *t, depth),
    decreases t, 2nat,
{
    let inner = next_depth(depth);
    push_pad(out, depth);
    out.push_str(name);
    out.push_str(" {\n");
    push_pad(out, inner);
    out.push_str("type = \"table\"\n");
    push_pad(out, inner);
    out.push_str("required = true\n");
    push_entries(out, &t.entries, inner);
    push_pad(out, depth);
    out.push_str("}\n");
}

fn push_entry_schema(out: &mut String, e: &TableEntry, depth: usize) -> (wrote: bool)
    ensures
        wrote == entry_schema(*e, depth) is Some,
        final(out)@ == old(out)@ + match entry_schema(*e, depth) {
            Some(b) => b,
            None => Seq::empty(),
        },
    decreases e, 1nat,
{
    match e {
        TableEntry::KeyValue(kv) => {
            push_field(out, kv.key.as_str(), &kv.value, depth);
            true
        },
        TableEntry::TableBlock(child) => match &child.name {
            Some(n) => {
                push_table_schema(out, n.as_str(), child, depth);
                true
            },
            None => false,
        },
        TableEntry::ArrayTable(at) => {
            let inner = next_depth(depth);
            push_pad(out, depth);
            out.push_str(at.key.as_str());
            out.push_str(" {\n");
            push_pad(out, inner);
            out.push_str("type = \"array\"\n");
            push_pad(out, inner);
            out.push_str("required = true\n");
            push_pad(out, depth);
            out.push_str("}\n");
            true
        },
        _ => false,
    }
}

fn push_entries(out: &mut String, es: &Vec<TableEntry>, depth: usize)
    ensures
        final(out)@ == old(out)@ + entries_schema(es@, depth),
    decreases es@, 0nat,
{
    let ghost start = out@;
    let mut i: usize = 0;
    while i < es.len()
        invariant
            i <= es@.len(),
            out@ == start + entries_schema(es@.take(i as int), depth),
        decreases es@.len() - i,
    {
        proof {
            assert(es@.take(i + 1).drop_last() == es@.take(i as int));
            assert(es@.take(i + 1).last() == es@[i as int]);
        }
        push_entry_schema(out, &es[i], depth);
        i = i + 1;
    }
    proof {
        assert(es@.take(es@.len() as int) == es@);
    }
}

fn render_root(table: &TableBlock) -> (s: String)
    ensures
        s@ == schema_text(*table),
{
    let mut out = String::new();
    out.push_str("#@schema {\n  version = \"1.0\"\n");
    let ghost start = out@;
    let mut wrote_any = false;
    let mut i: usize = 0;
    while i < table.entries.len()
        invariant
            i <= table.entries@.len(),
            out@ == start + root_entries(table.entries@.take(i as int)),
            wrote_any == exists|k: int| 0 <= k < i && (#[trigger] entry_schema(table.entries@[k], 1)) is Some,
        decreases table.entries@.len() - i,
    {
        proof {
            assert(table.entries@.take(i + 1).drop_last() == table.entries@.take(i as int));
            assert(table.entries@.take(i + 1).last() == table.entries@[i as int]);
        }
        let mut block = String::new();
        let wrote = push_entry_schema(&mut block, &table.entries[i], 1);
        if wrote {
            out.push_str("\n");
            out.push_str(block.as_str());
            wrote_any = true;
        }
        proof {
            assert(block@ == Seq::<char>::empty() + match entry_schema(table.entries@[i as int], 1) {
                Some(b) => b,
                None => Seq::<char>::empty(),
            });
        }
        i = i + 1;
    }
    proof {
        assert(table.entries@.take(table.entries@.len() as int) == table.entries@);
    }
    if !wrote_any {
        out.push_str("\n  # 当前文档里没有可推断的字段\n");
    }
    out.push_str("}");
    out
}

/// The schema block inferred from a parsed document.
pub fn infer_schema_from_ast(ast: &Ast) -> (s: String)
    ensures
        s@ == schema_text(ast.root),
{
    render_root(&ast.root)
}

/// Parses `source` and infers its schema block.
pub fn infer_schema(source: &str) -> (r: Result<String, VerseconfError>)
    requires
        source@.len() < u32::MAX,
    ensures
        r matches Ok(s) ==> crate::parser::parses(source@) && exists|ast: Ast| ast.source.content@ == source@ && s@
            == #[trigger] schema_text(ast.root),
        r matches Err(e) ==> crate::parser::parse_failure(source@, e),
{
    let ast = match crate::parse(source) {
        Ok(a) => a,
        Err(e) => {
            return Err(e);
        },
    };
    let s = render_root(&ast.root);
    assert(ast.source.content@ == source@ && s@ == schema_text(ast.root));
    Ok(s)
}

/// Whether evaluating the expression succeeds, as [`expression_outcome`] tells.
pub fn evaluates(e: &Expression) -> (b: bool)
    ensures
        b == (expression_outcome(*e) is Some),
{
    expr_outcome(e).is_some()
}
} // verus!
