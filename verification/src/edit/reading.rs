//! Reading tree values back as contract values, so that what a file holds
//! can be compared with what an edit expects.

use vstd::prelude::*;
use crate::ast::{key_text, Expression, KeyValue, ScalarValue, NumberValue, TableBlock, TableEntry, Value};
use crate::edit::value::{EditField, EditValue};
use crate::engine::audit::{unit_seconds_exec, unit_seconds_of};
use crate::engine::diff_comparator::duration_text;
use crate::engine::pretty_printer::{render_duration, key_le, lemma_seq_le_antisym, lemma_seq_le_total, lemma_seq_le_trans, seq_le};
use crate::text::{str_eq, to_owned_string};

verus! {

broadcast use vstd::string::group_string_axioms;

/// `a` comes strictly before `b` in code-point order.
pub open spec fn name_lt(a: Seq<char>, b: Seq<char>) -> bool {
    seq_le(a, b) && a != b
}

/// Field names strictly ascending: sorted, each name once.
pub open spec fn names_sorted(fs: Seq<EditField>) -> bool {
    forall|i: int, j: int| 0 <= i < j < fs.len() ==> name_lt(#[trigger] fs[i].name@, #[trigger] fs[j].name@)
}

/// The index of the last of the first `k` keys that equals `n`, or -1.
pub open spec fn last_key_index(keys: Seq<Seq<char>>, n: Seq<char>, k: int) -> int
    decreases k,
{
    if k <= 0 {
        -1
    } else if keys[k - 1] == n {
        k - 1
    } else {
        last_key_index(keys, n, k - 1)
    }
}

/// What a map built by inserting `keys` in order holds: its names sorted,
/// each a key, and every key a name.
pub open spec fn map_shape(keys: Seq<Seq<char>>, fs: Seq<EditField>) -> bool {
    &&& names_sorted(fs)
    &&& forall|j: int| #![trigger fs[j]] 0 <= j < fs.len() ==> 0 <= last_key_index(keys, fs[j].name@, keys.len() as int)
    &&& forall|i: int| 0 <= i < keys.len() ==> names_of(fs).contains(#[trigger] keys[i])
}

/// The names of fields, in order.
pub open spec fn names_of(fs: Seq<EditField>) -> Seq<Seq<char>> {
    fs.map_values(|f: EditField| f.name@)
}

proof fn lemma_name_lt_trans(a: Seq<char>, b: Seq<char>, c: Seq<char>)
    requires
        name_lt(a, b),
        name_lt(b, c),
    ensures
        name_lt(a, c),
{
    lemma_seq_le_trans(a, b, c);
    if a == c {
        lemma_seq_le_antisym(b, c);
    }
}

proof fn lemma_last_key_index_bounds(keys: Seq<Seq<char>>, n: Seq<char>, k: int)
    requires
        0 <= k <= keys.len(),
    ensures
        -1 <= last_key_index(keys, n, k) < k,
        last_key_index(keys, n, k) >= 0 ==> keys[last_key_index(keys, n, k)] == n,
    decreases k,
{
    if k > 0 && keys[k - 1] != n {
        lemma_last_key_index_bounds(keys, n, k - 1);
    }
}

/// Puts `value` under `name`: in place of the field of that name, or as a
/// new field at its place in name order.
fn insert_field(fs: &mut Vec<EditField>, name: String, value: EditValue)
    requires
        names_sorted(old(fs)@),
    ensures
        inserted(old(fs)@, final(fs)@, name@, value),
{
    let ghost before = fs@;
    let ghost n = name@;
    let mut p: usize = 0;
    while p < fs.len() && !key_le(name.as_str(), fs[p].name.as_str())
        invariant
            p <= fs@.len(),
            fs@ == before,
            n == name@,
            forall|q: int| 0 <= q < p ==> name_lt(#[trigger] fs@[q].name@, n),
        decreases fs@.len() - p,
    {
        proof {
            lemma_seq_le_total(n, fs@[p as int].name@);
            lemma_seq_le_total(n, n);
        }
        p = p + 1;
    }
    let ghost ge = p < before.len() ==> seq_le(n, before[p as int].name@);
    let f = EditField { name, value };
    let ghost gf = f;
    if p < fs.len() && str_eq(fs[p].name.as_str(), f.name.as_str()) {
        fs.set(p, f);
        proof {
            assert forall|j: int| 0 <= j < fs@.len() && (#[trigger] fs@[j]).name@ != n implies exists|q: int|
                0 <= q < before.len() && #[trigger] before[q] == fs@[j] by {
                assert(before[j] == fs@[j]);
            }
            assert forall|q: int| 0 <= q < before.len() && (#[trigger] before[q]).name@ != n implies exists|j: int|
                0 <= j < fs@.len() && #[trigger] fs@[j] == before[q] by {
                assert(fs@[q] == before[q]);
            }
            assert(fs@[p as int].name@ == n);
        }
    } else {
        fs.insert(p, f);
        proof {
            if p < before.len() {
                assert(before[p as int].name@ != n);
                assert(name_lt(n, before[p as int].name@));
            }
            assert forall|i: int, j: int| 0 <= i < j < fs@.len() implies name_lt(#[trigger] fs@[i].name@, #[trigger] fs@[j].name@) by {
                if j < p {
                    assert(fs@[i] == before[i] && fs@[j] == before[j]);
                } else if j == p {
                    assert(fs@[i] == before[i]);
                } else if i == p {
                    assert(fs@[j] == before[j - 1]);
                    if j - 1 > p {
                        assert(name_lt(before[p as int].name@, before[j - 1].name@));
                        lemma_name_lt_trans(n, before[p as int].name@, before[j - 1].name@);
                    }
                } else if i < p {
                    assert(fs@[i] == before[i] && fs@[j] == before[j - 1]);
                } else {
                    assert(fs@[i] == before[i - 1] && fs@[j] == before[j - 1]);
                }
            }
            assert forall|j: int| 0 <= j < fs@.len() && (#[trigger] fs@[j]).name@ != n implies exists|q: int|
                0 <= q < before.len() && #[trigger] before[q] == fs@[j] by {
                if j < p {
                    assert(before[j] == fs@[j]);
                } else {
                    assert(before[j - 1] == fs@[j]);
                }
            }
            assert forall|q: int| 0 <= q < before.len() && (#[trigger] before[q]).name@ != n implies exists|j: int|
                0 <= j < fs@.len() && #[trigger] fs@[j] == before[q] by {
                if q < p {
                    assert(fs@[q] == before[q]);
                } else {
                    assert(fs@[q + 1] == before[q]);
                }
            }
            assert(fs@[p as int] == gf);
        }
    }
}


/// How a scalar reads: date-times as their text and durations as the
/// formatter writes them, since that is how they stand in the file.
pub open spec fn scalar_reads_as(s: ScalarValue, v: EditValue) -> bool {
    match s {
        ScalarValue::String(t) => v matches EditValue::String(u) && u@ == t@,
        ScalarValue::Number(NumberValue::Integer(i)) => v == EditValue::Integer(i),
        ScalarValue::Number(NumberValue::Float(t)) => v matches EditValue::Float(u) && u@ == t@,
        ScalarValue::Boolean(b) => v == EditValue::Bool(b),
        ScalarValue::DateTime(t) => v matches EditValue::String(u) && u@ == t@,
        ScalarValue::Duration(secs) => v matches EditValue::String(u) && u@ == duration_text(secs),
    }
}

/// Whether an expression has a value here: a literal, or a unit value of
/// plain decimal text whose seconds fit. A computed number is not read.
pub open spec fn expression_readable(e: Expression) -> bool {
    match e {
        Expression::Literal(_) => true,
        Expression::UnitValue { value, unit } => unit_seconds_of(value@, unit) is Some,
        Expression::BinaryOp { .. } => false,
    }
}

/// How a readable expression reads.
pub open spec fn expression_reads_as(e: Expression, v: EditValue) -> bool {
    match e {
        Expression::Literal(s) => scalar_reads_as(s, v),
        Expression::UnitValue { value, unit } => match unit_seconds_of(value@, unit) {
            Some(n) => v matches EditValue::String(u) && u@ == duration_text(n),
            None => false,
        },
        Expression::BinaryOp { .. } => false,
    }
}

/// The keys of key-value pairs.
pub open spec fn kv_keys(kvs: Seq<KeyValue>) -> Seq<Seq<char>> {
    kvs.map_values(|kv: KeyValue| key_text(kv.key))
}

/// The name an entry of a table block is read under.
pub open spec fn entry_key(e: TableEntry) -> Seq<char> {
    match e {
        TableEntry::KeyValue(kv) => key_text(kv.key),
        TableEntry::TableBlock(nb) => match nb.name {
            Some(n) => n@,
            None => Seq::empty(),
        },
        _ => Seq::empty(),
    }
}

pub open spec fn entry_keys(es: Seq<TableEntry>) -> Seq<Seq<char>> {
    es.map_values(|e: TableEntry| entry_key(e))
}

/// Whether a value can be read: every scalar can; an expression as above;
/// a collection when all its parts can; a table block when it holds only
/// key-value pairs and named blocks.
pub open spec fn readable(a: Value) -> bool
    decreases a, 2nat,
{
    match a {
        Value::Scalar(_) => true,
        Value::Expression(e) => expression_readable(e),
        Value::Array(arr) => forall|i: int| 0 <= i < arr.elements@.len() ==> readable(#[trigger] arr.elements@[i]),
        Value::InlineTable(t) => forall|i: int| 0 <= i < t.entries@.len() ==> readable(#[trigger] t.entries@[i].value),
        Value::TableBlock(tb) => block_readable(tb),
    }
}

pub open spec fn block_readable(tb: TableBlock) -> bool
    decreases tb, 1nat,
{
    forall|i: int| 0 <= i < tb.entries@.len() ==> entry_readable(#[trigger] tb.entries@[i])
}

pub open spec fn entry_readable(e: TableEntry) -> bool
    decreases e, 0nat,
{
    match e {
        TableEntry::KeyValue(kv) => readable(kv.value),
        TableEntry::TableBlock(nb) => nb.name is Some && block_readable(nb),
        _ => false,
    }
}

/// Whether `v` is what `a` reads as: scalars as above, arrays item by item,
/// and tables as maps from names to values, where a name given twice keeps
/// its last value.
pub open spec fn reads_as(a: Value, v: EditValue) -> bool
    decreases a, 2nat,
{
    match a {
        Value::Scalar(s) => scalar_reads_as(s, v),
        Value::Expression(e) => expression_reads_as(e, v),
        Value::Array(arr) => match v {
            EditValue::Array(items) => items@.len() == arr.elements@.len() && forall|i: int|
                0 <= i < items@.len() ==> reads_as(#[trigger] arr.elements@[i], items@[i]),
            _ => false,
        },
        Value::InlineTable(t) => match v {
            EditValue::Table(fs) => map_shape(kv_keys(t.entries@), fs@) && forall|j: int|
                #![trigger fs@[j]]
                0 <= j < fs@.len() ==> {
                    let i = last_key_index(kv_keys(t.entries@), fs@[j].name@, t.entries@.len() as int);
                    0 <= i < t.entries@.len() && reads_as(t.entries@[i].value, fs@[j].value)
                },
            _ => false,
        },
        Value::TableBlock(tb) => match v {
            EditValue::Table(fs) => block_reads_as(tb, fs@),
            _ => false,
        },
    }
}

pub open spec fn block_reads_as(tb: TableBlock, fs: Seq<EditField>) -> bool
    decreases tb, 1nat,
{
    map_shape(entry_keys(tb.entries@), fs) && forall|j: int|
        #![trigger fs[j]]
        0 <= j < fs.len() ==> {
            let i = last_key_index(entry_keys(tb.entries@), fs[j].name@, tb.entries@.len() as int);
            0 <= i < tb.entries@.len() && entry_reads_as(tb.entries@[i], fs[j].value)
        }
}

pub open spec fn entry_reads_as(e: TableEntry, v: EditValue) -> bool
    decreases e, 0nat,
{
    match e {
        TableEntry::KeyValue(kv) => reads_as(kv.value, v),
        TableEntry::TableBlock(nb) => match v {
            EditValue::Table(gs) => block_reads_as(nb, gs@),
            _ => false,
        },
        _ => false,
    }
}


/// What inserting `v` under `n` into `before` leaves: names still sorted,
/// `n` present with `v`, and every other field kept as it was.
pub open spec fn inserted(before: Seq<EditField>, after: Seq<EditField>, n: Seq<char>, v: EditValue) -> bool {
    &&& names_sorted(after)
    &&& exists|p: int| 0 <= p < after.len() && (#[trigger] after[p]).name@ == n
    &&& forall|j: int| 0 <= j < after.len() && (#[trigger] after[j]).name@ == n ==> after[j].value == v
    &&& forall|j: int|
        0 <= j < after.len() && (#[trigger] after[j]).name@ != n ==> exists|q: int|
            0 <= q < before.len() && #[trigger] before[q] == after[j]
    &&& forall|q: int|
        0 <= q < before.len() && (#[trigger] before[q]).name@ != n ==> exists|j: int|
            0 <= j < after.len() && #[trigger] after[j] == before[q]
}

/// The state of a map after inserting the first `k` keys, each with a value
/// for which `r` holds.
pub open spec fn map_inv(keys: Seq<Seq<char>>, k: int, fs: Seq<EditField>, r: spec_fn(int, EditValue) -> bool) -> bool {
    &&& names_sorted(fs)
    &&& forall|j: int|
        #![trigger fs[j]]
        0 <= j < fs.len() ==> 0 <= last_key_index(keys, fs[j].name@, k) && r(last_key_index(keys, fs[j].name@, k), fs[j].value)
    &&& forall|i: int| 0 <= i < k ==> names_of(fs).contains(#[trigger] keys[i])
}

#[verifier::spinoff_prover]
#[verifier::rlimit(40)]
proof fn lemma_map_step_values(
    keys: Seq<Seq<char>>,
    k: int,
    before: Seq<EditField>,
    after: Seq<EditField>,
    v: EditValue,
    r: spec_fn(int, EditValue) -> bool,
)
    requires
        0 <= k < keys.len(),
        map_inv(keys, k, before, r),
        r(k, v),
        inserted(before, after, keys[k], v),
    ensures
        forall|j: int|
            #![trigger after[j]]
            0 <= j < after.len() ==> 0 <= last_key_index(keys, after[j].name@, k + 1) && r(
                last_key_index(keys, after[j].name@, k + 1),
                after[j].value,
            ),
{
    let n = keys[k];
    assert forall|j: int| #![trigger after[j]] 0 <= j < after.len() implies 0 <= last_key_index(keys, after[j].name@, k + 1) && r(
        last_key_index(keys, after[j].name@, k + 1),
        after[j].value,
    ) by {
        if after[j].name@ == n {
            assert(last_key_index(keys, n, k + 1) == k);
        } else {
            let q = choose|q: int| 0 <= q < before.len() && #[trigger] before[q] == after[j];
            assert(before[q] == after[j]);
            assert(last_key_index(keys, after[j].name@, k + 1) == last_key_index(keys, after[j].name@, k));
        }
    }
}

#[verifier::spinoff_prover]
#[verifier::rlimit(60)]
proof fn lemma_map_step_keys(
    keys: Seq<Seq<char>>,
    k: int,
    before: Seq<EditField>,
    after: Seq<EditField>,
    v: EditValue,
    r: spec_fn(int, EditValue) -> bool,
)
    requires
        0 <= k < keys.len(),
        map_inv(keys, k, before, r),
        inserted(before, after, keys[k], v),
    ensures
        forall|i: int| 0 <= i < k + 1 ==> names_of(after).contains(#[trigger] keys[i]),
{
    let n = keys[k];
    let p = choose|p: int| 0 <= p < after.len() && (#[trigger] after[p]).name@ == n;
    assert forall|i: int| 0 <= i < k + 1 implies names_of(after).contains(#[trigger] keys[i]) by {
        if i == k || keys[i] == n {
            assert(names_of(after)[p] == keys[i]);
        } else {
            assert(names_of(before).contains(keys[i]));
            let q = choose|q: int| 0 <= q < names_of(before).len() && names_of(before)[q] == keys[i];
            assert(before[q].name@ == keys[i]);
            let j = choose|j: int| 0 <= j < after.len() && #[trigger] after[j] == before[q];
            assert(names_of(after)[j] == keys[i]);
        }
    }
}

proof fn lemma_map_step(
    keys: Seq<Seq<char>>,
    k: int,
    before: Seq<EditField>,
    after: Seq<EditField>,
    v: EditValue,
    r: spec_fn(int, EditValue) -> bool,
)
    requires
        0 <= k < keys.len(),
        map_inv(keys, k, before, r),
        r(k, v),
        inserted(before, after, keys[k], v),
    ensures
        map_inv(keys, k + 1, after, r),
{
    lemma_map_step_values(keys, k, before, after, v, r);
    lemma_map_step_keys(keys, k, before, after, v, r);
}

proof fn lemma_map_done(keys: Seq<Seq<char>>, fs: Seq<EditField>, r: spec_fn(int, EditValue) -> bool)
    requires
        map_inv(keys, keys.len() as int, fs, r),
    ensures
        map_shape(keys, fs),
        forall|j: int|
            #![trigger fs[j]]
            0 <= j < fs.len() ==> {
                let i = last_key_index(keys, fs[j].name@, keys.len() as int);
                0 <= i < keys.len() && r(i, fs[j].value)
            },
{
    assert forall|j: int| #![trigger fs[j]] 0 <= j < fs.len() implies {
        let i = last_key_index(keys, fs[j].name@, keys.len() as int);
        0 <= i < keys.len() && r(i, fs[j].value)
    } by {
        lemma_last_key_index_bounds(keys, fs[j].name@, keys.len() as int);
    }
}

fn read_scalar(s: &ScalarValue) -> (v: EditValue)
    ensures
        scalar_reads_as(*s, v),
{
    match s {
        ScalarValue::String(t) => EditValue::String(to_owned_string(t.as_str())),
        ScalarValue::Number(NumberValue::Integer(i)) => EditValue::Integer(*i),
        ScalarValue::Number(NumberValue::Float(t)) => EditValue::Float(to_owned_string(t.as_str())),
        ScalarValue::Boolean(b) => EditValue::Bool(*b),
        ScalarValue::DateTime(t) => EditValue::String(to_owned_string(t.as_str())),
        ScalarValue::Duration(secs) => EditValue::String(render_duration(*secs)),
    }
}

fn read_expression(e: &Expression) -> (r: Option<EditValue>)
    ensures
        match r {
            Some(v) => expression_readable(*e) && expression_reads_as(*e, v),
            None => !expression_readable(*e),
        },
{
    match e {
        Expression::Literal(s) => Some(read_scalar(s)),
        Expression::UnitValue { value, unit } => match unit_seconds_exec(value, *unit) {
            Some(n) => Some(EditValue::String(render_duration(n))),
            None => None,
        },
        Expression::BinaryOp { .. } => None,
    }
}

fn read_items(xs: &Vec<Value>) -> (r: Option<Vec<EditValue>>)
    ensures
        match r {
            Some(vs) => vs@.len() == xs@.len() && (forall|i: int| 0 <= i < xs@.len() ==> readable(#[trigger] xs@[i]))
                && forall|i: int| 0 <= i < xs@.len() ==> reads_as(#[trigger] xs@[i], vs@[i]),
            None => !(forall|i: int| 0 <= i < xs@.len() ==> readable(#[trigger] xs@[i])),
        },
    decreases xs@, 2nat,
{
    let mut vs: Vec<EditValue> = Vec::new();
    let mut i: usize = 0;
    while i < xs.len()
        invariant
            i <= xs@.len(),
            vs@.len() == i,
            forall|k: int| 0 <= k < i ==> readable(#[trigger] xs@[k]),
            forall|k: int| 0 <= k < i ==> reads_as(#[trigger] xs@[k], vs@[k]),
        decreases xs@.len() - i,
    {
        match EditValue::from_ast_value(&xs[i]) {
            Some(v) => vs.push(v),
            None => {
                return None;
            },
        }
        i = i + 1;
    }
    Some(vs)
}

fn read_kvs(kvs: &Vec<KeyValue>) -> (r: Option<Vec<EditField>>)
    ensures
        match r {
            Some(fs) => (forall|i: int| 0 <= i < kvs@.len() ==> readable(#[trigger] kvs@[i].value)) && map_shape(
                kv_keys(kvs@),
                fs@,
            ) && forall|j: int|
                #![trigger fs@[j]]
                0 <= j < fs@.len() ==> {
                    let i = last_key_index(kv_keys(kvs@), fs@[j].name@, kvs@.len() as int);
                    0 <= i < kvs@.len() && reads_as(kvs@[i].value, fs@[j].value)
                },
            None => !(forall|i: int| 0 <= i < kvs@.len() ==> readable(#[trigger] kvs@[i].value)),
        },
    decreases kvs@, 2nat,
{
    let ghost keys = kv_keys(kvs@);
    let ghost rel = |i: int, x: EditValue| reads_as(kvs@[i].value, x);
    let mut fs: Vec<EditField> = Vec::new();
    let mut k: usize = 0;
    while k < kvs.len()
        invariant
            k <= kvs@.len(),
            keys == kv_keys(kvs@),
            rel == (|i: int, x: EditValue| reads_as(kvs@[i].value, x)),
            map_inv(keys, k as int, fs@, rel),
            forall|i: int| 0 <= i < k ==> readable(#[trigger] kvs@[i].value),
        decreases kvs@.len() - k,
    {
        match EditValue::from_ast_value(&kvs[k].value) {
            Some(v) => {
                let name = to_owned_string(kvs[k].key.as_str());
                let ghost before = fs@;
                let ghost gv = v;
                insert_field(&mut fs, name, v);
                proof {
                    assert(keys[k as int] == name@);
                    assert(rel(k as int, gv));
                    lemma_map_step(keys, k as int, before, fs@, gv, rel);
                }
            },
            None => {
                return None;
            },
        }
        k = k + 1;
    }
    proof {
        lemma_map_done(keys, fs@, rel);
    }
    Some(fs)
}

fn read_block(tb: &TableBlock) -> (r: Option<Vec<EditField>>)
    ensures
        match r {
            Some(fs) => block_readable(*tb) && block_reads_as(*tb, fs@),
            None => !block_readable(*tb),
        },
    decreases tb, 1nat,
{
    let ghost keys = entry_keys(tb.entries@);
    let ghost rel = |i: int, x: EditValue| entry_reads_as(tb.entries@[i], x);
    let mut fs: Vec<EditField> = Vec::new();
    let mut k: usize = 0;
    while k < tb.entries.len()
        invariant
            k <= tb.entries@.len(),
            keys == entry_keys(tb.entries@),
            rel == (|i: int, x: EditValue| entry_reads_as(tb.entries@[i], x)),
            map_inv(keys, k as int, fs@, rel),
            forall|i: int| 0 <= i < k ==> entry_readable(#[trigger] tb.entries@[i]),
        decreases tb.entries@.len() - k,
    {
        let ghost before = fs@;
        match &tb.entries[k] {
            TableEntry::KeyValue(kv) => match EditValue::from_ast_value(&kv.value) {
                Some(v) => {
                    let name = to_owned_string(kv.key.as_str());
                    let ghost gv = v;
                    insert_field(&mut fs, name, v);
                    proof {
                        assert(keys[k as int] == name@);
                        assert(rel(k as int, gv));
                        lemma_map_step(keys, k as int, before, fs@, gv, rel);
                    }
                },
                None => {
                    return None;
                },
            },
            TableEntry::TableBlock(nested) => match &nested.name {
                Some(n) => match read_block(nested) {
                    Some(gs) => {
                        let name = to_owned_string(n.as_str());
                        let v = EditValue::Table(gs);
                        let ghost gv = v;
                        insert_field(&mut fs, name, v);
                        proof {
                            assert(keys[k as int] == name@);
                            assert(rel(k as int, gv));
                            lemma_map_step(keys, k as int, before, fs@, gv, rel);
                        }
                    },
                    None => {
                        return None;
                    },
                },
                None => {
                    return None;
                },
            },
            _ => {
                return None;
            },
        }
        k = k + 1;
    }
    proof {
        lemma_map_done(keys, fs@, rel);
    }
    Some(fs)
}

impl EditValue {
    /// Reads a tree value as a contract value. `None` when it cannot be read
    /// for sure (a computed number, a unit value whose seconds do not fit,
    /// a table block holding anything but key-value pairs and named blocks);
    /// a caller then refuses instead of guessing.
    pub fn from_ast_value(value: &Value) -> (r: Option<EditValue>)
        ensures
            match r {
                Some(v) => readable(*value) && reads_as(*value, v),
                None => !readable(*value),
            },
        decreases value, 2nat,
    {
        match value {
            Value::Scalar(s) => Some(read_scalar(s)),
            Value::Expression(e) => read_expression(e),
            Value::Array(arr) => match read_items(&arr.elements) {
                Some(items) => Some(EditValue::Array(items)),
                None => None,
            },
            Value::InlineTable(t) => match read_kvs(&t.entries) {
                Some(fs) => Some(EditValue::Table(fs)),
                None => None,
            },
            Value::TableBlock(tb) => match read_block(tb) {
                Some(fs) => Some(EditValue::Table(fs)),
                None => None,
            },
        }
    }
}

} // verus!
