//! When two contract values are the same value, and why reading a tree value
//! gives one value only.

use vstd::prelude::*;
use crate::ast::{Value, TableEntry};
use crate::edit::reading::{
    block_reads_as, entry_reads_as, last_key_index, map_shape, name_lt, names_of, reads_as,
};
use crate::edit::value::{EditField, EditValue};
use crate::engine::pretty_printer::{lemma_seq_le_antisym, lemma_seq_le_trans};
use crate::text::str_eq;

verus! {

broadcast use vstd::string::group_string_axioms;

/// Two contract values are the same: equal scalars (texts compared as
/// text), arrays item by item, tables field by field.
pub open spec fn same_value(a: EditValue, b: EditValue) -> bool
    decreases a,
{
    match a {
        EditValue::Bool(x) => b == EditValue::Bool(x),
        EditValue::Integer(x) => b == EditValue::Integer(x),
        EditValue::Float(x) => b matches EditValue::Float(y) && x@ == y@,
        EditValue::String(x) => b matches EditValue::String(y) && x@ == y@,
        EditValue::Array(xs) => match b {
            EditValue::Array(ys) => xs@.len() == ys@.len() && forall|i: int|
                0 <= i < xs@.len() ==> same_value(#[trigger] xs@[i], ys@[i]),
            _ => false,
        },
        EditValue::Table(fs) => match b {
            EditValue::Table(gs) => fs@.len() == gs@.len() && forall|i: int|
                #![trigger fs@[i]]
                0 <= i < fs@.len() ==> fs@[i].name@ == gs@[i].name@ && same_value(fs@[i].value, gs@[i].value),
            _ => false,
        },
    }
}

impl EditValue {
    /// Whether `self` and `other` are the same value.
    pub fn same_as(&self, other: &EditValue) -> (r: bool)
        ensures
            r == same_value(*self, *other),
        decreases *self, 1nat,
    {
        match self {
            EditValue::Bool(x) => match other {
                EditValue::Bool(y) => *x == *y,
                _ => false,
            },
            EditValue::Integer(x) => match other {
                EditValue::Integer(y) => *x == *y,
                _ => false,
            },
            EditValue::Float(x) => match other {
                EditValue::Float(y) => str_eq(x.as_str(), y.as_str()),
                _ => false,
            },
            EditValue::String(x) => match other {
                EditValue::String(y) => str_eq(x.as_str(), y.as_str()),
                _ => false,
            },
            EditValue::Array(xs) => match other {
                EditValue::Array(ys) => same_items(xs, ys),
                _ => false,
            },
            EditValue::Table(fs) => match other {
                EditValue::Table(gs) => same_fields(fs, gs),
                _ => false,
            },
        }
    }
}

fn same_items(xs: &Vec<EditValue>, ys: &Vec<EditValue>) -> (r: bool)
    ensures
        r == (xs@.len() == ys@.len() && forall|i: int| 0 <= i < xs@.len() ==> same_value(#[trigger] xs@[i], ys@[i])),
    decreases xs@, 0nat,
{
    if xs.len() != ys.len() {
        return false;
    }
    let mut i: usize = 0;
    while i < xs.len()
        invariant
            i <= xs@.len() == ys@.len(),
            forall|k: int| 0 <= k < i ==> same_value(#[trigger] xs@[k], ys@[k]),
        decreases xs@.len() - i,
    {
        if !xs[i].same_as(&ys[i]) {
            return false;
        }
        i = i + 1;
    }
    true
}

fn same_fields(fs: &Vec<EditField>, gs: &Vec<EditField>) -> (r: bool)
    ensures
        r == (fs@.len() == gs@.len() && forall|i: int|
            #![trigger fs@[i]]
            0 <= i < fs@.len() ==> fs@[i].name@ == gs@[i].name@ && same_value(fs@[i].value, gs@[i].value)),
    decreases fs@, 0nat,
{
    if fs.len() != gs.len() {
        return false;
    }
    let mut i: usize = 0;
    while i < fs.len()
        invariant
            i <= fs@.len() == gs@.len(),
            forall|k: int|
                #![trigger fs@[k]]
                0 <= k < i ==> fs@[k].name@ == gs@[k].name@ && same_value(fs@[k].value, gs@[k].value),
        decreases fs@.len() - i,
    {
        if !str_eq(fs[i].name.as_str(), gs[i].name.as_str()) {
            return false;
        }
        if !fs[i].value.same_as(&gs[i].value) {
            return false;
        }
        i = i + 1;
    }
    true
}

proof fn lemma_name_lt_not_both(a: Seq<char>, b: Seq<char>)
    requires
        name_lt(a, b),
    ensures
        !name_lt(b, a),
{
    if name_lt(b, a) {
        lemma_seq_le_antisym(a, b);
    }
}

proof fn lemma_name_lt_chain(a: Seq<char>, b: Seq<char>, c: Seq<char>)
    requires
        name_lt(a, b),
        name_lt(b, c),
    ensures
        name_lt(a, c),
{
    lemma_seq_le_trans(a, b, c);
    if a == c {
        lemma_seq_le_antisym(a, b);
    }
}

/// Two strictly ascending sequences of names with the same members are equal.
pub(crate) proof fn lemma_sorted_names_equal(a: Seq<Seq<char>>, b: Seq<Seq<char>>)
    requires
        forall|i: int, j: int| 0 <= i < j < a.len() ==> name_lt(#[trigger] a[i], #[trigger] a[j]),
        forall|i: int, j: int| 0 <= i < j < b.len() ==> name_lt(#[trigger] b[i], #[trigger] b[j]),
        forall|x: Seq<char>| a.contains(x) <==> b.contains(x),
    ensures
        a == b,
    decreases a.len(),
{
    if a.len() == 0 {
        if b.len() > 0 {
            assert(b.contains(b[0]));
        }
        assert(a =~= b);
    } else {
        assert(a.contains(a[0]));
        assert(b.len() > 0);
        assert(b.contains(b[0]));
        let k = choose|k: int| 0 <= k < b.len() && b[k] == a[0];
        let m = choose|m: int| 0 <= m < a.len() && a[m] == b[0];
        if k > 0 {
            assert(name_lt(b[0], b[k]));
            if m > 0 {
                assert(name_lt(a[0], a[m]));
                lemma_name_lt_not_both(a[0], b[0]);
            }
        }
        assert(a[0] == b[0]);
        let ta = a.drop_first();
        let tb = b.drop_first();
        assert forall|x: Seq<char>| ta.contains(x) <==> tb.contains(x) by {
            if ta.contains(x) {
                let p = choose|p: int| 0 <= p < ta.len() && ta[p] == x;
                assert(a[p + 1] == x);
                assert(name_lt(a[0], a[p + 1]));
                assert(a.contains(x));
                let q = choose|q: int| 0 <= q < b.len() && b[q] == x;
                assert(q != 0);
                assert(tb[q - 1] == x);
            }
            if tb.contains(x) {
                let p = choose|p: int| 0 <= p < tb.len() && tb[p] == x;
                assert(b[p + 1] == x);
                assert(name_lt(b[0], b[p + 1]));
                assert(b.contains(x));
                let q = choose|q: int| 0 <= q < a.len() && a[q] == x;
                assert(q != 0);
                assert(ta[q - 1] == x);
            }
        }
        assert forall|i: int, j: int| 0 <= i < j < ta.len() implies name_lt(#[trigger] ta[i], #[trigger] ta[j]) by {
            assert(ta[i] == a[i + 1] && ta[j] == a[j + 1]);
        }
        assert forall|i: int, j: int| 0 <= i < j < tb.len() implies name_lt(#[trigger] tb[i], #[trigger] tb[j]) by {
            assert(tb[i] == b[i + 1] && tb[j] == b[j + 1]);
        }
        lemma_sorted_names_equal(ta, tb);
        assert forall|i: int| 0 <= i < a.len() implies a[i] == b[i] by {
            if i > 0 {
                assert(a[i] == ta[i - 1]);
                assert(b[i] == tb[i - 1]);
            }
        }
        assert(a =~= b);
    }
}

proof fn lemma_last_index_is_key(keys: Seq<Seq<char>>, n: Seq<char>, k: int)
    requires
        0 <= k <= keys.len(),
    ensures
        -1 <= last_key_index(keys, n, k) < k,
        last_key_index(keys, n, k) >= 0 ==> keys[last_key_index(keys, n, k)] == n,
    decreases k,
{
    if k > 0 && keys[k - 1] != n {
        lemma_last_index_is_key(keys, n, k - 1);
    }
}

/// Two maps of the same keys have the same names, in the same order.
proof fn lemma_map_shapes_agree(keys: Seq<Seq<char>>, fs: Seq<EditField>, gs: Seq<EditField>)
    requires
        map_shape(keys, fs),
        map_shape(keys, gs),
    ensures
        names_of(fs) == names_of(gs),
        fs.len() == gs.len(),
{
    let a = names_of(fs);
    let b = names_of(gs);
    assert forall|x: Seq<char>| a.contains(x) <==> b.contains(x) by {
        if a.contains(x) {
            let p = choose|p: int| 0 <= p < a.len() && a[p] == x;
            assert(fs[p].name@ == x);
            lemma_last_index_is_key(keys, x, keys.len() as int);
            assert(keys.contains(x));
            let i = last_key_index(keys, x, keys.len() as int);
            assert(b.contains(keys[i]));
        }
        if b.contains(x) {
            let p = choose|p: int| 0 <= p < b.len() && b[p] == x;
            assert(gs[p].name@ == x);
            lemma_last_index_is_key(keys, x, keys.len() as int);
            let i = last_key_index(keys, x, keys.len() as int);
            assert(a.contains(keys[i]));
        }
    }
    assert forall|i: int, j: int| 0 <= i < j < a.len() implies name_lt(#[trigger] a[i], #[trigger] a[j]) by {
        assert(a[i] == fs[i].name@ && a[j] == fs[j].name@);
    }
    assert forall|i: int, j: int| 0 <= i < j < b.len() implies name_lt(#[trigger] b[i], #[trigger] b[j]) by {
        assert(b[i] == gs[i].name@ && b[j] == gs[j].name@);
    }
    lemma_sorted_names_equal(a, b);
}

/// A tree value reads as one value only, up to sameness.
pub proof fn lemma_reading_is_unique(a: Value, v: EditValue, w: EditValue)
    requires
        reads_as(a, v),
        reads_as(a, w),
    ensures
        same_value(v, w),
    decreases a, 2nat,
{
    match a {
        Value::Scalar(s) => {},
        Value::Expression(e) => {},
        Value::Array(arr) => {
            let vs = v->Array_0@;
            let ws = w->Array_0@;
            assert forall|i: int| 0 <= i < vs.len() implies same_value(#[trigger] vs[i], ws[i]) by {
                lemma_reading_is_unique(arr.elements@[i], vs[i], ws[i]);
            }
        },
        Value::InlineTable(t) => {
            let fs = v->Table_0@;
            let gs = w->Table_0@;
            let keys = crate::edit::reading::kv_keys(t.entries@);
            lemma_map_shapes_agree(keys, fs, gs);
            assert forall|j: int| #![trigger fs[j]] 0 <= j < fs.len() implies fs[j].name@ == gs[j].name@ && same_value(
                fs[j].value,
                gs[j].value,
            ) by {
                assert(names_of(fs)[j] == names_of(gs)[j]);
                let i = last_key_index(keys, fs[j].name@, t.entries@.len() as int);
                assert(gs[j] == gs[j]);
                lemma_reading_is_unique(t.entries@[i].value, fs[j].value, gs[j].value);
            }
        },
        Value::TableBlock(tb) => {
            lemma_block_reading_is_unique(tb, v->Table_0@, w->Table_0@);
        },
    }
}

proof fn lemma_block_reading_is_unique(tb: crate::ast::TableBlock, fs: Seq<EditField>, gs: Seq<EditField>)
    requires
        block_reads_as(tb, fs),
        block_reads_as(tb, gs),
    ensures
        fs.len() == gs.len(),
        forall|i: int|
            #![trigger fs[i]]
            0 <= i < fs.len() ==> fs[i].name@ == gs[i].name@ && same_value(fs[i].value, gs[i].value),
    decreases tb, 1nat,
{
    let keys = crate::edit::reading::entry_keys(tb.entries@);
    lemma_map_shapes_agree(keys, fs, gs);
    assert forall|j: int| #![trigger fs[j]] 0 <= j < fs.len() implies fs[j].name@ == gs[j].name@ && same_value(
        fs[j].value,
        gs[j].value,
    ) by {
        assert(names_of(fs)[j] == names_of(gs)[j]);
        let i = last_key_index(keys, fs[j].name@, tb.entries@.len() as int);
        assert(gs[j] == gs[j]);
        lemma_entry_reading_is_unique(tb.entries@[i], fs[j].value, gs[j].value);
    }
}

proof fn lemma_entry_reading_is_unique(e: TableEntry, v: EditValue, w: EditValue)
    requires
        entry_reads_as(e, v),
        entry_reads_as(e, w),
    ensures
        same_value(v, w),
    decreases e, 0nat,
{
    match e {
        TableEntry::KeyValue(kv) => {
            lemma_reading_is_unique(kv.value, v, w);
        },
        TableEntry::TableBlock(nb) => {
            lemma_block_reading_is_unique(nb, v->Table_0@, w->Table_0@);
        },
        _ => {},
    }
}

/// What a tree value reads as, a value the same as it reads as too.
pub proof fn lemma_reading_respects_sameness(a: Value, v: EditValue, w: EditValue)
    requires
        reads_as(a, v),
        same_value(v, w),
    ensures
        reads_as(a, w),
    decreases a, 2nat,
{
    match a {
        Value::Scalar(s) => {},
        Value::Expression(e) => {},
        Value::Array(arr) => {
            let vs = v->Array_0@;
            let ws = w->Array_0@;
            assert forall|i: int| 0 <= i < ws.len() implies reads_as(#[trigger] arr.elements@[i], ws[i]) by {
                assert(same_value(vs[i], ws[i]));
                lemma_reading_respects_sameness(arr.elements@[i], vs[i], ws[i]);
            }
        },
        Value::InlineTable(t) => {
            let fs = v->Table_0@;
            let gs = w->Table_0@;
            let keys = crate::edit::reading::kv_keys(t.entries@);
            lemma_fields_follow(keys, fs, gs);
            assert forall|j: int| #![trigger gs[j]] 0 <= j < gs.len() implies {
                let i = last_key_index(keys, gs[j].name@, t.entries@.len() as int);
                0 <= i < t.entries@.len() && reads_as(t.entries@[i].value, gs[j].value)
            } by {
                assert(fs[j].name@ == gs[j].name@ && same_value(fs[j].value, gs[j].value));
                let i = last_key_index(keys, fs[j].name@, t.entries@.len() as int);
                lemma_reading_respects_sameness(t.entries@[i].value, fs[j].value, gs[j].value);
            }
        },
        Value::TableBlock(tb) => {
            lemma_block_reading_respects_sameness(tb, v->Table_0@, w->Table_0@);
        },
    }
}

/// Fields pairwise of the same names keep a map's shape.
proof fn lemma_fields_follow(keys: Seq<Seq<char>>, fs: Seq<EditField>, gs: Seq<EditField>)
    requires
        map_shape(keys, fs),
        fs.len() == gs.len(),
        forall|i: int| #![trigger fs[i]] 0 <= i < fs.len() ==> fs[i].name@ == gs[i].name@,
    ensures
        map_shape(keys, gs),
{
    assert(names_of(fs) =~= names_of(gs)) by {
        assert forall|i: int| 0 <= i < fs.len() implies names_of(fs)[i] == names_of(gs)[i] by {
            assert(fs[i].name@ == gs[i].name@);
        }
    }
    assert forall|i: int, j: int| 0 <= i < j < gs.len() implies name_lt(#[trigger] gs[i].name@, #[trigger] gs[j].name@) by {
        assert(fs[i].name@ == gs[i].name@);
        assert(fs[j].name@ == gs[j].name@);
    }
    assert forall|j: int| #![trigger gs[j]] 0 <= j < gs.len() implies 0 <= last_key_index(keys, gs[j].name@, keys.len() as int) by {
        assert(fs[j].name@ == gs[j].name@);
    }
}

proof fn lemma_block_reading_respects_sameness(tb: crate::ast::TableBlock, fs: Seq<EditField>, gs: Seq<EditField>)
    requires
        block_reads_as(tb, fs),
        fs.len() == gs.len(),
        forall|i: int|
            #![trigger fs[i]]
            0 <= i < fs.len() ==> fs[i].name@ == gs[i].name@ && same_value(fs[i].value, gs[i].value),
    ensures
        block_reads_as(tb, gs),
    decreases tb, 1nat,
{
    let keys = crate::edit::reading::entry_keys(tb.entries@);
    lemma_fields_follow(keys, fs, gs);
    assert forall|j: int| #![trigger gs[j]] 0 <= j < gs.len() implies {
        let i = last_key_index(keys, gs[j].name@, tb.entries@.len() as int);
        0 <= i < tb.entries@.len() && entry_reads_as(tb.entries@[i], gs[j].value)
    } by {
        assert(fs[j].name@ == gs[j].name@ && same_value(fs[j].value, gs[j].value));
        let i = last_key_index(keys, fs[j].name@, tb.entries@.len() as int);
        lemma_entry_reading_respects_sameness(tb.entries@[i], fs[j].value, gs[j].value);
    }
}

proof fn lemma_entry_reading_respects_sameness(e: TableEntry, v: EditValue, w: EditValue)
    requires
        entry_reads_as(e, v),
        same_value(v, w),
    ensures
        entry_reads_as(e, w),
    decreases e, 0nat,
{
    match e {
        TableEntry::KeyValue(kv) => {
            lemma_reading_respects_sameness(kv.value, v, w);
        },
        TableEntry::TableBlock(nb) => {
            lemma_block_reading_respects_sameness(nb, v->Table_0@, w->Table_0@);
        },
        _ => {},
    }
}

} // verus!
