//! Writing contract values into the tree and reading them back.

use vstd::prelude::*;
use crate::ast::{KeyValue, Value};
use crate::edit::reading::{kv_keys, last_key_index, map_shape, name_lt, names_of, names_sorted, readable, reads_as};
use crate::edit::value::{EditField, EditValue};

verus! {

/// Tables hold their fields in name order, each name once, at every level.
pub open spec fn well_formed_value(v: EditValue) -> bool
    decreases v,
{
    match v {
        EditValue::Array(items) => forall|i: int| 0 <= i < items@.len() ==> well_formed_value(#[trigger] items@[i]),
        EditValue::Table(fs) => names_sorted(fs@) && forall|i: int|
            0 <= i < fs@.len() ==> well_formed_value(#[trigger] fs@[i].value),
        _ => true,
    }
}

proof fn lemma_items_render_at(vs: Seq<EditValue>, xs: Seq<Value>)
    requires
        crate::edit::value::items_render_as(vs, xs),
    ensures
        vs.len() == xs.len(),
        forall|i: int| 0 <= i < vs.len() ==> crate::edit::value::renders_as(#[trigger] vs[i], xs[i]),
    decreases vs.len(),
{
    if vs.len() > 0 {
        lemma_items_render_at(vs.drop_last(), xs.drop_last());
        assert forall|i: int| 0 <= i < vs.len() implies crate::edit::value::renders_as(#[trigger] vs[i], xs[i]) by {
            if i < vs.len() - 1 {
                assert(vs[i] == vs.drop_last()[i] && xs[i] == xs.drop_last()[i]);
            }
        }
    }
}

proof fn lemma_fields_render_at(fs: Seq<EditField>, kvs: Seq<KeyValue>)
    requires
        crate::edit::value::fields_render_as(fs, kvs),
    ensures
        fs.len() == kvs.len(),
        forall|i: int| 0 <= i < fs.len() ==> crate::edit::value::field_renders_as(#[trigger] fs[i], kvs[i]),
    decreases fs.len(),
{
    if fs.len() > 0 {
        lemma_fields_render_at(fs.drop_last(), kvs.drop_last());
        assert forall|i: int| 0 <= i < fs.len() implies crate::edit::value::field_renders_as(#[trigger] fs[i], kvs[i]) by {
            if i < fs.len() - 1 {
                assert(fs[i] == fs.drop_last()[i] && kvs[i] == kvs.drop_last()[i]);
            }
        }
    }
}

proof fn lemma_last_key_is_own(keys: Seq<Seq<char>>, j: int, m: int)
    requires
        0 <= j < m <= keys.len(),
        forall|k: int| j < k < m ==> keys[k] != keys[j],
    ensures
        last_key_index(keys, keys[j], m) == j,
    decreases m,
{
    if m - 1 > j {
        lemma_last_key_is_own(keys, j, m - 1);
    }
}

/// A contract value written into the tree reads back as itself: whatever
/// [`EditValue::to_ast_value`] makes of a well-formed value,
/// [`EditValue::from_ast_value`] reads as that value.
pub proof fn lemma_rendered_reads_back(v: EditValue, a: Value)
    requires
        crate::edit::value::renders_as(v, a),
        well_formed_value(v),
    ensures
        readable(a),
        reads_as(a, v),
    decreases v,
{
    match v {
        EditValue::Array(items) => {
            if let Value::Array(arr) = a {
                lemma_items_render_at(items@, arr.elements@);
                assert forall|i: int| 0 <= i < items@.len() implies readable(#[trigger] arr.elements@[i]) && reads_as(
                    arr.elements@[i],
                    items@[i],
                ) by {
                    lemma_rendered_reads_back(items@[i], arr.elements@[i]);
                }
            }
        },
        EditValue::Table(fs) => {
            if let Value::InlineTable(t) = a {
                let kvs = t.entries@;
                let keys = kv_keys(kvs);
                lemma_fields_render_at(fs@, kvs);
                assert forall|j: int| 0 <= j < fs@.len() implies keys[j] == fs@[j].name@ by {}
                assert forall|j: int| 0 <= j < fs@.len() implies #[trigger] last_key_index(keys, fs@[j].name@, kvs.len() as int) == j by {
                    assert forall|k: int| j < k < kvs.len() implies keys[k] != keys[j] by {
                        assert(name_lt(fs@[j].name@, fs@[k].name@));
                    }
                    lemma_last_key_is_own(keys, j, kvs.len() as int);
                }
                assert forall|j: int| 0 <= j < fs@.len() implies readable(#[trigger] kvs[j].value) && reads_as(
                    kvs[j].value,
                    fs@[j].value,
                ) by {
                    lemma_rendered_reads_back(fs@[j].value, kvs[j].value);
                }
                assert forall|i: int| 0 <= i < keys.len() implies names_of(fs@).contains(#[trigger] keys[i]) by {
                    assert(names_of(fs@)[i] == keys[i]);
                }
                assert(map_shape(keys, fs@));
            }
        },
        _ => {},
    }
}

} // verus!
