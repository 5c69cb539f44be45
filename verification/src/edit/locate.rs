//! Finding where an edit lands in a parsed tree: the table block or `[[name]]`
//! element a path leads to, and the fields in it.

use vstd::prelude::*;
use crate::ast::{first_key_value, key_text, ArrayTable, KeyValue, TableBlock, TableEntry, Value};
use crate::edit::equality::{lemma_reading_is_unique, lemma_reading_respects_sameness};
use crate::edit::outcome::EditRefusal;
use crate::edit::plan::PathSegment;
use crate::edit::reading::{readable, reads_as};
use crate::edit::value::{EditField, EditValue};
use crate::text::{str_eq, to_owned_string};

verus! {

broadcast use vstd::string::group_string_axioms;

/// The index of the first item for which `p` holds.
pub open spec fn first_index<T>(s: Seq<T>, p: spec_fn(T) -> bool) -> Option<int>
    decreases s.len(),
{
    if s.len() == 0 {
        None
    } else if p(s[0]) {
        Some(0)
    } else {
        match first_index(s.drop_first(), p) {
            Some(i) => Some(i + 1),
            None => None,
        }
    }
}

/// Once the first `i` items fail `p`, the search ends at `i` if `p` holds
/// there, and finds nothing if `i` is the end.
pub proof fn lemma_first_index<T>(s: Seq<T>, p: spec_fn(T) -> bool, i: int)
    requires
        0 <= i <= s.len(),
        forall|q: int| 0 <= q < i ==> !p(#[trigger] s[q]),
    ensures
        i < s.len() && p(s[i]) ==> first_index(s, p) == Some(i),
        i == s.len() ==> first_index(s, p) is None,
    decreases i,
{
    if i > 0 {
        assert(!p(s[0]));
        let t = s.drop_first();
        assert forall|q: int| 0 <= q < i - 1 implies !p(#[trigger] t[q]) by {
            assert(t[q] == s[q + 1]);
        }
        lemma_first_index(t, p, i - 1);
        if i < s.len() {
            assert(t[i - 1] == s[i]);
        }
    }
}

/// What the first match is: an item for which `p` holds, after items for
/// which it does not.
pub proof fn lemma_first_index_found<T>(s: Seq<T>, p: spec_fn(T) -> bool)
    ensures
        match first_index(s, p) {
            Some(i) => 0 <= i < s.len() && p(s[i]) && forall|q: int| 0 <= q < i ==> !p(#[trigger] s[q]),
            None => forall|q: int| 0 <= q < s.len() ==> !p(#[trigger] s[q]),
        },
    decreases s.len(),
{
    if s.len() > 0 && !p(s[0]) {
        let t = s.drop_first();
        lemma_first_index_found(t, p);
        match first_index(t, p) {
            Some(i) => {
                assert forall|q: int| 0 <= q < i + 1 implies !p(#[trigger] s[q]) by {
                    if q > 0 {
                        assert(s[q] == t[q - 1]);
                    }
                }
                assert(s[i + 1] == t[i]);
            },
            None => {
                assert forall|q: int| 0 <= q < s.len() implies !p(#[trigger] s[q]) by {
                    if q > 0 {
                        assert(s[q] == t[q - 1]);
                    }
                }
            },
        }
    }
}

/// Where an edit lands: a table block, or one element of a `[[name]]` list.
pub enum Place {
    Table(TableBlock),
    Item(ArrayTable),
}

/// A key-value pair named `name`.
pub open spec fn kv_named(name: Seq<char>) -> spec_fn(KeyValue) -> bool {
    |kv: KeyValue| key_text(kv.key) == name
}

/// The table block a key-value pair named `name` holds, if it holds one.
pub open spec fn kv_block(kv: KeyValue, name: Seq<char>) -> Option<TableBlock> {
    if key_text(kv.key) == name {
        match kv.value {
            Value::TableBlock(nb) => Some(nb),
            _ => None,
        }
    } else {
        None
    }
}

/// The table block an entry gives under `name`: a block of that name, or a
/// key-value pair of that name holding a block.
pub open spec fn entry_block(e: TableEntry, name: Seq<char>) -> Option<TableBlock> {
    match e {
        TableEntry::TableBlock(nb) => match nb.name {
            Some(n) => if n@ == name {
                Some(nb)
            } else {
                None
            },
            None => None,
        },
        TableEntry::KeyValue(kv) => kv_block(kv, name),
        _ => None,
    }
}

pub open spec fn entry_has_block(name: Seq<char>) -> spec_fn(TableEntry) -> bool {
    |e: TableEntry| entry_block(e, name) is Some
}

pub open spec fn kv_has_block(name: Seq<char>) -> spec_fn(KeyValue) -> bool {
    |kv: KeyValue| kv_block(kv, name) is Some
}

/// The first key-value pair named `name` in a place.
pub open spec fn place_kv(p: Place, name: Seq<char>) -> Option<KeyValue> {
    match p {
        Place::Table(t) => match first_key_value(t.entries@, name) {
            Some(i) => match t.entries@[i] {
                TableEntry::KeyValue(kv) => Some(kv),
                _ => None,
            },
            None => None,
        },
        Place::Item(a) => match first_index(a.entries@, kv_named(name)) {
            Some(i) => Some(a.entries@[i]),
            None => None,
        },
    }
}

/// The first table block a place gives under `name`.
pub open spec fn place_block(p: Place, name: Seq<char>) -> Option<TableBlock> {
    match p {
        Place::Table(t) => match first_index(t.entries@, entry_has_block(name)) {
            Some(i) => entry_block(t.entries@[i], name),
            None => None,
        },
        Place::Item(a) => match first_index(a.entries@, kv_has_block(name)) {
            Some(i) => kv_block(a.entries@[i], name),
            None => None,
        },
    }
}

/// Whether some pair of `kvs` is named as `f` and reads as its value.
pub open spec fn has_field(kvs: Seq<KeyValue>, f: EditField) -> bool {
    exists|k: int|
        0 <= k < kvs.len() && key_text(#[trigger] kvs[k].key) == f.name@ && readable(kvs[k].value) && reads_as(
            kvs[k].value,
            f.value,
        )
}

/// Whether a `[[key]]` element holds every field of `fields`.
pub open spec fn element_hit(a: ArrayTable, key: Seq<char>, fields: Seq<EditField>) -> bool {
    key_text(a.key) == key && forall|f: int| 0 <= f < fields.len() ==> #[trigger] has_field(a.entries@, fields[f])
}

/// The `[[key]]` elements among `es` that hold every field of `fields`, in order.
pub open spec fn table_hits(es: Seq<TableEntry>, key: Seq<char>, fields: Seq<EditField>) -> Seq<ArrayTable>
    decreases es.len(),
{
    if es.len() == 0 {
        Seq::empty()
    } else {
        let rest = table_hits(es.drop_last(), key, fields);
        match es.last() {
            TableEntry::ArrayTable(a) => if element_hit(a, key, fields) {
                rest.push(a)
            } else {
                rest
            },
            _ => rest,
        }
    }
}

/// The elements a named-list step picks in a place: none inside an element.
pub open spec fn place_hits(p: Place, key: Seq<char>, fields: Seq<EditField>) -> Seq<ArrayTable> {
    match p {
        Place::Table(t) => table_hits(t.entries@, key, fields),
        Place::Item(_) => Seq::empty(),
    }
}

/// Where a path step leads, or why it leads nowhere.
pub enum Reach {
    At(Place),
    Missing,
    /// the step names a field that is not a table
    NotATable(Seq<char>),
    /// a named-list step picks this many elements
    Ambiguous(nat),
}

/// Where one step leads from a place.
pub open spec fn step(p: Place, seg: PathSegment) -> Reach {
    match seg {
        PathSegment::Key(name) => match place_block(p, name@) {
            Some(b) => Reach::At(Place::Table(b)),
            None => if place_kv(p, name@) is Some {
                Reach::NotATable(name@)
            } else {
                Reach::Missing
            },
        },
        PathSegment::Named { key, match_fields } => {
            let hits = place_hits(p, key@, match_fields@);
            if hits.len() == 0 {
                Reach::Missing
            } else if hits.len() == 1 {
                Reach::At(Place::Item(hits[0]))
            } else {
                Reach::Ambiguous(hits.len())
            }
        },
    }
}

/// Where the steps of `segs` lead from a place, one after another.
pub open spec fn reach(p: Place, segs: Seq<PathSegment>) -> Reach
    decreases segs.len(),
{
    if segs.len() == 0 {
        Reach::At(p)
    } else {
        match step(p, segs[0]) {
            Reach::At(q) => reach(q, segs.drop_first()),
            other => other,
        }
    }
}

/// Why a path cannot go through a field that is not a table.
pub open spec fn not_a_table_reason(name: Seq<char>) -> Seq<char> {
    "字段 '"@ + name + "' 不是表，无法继续下钻"@
}

/// A place in a parsed tree.
#[derive(Clone, Copy)]
pub enum Scope<'a> {
    Table(&'a TableBlock),
    Item(&'a ArrayTable),
}

impl<'a> Scope<'a> {
    pub open spec fn place(self) -> Place {
        match self {
            Scope::Table(t) => Place::Table(*t),
            Scope::Item(a) => Place::Item(*a),
        }
    }

    /// The first key-value pair named `name` here.
    pub fn find_key_value(&self, name: &str) -> (r: Option<&'a KeyValue>)
        ensures
            match r {
                Some(kv) => place_kv(self.place(), name@) == Some(*kv),
                None => place_kv(self.place(), name@) is None,
            },
    {
        match *self {
            Scope::Table(t) => t.get(name),
            Scope::Item(a) => {
                let ghost p = kv_named(name@);
                let mut i: usize = 0;
                while i < a.entries.len()
                    invariant
                        i <= a.entries@.len(),
                        p == kv_named(name@),
                        self.place() == Place::Item(*a),
                        forall|q: int| 0 <= q < i ==> !p(#[trigger] a.entries@[q]),
                    decreases a.entries@.len() - i,
                {
                    if str_eq(a.entries[i].key.as_str(), name) {
                        proof {
                            lemma_first_index(a.entries@, p, i as int);
                        }
                        return Some(&a.entries[i]);
                    }
                    i = i + 1;
                }
                proof {
                    lemma_first_index(a.entries@, p, i as int);
                }
                None
            },
        }
    }

    /// The first table block here under `name`.
    pub fn find_table_block(&self, name: &str) -> (r: Option<&'a TableBlock>)
        ensures
            match r {
                Some(b) => place_block(self.place(), name@) == Some(*b),
                None => place_block(self.place(), name@) is None,
            },
    {
        match *self {
            Scope::Table(t) => {
                let ghost p = entry_has_block(name@);
                let mut i: usize = 0;
                while i < t.entries.len()
                    invariant
                        i <= t.entries@.len(),
                        p == entry_has_block(name@),
                        self.place() == Place::Table(*t),
                        forall|q: int| 0 <= q < i ==> !p(#[trigger] t.entries@[q]),
                    decreases t.entries@.len() - i,
                {
                    match &t.entries[i] {
                        TableEntry::TableBlock(nb) => match &nb.name {
                            Some(n) => if str_eq(n.as_str(), name) {
                                proof {
                                    lemma_first_index(t.entries@, p, i as int);
                                }
                                return Some(nb);
                            },
                            None => {},
                        },
                        TableEntry::KeyValue(kv) => if str_eq(kv.key.as_str(), name) {
                            match &kv.value {
                                Value::TableBlock(nb) => {
                                    proof {
                                        lemma_first_index(t.entries@, p, i as int);
                                    }
                                    return Some(nb);
                                },
                                _ => {},
                            }
                        },
                        _ => {},
                    }
                    i = i + 1;
                }
                proof {
                    lemma_first_index(t.entries@, p, i as int);
                }
                None
            },
            Scope::Item(a) => {
                let ghost p = kv_has_block(name@);
                let mut i: usize = 0;
                while i < a.entries.len()
                    invariant
                        i <= a.entries@.len(),
                        p == kv_has_block(name@),
                        self.place() == Place::Item(*a),
                        forall|q: int| 0 <= q < i ==> !p(#[trigger] a.entries@[q]),
                    decreases a.entries@.len() - i,
                {
                    if str_eq(a.entries[i].key.as_str(), name) {
                        match &a.entries[i].value {
                            Value::TableBlock(nb) => {
                                proof {
                                    lemma_first_index(a.entries@, p, i as int);
                                }
                                return Some(nb);
                            },
                            _ => {},
                        }
                    }
                    i = i + 1;
                }
                proof {
                    lemma_first_index(a.entries@, p, i as int);
                }
                None
            },
        }
    }
}

/// Whether some pair of `kvs` is named as `f` and reads as its value.
fn holds_field(kvs: &Vec<KeyValue>, f: &EditField) -> (r: bool)
    ensures
        r == has_field(kvs@, *f),
{
    let mut k: usize = 0;
    while k < kvs.len()
        invariant
            k <= kvs@.len(),
            forall|q: int|
                0 <= q < k ==> !(key_text(#[trigger] kvs@[q].key) == f.name@ && readable(kvs@[q].value) && reads_as(
                    kvs@[q].value,
                    f.value,
                )),
        decreases kvs@.len() - k,
    {
        if str_eq(kvs[k].key.as_str(), f.name.as_str()) {
            match EditValue::from_ast_value(&kvs[k].value) {
                Some(v) => {
                    if v.same_as(&f.value) {
                        proof {
                            lemma_reading_respects_sameness(kvs@[k as int].value, v, f.value);
                        }
                        return true;
                    } else {
                        proof {
                            if reads_as(kvs@[k as int].value, f.value) {
                                lemma_reading_is_unique(kvs@[k as int].value, v, f.value);
                            }
                        }
                    }
                },
                None => {},
            }
        }
        k = k + 1;
    }
    false
}

/// Whether a `[[key]]` element holds every field of `fields`.
fn hits(a: &ArrayTable, key: &str, fields: &Vec<EditField>) -> (r: bool)
    ensures
        r == element_hit(*a, key@, fields@),
{
    if !str_eq(a.key.as_str(), key) {
        return false;
    }
    let mut f: usize = 0;
    while f < fields.len()
        invariant
            f <= fields@.len(),
            forall|q: int| 0 <= q < f ==> #[trigger] has_field(a.entries@, fields@[q]),
        decreases fields@.len() - f,
    {
        if !holds_field(&a.entries, &fields[f]) {
            return false;
        }
        f = f + 1;
    }
    true
}

/// The `[[key]]` elements here that hold every field of `fields`.
pub(crate) fn match_array_elements<'a>(scope: &Scope<'a>, key: &str, fields: &Vec<EditField>) -> (r: Vec<&'a ArrayTable>)
    ensures
        r@.len() == place_hits(scope.place(), key@, fields@).len(),
        forall|k: int| 0 <= k < r@.len() ==> *(#[trigger] r@[k]) == place_hits(scope.place(), key@, fields@)[k],
{
    let mut r: Vec<&'a ArrayTable> = Vec::new();
    match *scope {
        Scope::Table(t) => {
            let mut i: usize = 0;
            while i < t.entries.len()
                invariant
                    i <= t.entries@.len(),
                    r@.len() == table_hits(t.entries@.take(i as int), key@, fields@).len(),
                    forall|k: int|
                        0 <= k < r@.len() ==> *(#[trigger] r@[k]) == table_hits(t.entries@.take(i as int), key@, fields@)[k],
                decreases t.entries@.len() - i,
            {
                proof {
                    assert(t.entries@.take(i + 1).drop_last() == t.entries@.take(i as int));
                    assert(t.entries@.take(i + 1).last() == t.entries@[i as int]);
                }
                match &t.entries[i] {
                    TableEntry::ArrayTable(a) => {
                        if hits(a, key, fields) {
                            r.push(a);
                        }
                    },
                    _ => {},
                }
                i = i + 1;
            }
            proof {
                assert(t.entries@.take(t.entries@.len() as int) == t.entries@);
            }
        },
        Scope::Item(_) => {},
    }
    r
}

/// Follows the first `count` steps of `segs` from the root; a step that leads
/// nowhere is refused under `label`.
pub fn resolve_container<'a>(root: &'a TableBlock, segs: &Vec<PathSegment>, count: usize, label: &str) -> (r: Result<Scope<'a>, EditRefusal>)
    requires
        count <= segs@.len(),
    ensures
        match reach(Place::Table(*root), segs@.take(count as int)) {
            Reach::At(p) => r matches Ok(s) && s.place() == p,
            Reach::Missing => r matches Err(EditRefusal::TargetNotFound { path }) && path@ == label@,
            Reach::NotATable(name) => r matches Err(EditRefusal::UnsupportedTarget { path, reason }) && path@ == label@
                && reason@ == not_a_table_reason(name),
            Reach::Ambiguous(n) => r matches Err(EditRefusal::TargetAmbiguous { path, matches }) && path@ == label@
                && matches == n,
        },
{
    let ghost all = segs@.take(count as int);
    let ghost start = Place::Table(*root);
    let mut scope = Scope::Table(root);
    let mut i: usize = 0;
    assert(all.skip(0) == all);
    while i < count
        invariant
            i <= count <= segs@.len(),
            all == segs@.take(count as int),
            start == Place::Table(*root),
            reach(start, all) == reach(scope.place(), all.skip(i as int)),
        decreases count - i,
    {
        proof {
            assert(all.skip(i as int)[0] == segs@[i as int]);
            assert(all.skip(i as int).drop_first() == all.skip(i + 1));
        }
        match &segs[i] {
            PathSegment::Key(name) => match scope.find_table_block(name.as_str()) {
                Some(b) => {
                    scope = Scope::Table(b);
                },
                None => {
                    if scope.find_key_value(name.as_str()).is_some() {
                        let mut reason = to_owned_string("字段 '");
                        reason.push_str(name.as_str());
                        reason.push_str("' 不是表，无法继续下钻");
                        return Err(EditRefusal::UnsupportedTarget { path: to_owned_string(label), reason });
                    }
                    return Err(EditRefusal::TargetNotFound { path: to_owned_string(label) });
                },
            },
            PathSegment::Named { key, match_fields } => {
                let found = match_array_elements(&scope, key.as_str(), match_fields);
                if found.len() == 0 {
                    return Err(EditRefusal::TargetNotFound { path: to_owned_string(label) });
                } else if found.len() == 1 {
                    scope = Scope::Item(found[0]);
                } else {
                    return Err(EditRefusal::TargetAmbiguous { path: to_owned_string(label), matches: found.len() });
                }
            },
        }
        i = i + 1;
    }
    proof {
        assert(all.skip(count as int).len() == 0);
    }
    Ok(scope)
}


/// Where an entry starts.
pub open spec fn entry_start(e: TableEntry) -> usize {
    match e {
        TableEntry::KeyValue(kv) => kv.span.start,
        TableEntry::TableBlock(t) => t.span.start,
        TableEntry::ArrayTable(a) => a.span.start,
        TableEntry::IncludeDirective(d) => d.span.start,
        TableEntry::Comment(c) => c.span.start,
    }
}

/// Where an entry ends.
pub open spec fn entry_end(e: TableEntry) -> usize {
    match e {
        TableEntry::KeyValue(kv) => kv.span.end,
        TableEntry::TableBlock(t) => t.span.end,
        TableEntry::ArrayTable(a) => a.span.end,
        TableEntry::IncludeDirective(d) => d.span.end,
        TableEntry::Comment(c) => c.span.end,
    }
}

/// An entry that starts past the very beginning of the text.
pub open spec fn starts_inside() -> spec_fn(TableEntry) -> bool {
    |e: TableEntry| entry_start(e) > 0
}

/// Where the first entry of a place starts, when it starts past the very
/// beginning of the text (a place's first pair only, inside an element).
pub open spec fn first_offset(p: Place) -> Option<usize> {
    match p {
        Place::Table(t) => match first_index(t.entries@, starts_inside()) {
            Some(i) => Some(entry_start(t.entries@[i])),
            None => None,
        },
        Place::Item(a) => if a.entries@.len() > 0 && a.entries@[0].span.start > 0 {
            Some(a.entries@[0].span.start)
        } else {
            None
        },
    }
}

/// The furthest end of the entries that end past the very beginning.
pub open spec fn max_end(es: Seq<TableEntry>) -> Option<usize>
    decreases es.len(),
{
    if es.len() == 0 {
        None
    } else {
        let rest = max_end(es.drop_last());
        let e = entry_end(es.last());
        if e > 0 {
            match rest {
                Some(m) => Some(if m >= e { m } else { e }),
                None => Some(e),
            }
        } else {
            rest
        }
    }
}

/// Where the entries of a place end (a place's last pair only, inside an
/// element), when that is past the very beginning.
pub open spec fn last_end(p: Place) -> Option<usize> {
    match p {
        Place::Table(t) => max_end(t.entries@),
        Place::Item(a) => if a.entries@.len() > 0 && a.entries@.last().span.end > 0 {
            Some(a.entries@.last().span.end)
        } else {
            None
        },
    }
}

impl<'a> Scope<'a> {
    /// Where the first entry starts, past the very beginning.
    pub fn first_entry_offset(&self) -> (r: Option<usize>)
        ensures
            r == first_offset(self.place()),
    {
        match *self {
            Scope::Table(t) => {
                let ghost p = starts_inside();
                let mut i: usize = 0;
                while i < t.entries.len()
                    invariant
                        i <= t.entries@.len(),
                        p == starts_inside(),
                        self.place() == Place::Table(*t),
                        forall|q: int| 0 <= q < i ==> !p(#[trigger] t.entries@[q]),
                    decreases t.entries@.len() - i,
                {
                    let start = match &t.entries[i] {
                        TableEntry::KeyValue(kv) => kv.span.start,
                        TableEntry::TableBlock(b) => b.span.start,
                        TableEntry::ArrayTable(a) => a.span.start,
                        TableEntry::IncludeDirective(d) => d.span.start,
                        TableEntry::Comment(c) => c.span.start,
                    };
                    if start > 0 {
                        proof {
                            lemma_first_index(t.entries@, p, i as int);
                        }
                        return Some(start);
                    }
                    i = i + 1;
                }
                proof {
                    lemma_first_index(t.entries@, p, i as int);
                }
                None
            },
            Scope::Item(a) => {
                if a.entries.len() > 0 && a.entries[0].span.start > 0 {
                    Some(a.entries[0].span.start)
                } else {
                    None
                }
            },
        }
    }

    /// Where the entries end, past the very beginning.
    pub fn last_entry_end(&self) -> (r: Option<usize>)
        ensures
            r == last_end(self.place()),
    {
        match *self {
            Scope::Table(t) => {
                let mut best: Option<usize> = None;
                let mut i: usize = 0;
                while i < t.entries.len()
                    invariant
                        i <= t.entries@.len(),
                        best == max_end(t.entries@.take(i as int)),
                    decreases t.entries@.len() - i,
                {
                    proof {
                        assert(t.entries@.take(i + 1).drop_last() == t.entries@.take(i as int));
                        assert(t.entries@.take(i + 1).last() == t.entries@[i as int]);
                    }
                    let end = match &t.entries[i] {
                        TableEntry::KeyValue(kv) => kv.span.end,
                        TableEntry::TableBlock(b) => b.span.end,
                        TableEntry::ArrayTable(a) => a.span.end,
                        TableEntry::IncludeDirective(d) => d.span.end,
                        TableEntry::Comment(c) => c.span.end,
                    };
                    if end > 0 {
                        best = match best {
                            Some(m) => Some(if m >= end { m } else { end }),
                            None => Some(end),
                        };
                    }
                    i = i + 1;
                }
                proof {
                    assert(t.entries@.take(t.entries@.len() as int) == t.entries@);
                }
                best
            },
            Scope::Item(a) => {
                let n = a.entries.len();
                if n > 0 && a.entries[n - 1].span.end > 0 {
                    Some(a.entries[n - 1].span.end)
                } else {
                    None
                }
            },
        }
    }
}

} // verus!
