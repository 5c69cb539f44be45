//! Reading a document for the verdict on its own: the field paths it has,
//! and the value at a path, found without the edit path's own lookup.

use vstd::prelude::*;
use crate::ast::{key_text, Ast, KeyValue, TableBlock, TableEntry};
use crate::bench::task::TargetExpect;
use crate::edit::gate::{insert_sorted, strictly_sorted, texts};
use crate::edit::locate::{
    first_index, lemma_first_index, match_array_elements, place_hits, place_kv, Place, Scope,
};
use crate::edit::plan::PathSegment;
use crate::edit::reading::{readable, reads_as};
use crate::edit::value::{json_text, EditField, EditValue};
use crate::parser::join_path;
use crate::text::{decimal_digits, push_decimal, str_eq, to_owned_string};

verus! {

broadcast use vstd::string::group_string_axioms;

/// The paths of the fields of entries under `prefix`: every pair, every
/// named block and what it holds, every `[[name]]` list and the pairs of
/// each element, numbered.
pub open spec fn entries_keys(es: Seq<TableEntry>, prefix: Seq<char>) -> Set<Seq<char>>
    decreases es, 1nat,
{
    if es.len() == 0 {
        Set::empty()
    } else {
        entries_keys(es.drop_last(), prefix).union(entry_key_paths(es[es.len() - 1], prefix))
    }
}

/// The field paths of a table block under `prefix`.
pub open spec fn block_keys(t: TableBlock, prefix: Seq<char>) -> Set<Seq<char>> {
    entries_keys(t.entries@, prefix)
}

/// The path of an element's pair: `list[index].key`.
pub open spec fn element_key(list: Seq<char>, index: int, key: Seq<char>) -> Seq<char> {
    list + seq!['['] + decimal_digits(index as nat) + seq![']', '.'] + key
}

/// The paths of the pairs of one element of the list at `list`.
pub open spec fn element_keys(kvs: Seq<KeyValue>, list: Seq<char>) -> Set<Seq<char>>
    decreases kvs.len(),
{
    if kvs.len() == 0 {
        Set::empty()
    } else {
        element_keys(kvs.drop_last(), list).insert(element_key(list, kvs.len() - 1, key_text(kvs.last().key)))
    }
}

pub open spec fn entry_key_paths(e: TableEntry, prefix: Seq<char>) -> Set<Seq<char>>
    decreases e, 0nat,
{
    match e {
        TableEntry::KeyValue(kv) => set![join_path(prefix, key_text(kv.key))],
        TableEntry::TableBlock(b) => match b.name {
            Some(n) => set![join_path(prefix, n@)].union(entries_keys(b.entries@, join_path(prefix, n@))),
            None => Set::empty(),
        },
        TableEntry::ArrayTable(a) => {
            let p = join_path(prefix, key_text(a.key));
            set![p].union(element_keys(a.entries@, p))
        },
        _ => Set::empty(),
    }
}

fn join(prefix: &str, name: &str) -> (r: String)
    ensures
        r@ == join_path(prefix@, name@),
{
    let mut r = to_owned_string(prefix);
    if !prefix.is_empty() {
        r.push('.');
    }
    r.push_str(name);
    proof {
        if prefix@.len() == 0 {
            assert(r@ =~= name@);
        }
    }
    r
}

/// Adds the field paths of `t` under `prefix` to the ascending list `out`.
fn walk_keys(t: &TableBlock, prefix: &str, out: &mut Vec<String>)
    requires
        strictly_sorted(texts(old(out)@)),
    ensures
        strictly_sorted(texts(final(out)@)),
        forall|x: Seq<char>| #[trigger] texts(final(out)@).contains(x) <==> (texts(old(out)@).contains(x) || block_keys(
            *t,
            prefix@,
        ).contains(x)),
    decreases t, 1nat,
{
    let ghost start = texts(out@);
    let mut i: usize = 0;
    while i < t.entries.len()
        invariant
            i <= t.entries@.len(),
            strictly_sorted(texts(out@)),
            forall|x: Seq<char>| #[trigger] texts(out@).contains(x) <==> (start.contains(x) || entries_keys(
                t.entries@.take(i as int),
                prefix@,
            ).contains(x)),
        decreases t.entries@.len() - i,
    {
        let ghost before = texts(out@);
        let ghost e = t.entries@[i as int];
        proof {
            assert(t.entries@.take(i + 1).drop_last() == t.entries@.take(i as int));
            assert(t.entries@.take(i + 1)[i as int] == e);
        }
        match &t.entries[i] {
            TableEntry::KeyValue(kv) => {
                insert_sorted(out, join(prefix, kv.key.as_str()));
            },
            TableEntry::TableBlock(b) => match &b.name {
                Some(n) => {
                    let path = join(prefix, n.as_str());
                    insert_sorted(out, to_owned_string(path.as_str()));
                    walk_keys(b, path.as_str(), out);
                },
                None => {},
            },
            TableEntry::ArrayTable(a) => {
                let path = join(prefix, a.key.as_str());
                let ghost p = path@;
                insert_sorted(out, to_owned_string(path.as_str()));
                let ghost mid = texts(out@);
                let mut k: usize = 0;
                while k < a.entries.len()
                    invariant
                        k <= a.entries@.len(),
                        path@ == p,
                        strictly_sorted(texts(out@)),
                        forall|x: Seq<char>| #[trigger] texts(out@).contains(x) <==> (mid.contains(x) || element_keys(
                            a.entries@.take(k as int),
                            p,
                        ).contains(x)),
                    decreases a.entries@.len() - k,
                {
                    proof {
                        assert(a.entries@.take(k + 1).drop_last() == a.entries@.take(k as int));
                        assert(a.entries@.take(k + 1).last() == a.entries@[k as int]);
                    }
                    let mut name = to_owned_string(path.as_str());
                    name.push('[');
                    push_decimal(&mut name, k as u64);
                    name.push(']');
                    name.push('.');
                    name.push_str(a.entries[k].key.as_str());
                    proof {
                        assert(name@ == element_key(p, k as int, key_text(a.entries@[k as int].key)));
                    }
                    insert_sorted(out, name);
                    k = k + 1;
                }
                proof {
                    assert(a.entries@.take(a.entries@.len() as int) == a.entries@);
                }
            },
            _ => {},
        }
        proof {
            assert forall|x: Seq<char>| #[trigger] texts(out@).contains(x) <==> (before.contains(x) || entry_key_paths(
                e,
                prefix@,
            ).contains(x)) by {
                match e {
                    TableEntry::TableBlock(b) => {
                        if b.name is Some {
                            assert(entry_key_paths(e, prefix@) == set![join_path(prefix@, b.name->Some_0@)].union(
                                block_keys(b, join_path(prefix@, b.name->Some_0@)),
                            ));
                        }
                    },
                    _ => {},
                }
            }
            assert(entries_keys(t.entries@.take(i + 1), prefix@) == entries_keys(t.entries@.take(i as int), prefix@).union(
                entry_key_paths(e, prefix@),
            ));
        }
        i = i + 1;
    }
    proof {
        assert(t.entries@.take(t.entries@.len() as int) == t.entries@);
    }
}

/// The field paths of a text: none when it does not parse, else those of
/// its tree.
pub open spec fn keys_of(text: Seq<char>, ks: Set<Seq<char>>) -> bool {
    ||| ks == Set::<Seq<char>>::empty() && exists|e: crate::error::VerseconfError|
        #[trigger] crate::parser::parse_failure(text, e)
    ||| crate::parser::parses(text) && exists|ast: Ast|
        ast.source.content@ == text && ks == #[trigger] block_keys(ast.root, Seq::empty())
}

/// The field paths of a text, ascending; none when it does not parse.
pub fn collect_key_paths(text: &str) -> (r: Vec<String>)
    requires
        text@.len() < u32::MAX,
    ensures
        strictly_sorted(texts(r@)),
        keys_of(text@, texts(r@).to_set()),
{
    let mut r: Vec<String> = Vec::new();
    proof {
        assert(texts(r@) =~= Seq::<Seq<char>>::empty());
    }
    match crate::parse(text) {
        Ok(ast) => {
            walk_keys(&ast.root, "", &mut r);
            proof {
                reveal_strlit("");
                assert(""@ =~= Seq::<char>::empty());
                assert forall|x: Seq<char>| texts(r@).to_set().contains(x) <==> block_keys(ast.root, Seq::empty()).contains(x) by {
                    assert(texts(r@).to_set().contains(x) <==> texts(r@).contains(x));
                }
                assert(texts(r@).to_set() =~= block_keys(ast.root, Seq::empty()));
            }
        },
        Err(e) => {
            proof {
                assert(texts(r@).to_set() =~= Set::<Seq<char>>::empty());
                assert(crate::parser::parse_failure(text@, e));
            }
        },
    }
    r
}


/// The first named block `name` among entries; pairs holding a block do
/// not count here.
pub open spec fn named_block(name: Seq<char>) -> spec_fn(TableEntry) -> bool {
    |e: TableEntry| e matches TableEntry::TableBlock(b) && b.name matches Some(n) && n@ == name
}

/// The block a key step leads to when the verdict reads a document.
pub open spec fn judge_block(p: Place, name: Seq<char>) -> Option<TableBlock> {
    match p {
        Place::Table(t) => match first_index(t.entries@, named_block(name)) {
            Some(i) => Some(t.entries@[i]->TableBlock_0),
            None => None,
        },
        Place::Item(_) => None,
    }
}

/// Where the steps lead when the verdict reads a document: a key step to a
/// named block, a named-list step to its one matching element.
pub open spec fn judge_reach(p: Place, segs: Seq<PathSegment>) -> Option<Place>
    decreases segs.len(),
{
    if segs.len() == 0 {
        Some(p)
    } else {
        let next = match segs[0] {
            PathSegment::Key(name) => match judge_block(p, name@) {
                Some(b) => Some(Place::Table(b)),
                None => None,
            },
            PathSegment::Named { key, match_fields } => {
                let hits = place_hits(p, key@, match_fields@);
                if hits.len() == 1 {
                    Some(Place::Item(hits[0]))
                } else {
                    None
                }
            },
        };
        match next {
            Some(q) => judge_reach(q, segs.drop_first()),
            None => None,
        }
    }
}

/// The pair a path names when the verdict reads a document.
pub open spec fn target_kv(root: TableBlock, path: Seq<PathSegment>) -> Option<crate::ast::KeyValue> {
    if path.len() == 0 {
        None
    } else {
        match path.last() {
            PathSegment::Key(name) => match judge_reach(Place::Table(root), path.drop_last()) {
                Some(p) => place_kv(p, name@),
                None => None,
            },
            PathSegment::Named { .. } => None,
        }
    }
}

fn find_named_block<'a>(t: &'a TableBlock, name: &str) -> (r: Option<&'a TableBlock>)
    ensures
        match r {
            Some(b) => judge_block(Place::Table(*t), name@) == Some(*b),
            None => judge_block(Place::Table(*t), name@) is None,
        },
{
    let ghost p = named_block(name@);
    let mut i: usize = 0;
    while i < t.entries.len()
        invariant
            i <= t.entries@.len(),
            p == named_block(name@),
            forall|q: int| 0 <= q < i ==> !p(#[trigger] t.entries@[q]),
        decreases t.entries@.len() - i,
    {
        match &t.entries[i] {
            TableEntry::TableBlock(b) => match &b.name {
                Some(n) => if str_eq(n.as_str(), name) {
                    proof {
                        lemma_first_index(t.entries@, p, i as int);
                    }
                    return Some(b);
                },
                None => {},
            },
            _ => {},
        }
        i = i + 1;
    }
    proof {
        lemma_first_index(t.entries@, p, i as int);
    }
    None
}

/// The value at `path`, read on its own: `None` when the path leads nowhere,
/// picks no single element, or names a value that cannot be read.
pub fn read_value_at(root: &TableBlock, path: &Vec<PathSegment>) -> (r: Option<EditValue>)
    ensures
        match target_kv(*root, path@) {
            Some(kv) => match r {
                Some(v) => readable(kv.value) && reads_as(kv.value, v),
                None => !readable(kv.value),
            },
            None => r is None,
        },
{
    let n = path.len();
    if n == 0 {
        return None;
    }
    let name = match &path[n - 1] {
        PathSegment::Key(name) => name,
        PathSegment::Named { .. } => {
            return None;
        },
    };
    let ghost parents = path@.drop_last();
    let mut scope = Scope::Table(root);
    let mut i: usize = 0;
    proof {
        assert(parents.skip(0) == parents);
    }
    while i < n - 1
        invariant
            n == path@.len() > 0,
            i <= n - 1,
            parents == path@.drop_last(),
            judge_reach(Place::Table(*root), parents) == judge_reach(scope.place(), parents.skip(i as int)),
        decreases n - 1 - i,
    {
        proof {
            assert(parents.skip(i as int)[0] == path@[i as int]);
            assert(parents.skip(i as int).drop_first() == parents.skip(i + 1));
        }
        match &path[i] {
            PathSegment::Key(step) => {
                let found = match scope {
                    Scope::Table(t) => find_named_block(t, step.as_str()),
                    Scope::Item(_) => None,
                };
                match found {
                    Some(b) => {
                        scope = Scope::Table(b);
                    },
                    None => {
                        return None;
                    },
                }
            },
            PathSegment::Named { key, match_fields } => {
                let hits = match_array_elements(&scope, key.as_str(), match_fields);
                if hits.len() != 1 {
                    return None;
                }
                scope = Scope::Item(hits[0]);
            },
        }
        i = i + 1;
    }
    proof {
        assert(parents.skip((n - 1) as int).len() == 0);
    }
    match scope.find_key_value(name.as_str()) {
        Some(kv) => EditValue::from_ast_value(&kv.value),
        None => None,
    }
}

/// How the verdict names a target in messages: steps joined by dots, a
/// named-list step as `key[name=value, ...]`.
pub open spec fn shown_criteria(fs: Seq<EditField>) -> Seq<char>
    decreases fs.len(),
{
    if fs.len() == 0 {
        Seq::empty()
    } else if fs.len() == 1 {
        fs[0].name@ + seq!['='] + json_text(fs[0].value)
    } else {
        shown_criteria(fs.drop_last()) + ", "@ + fs.last().name@ + seq!['='] + json_text(fs.last().value)
    }
}

pub open spec fn shown_segment(s: PathSegment) -> Seq<char> {
    match s {
        PathSegment::Key(name) => name@,
        PathSegment::Named { key, match_fields } => key@ + seq!['['] + shown_criteria(match_fields@) + seq![']'],
    }
}

pub open spec fn shown_path(segs: Seq<PathSegment>) -> Seq<char>
    decreases segs.len(),
{
    if segs.len() == 0 {
        Seq::empty()
    } else if segs.len() == 1 {
        shown_segment(segs[0])
    } else {
        shown_path(segs.drop_last()) + seq!['.'] + shown_segment(segs.last())
    }
}

/// A target as messages show it.
pub fn display_path(path: &Vec<PathSegment>) -> (s: String)
    ensures
        s@ == shown_path(path@),
{
    let mut out = String::new();
    let mut i: usize = 0;
    while i < path.len()
        invariant
            i <= path@.len(),
            out@ == shown_path(path@.take(i as int)),
        decreases path@.len() - i,
    {
        proof {
            assert(path@.take(i + 1).drop_last() == path@.take(i as int));
            assert(path@.take(i + 1).last() == path@[i as int]);
            assert(path@.take(i + 1)[0] == path@[0]);
        }
        if i > 0 {
            out.push('.');
        }
        match &path[i] {
            PathSegment::Key(name) => out.push_str(name.as_str()),
            PathSegment::Named { key, match_fields } => {
                out.push_str(key.as_str());
                out.push('[');
                let ghost head = out@;
                let mut k: usize = 0;
                while k < match_fields.len()
                    invariant
                        k <= match_fields@.len(),
                        out@ == head + shown_criteria(match_fields@.take(k as int)),
                    decreases match_fields@.len() - k,
                {
                    proof {
                        assert(match_fields@.take(k + 1).drop_last() == match_fields@.take(k as int));
                        assert(match_fields@.take(k + 1).last() == match_fields@[k as int]);
                        assert(match_fields@.take(k + 1)[0] == match_fields@[0]);
                    }
                    if k > 0 {
                        out.push_str(", ");
                    }
                    out.push_str(match_fields[k].name.as_str());
                    out.push('=');
                    let shown = match_fields[k].value.to_text();
                    out.push_str(shown.as_str());
                    k = k + 1;
                }
                proof {
                    assert(match_fields@.take(match_fields@.len() as int) == match_fields@);
                }
                out.push(']');
            },
        }
        i = i + 1;
    }
    proof {
        assert(path@.take(path@.len() as int) == path@);
    }
    out
}

/// A target as the field paths name it: a named-list step as `key[`, to be
/// matched as a prefix of the numbered element paths.
pub open spec fn rendered_path(segs: Seq<PathSegment>) -> Seq<char>
    decreases segs.len(),
{
    if segs.len() == 0 {
        Seq::empty()
    } else {
        let head = rendered_path(segs.drop_last());
        let sep = if head.len() == 0 { Seq::<char>::empty() } else { seq!['.'] };
        match segs.last() {
            PathSegment::Key(name) => head + sep + name@,
            PathSegment::Named { key, .. } => head + sep + key@ + seq!['['],
        }
    }
}

pub fn render_path(path: &Vec<PathSegment>) -> (s: String)
    ensures
        s@ == rendered_path(path@),
{
    let mut out = String::new();
    let mut i: usize = 0;
    while i < path.len()
        invariant
            i <= path@.len(),
            out@ == rendered_path(path@.take(i as int)),
        decreases path@.len() - i,
    {
        proof {
            assert(path@.take(i + 1).drop_last() == path@.take(i as int));
            assert(path@.take(i + 1).last() == path@[i as int]);
        }
        if !out.as_str().is_empty() {
            out.push('.');
        }
        match &path[i] {
            PathSegment::Key(name) => out.push_str(name.as_str()),
            PathSegment::Named { key, .. } => {
                out.push_str(key.as_str());
                out.push('[');
            },
        }
        i = i + 1;
    }
    proof {
        assert(path@.take(path@.len() as int) == path@);
    }
    out
}

/// The last step's name of each target.
pub open spec fn last_names(ts: Seq<TargetExpect>) -> Seq<Seq<char>>
    decreases ts.len(),
{
    if ts.len() == 0 {
        Seq::empty()
    } else {
        let rest = last_names(ts.drop_last());
        let p = ts.last().path@;
        if p.len() == 0 {
            rest
        } else {
            rest.push(
                match p.last() {
                    PathSegment::Key(name) => name@,
                    PathSegment::Named { key, .. } => key@,
                },
            )
        }
    }
}

pub fn target_key_names(targets: &Vec<TargetExpect>) -> (r: Vec<String>)
    ensures
        texts(r@) == last_names(targets@),
{
    let mut r: Vec<String> = Vec::new();
    let mut i: usize = 0;
    while i < targets.len()
        invariant
            i <= targets@.len(),
            texts(r@) == last_names(targets@.take(i as int)),
        decreases targets@.len() - i,
    {
        proof {
            assert(targets@.take(i + 1).drop_last() == targets@.take(i as int));
            assert(targets@.take(i + 1).last() == targets@[i as int]);
        }
        let n = targets[i].path.len();
        if n > 0 {
            let name = match &targets[i].path[n - 1] {
                PathSegment::Key(name) => to_owned_string(name.as_str()),
                PathSegment::Named { key, .. } => to_owned_string(key.as_str()),
            };
            r.push(name);
        }
        i = i + 1;
    }
    proof {
        assert(targets@.take(targets@.len() as int) == targets@);
    }
    r
}

} // verus!
