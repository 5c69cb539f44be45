//! `@include` resolution: the files a table includes are loaded, parsed,
//! resolved in turn, and merged in place of the directive.

use vstd::prelude::*;
use crate::ast::{key_text, Ast, MergeStrategy, TableBlock, TableEntry, Value};
use crate::engine::template::{debug_quoted, push_debug_quoted};
use crate::text::{chars_of, decimal_digits, push_decimal, str_eq, to_owned_string};

verus! {

broadcast use vstd::string::group_string_axioms;

/// The key an entry is merged under: a pair's key, a named block's name, or
/// `[[key]]` for an array table. Other entries have none and are dropped by
/// a keyed merge.
pub open spec fn merge_key(e: TableEntry) -> Option<Seq<char>> {
    match e {
        TableEntry::KeyValue(kv) => Some(key_text(kv.key)),
        TableEntry::TableBlock(tb) => match tb.name {
            Some(n) => Some(n@),
            None => None,
        },
        TableEntry::ArrayTable(at) => Some("[["@ + key_text(at.key) + "]]"@),
        _ => None,
    }
}

/// The distinct keys of `es`, in the order they first appear.
pub open spec fn key_order(es: Seq<TableEntry>) -> Seq<Seq<char>>
    decreases es.len(),
{
    if es.len() == 0 {
        Seq::empty()
    } else {
        let prev = key_order(es.drop_last());
        match merge_key(es.last()) {
            Some(k) => if prev.contains(k) {
                prev
            } else {
                prev.push(k)
            },
            None => prev,
        }
    }
}

/// What a key holds after a merge has gone through part of the entries:
/// nothing yet, one entry (by index), or a block whose first form is at an
/// index and whose entries have been extended.
pub enum Slot {
    Missing,
    Entry(int),
    Merged(int, Seq<TableEntry>),
}

/// What key `k` holds after the first `n` entries of `all`. Entries before
/// `split` replace what was there; from `split` on, a block that meets a
/// block of the same key is appended to it, anything else replaces it.
pub open spec fn slot_after(all: Seq<TableEntry>, split: int, k: Seq<char>, n: int) -> Slot
    decreases n,
{
    if n <= 0 {
        Slot::Missing
    } else {
        let prev = slot_after(all, split, k, n - 1);
        let e = all[n - 1];
        if merge_key(e) != Some(k) {
            prev
        } else if n - 1 < split {
            Slot::Entry(n - 1)
        } else {
            match e {
                TableEntry::TableBlock(u) => match prev {
                    Slot::Entry(h) => match all[h] {
                        TableEntry::TableBlock(t) => Slot::Merged(h, t.entries@ + u.entries@),
                        _ => Slot::Entry(n - 1),
                    },
                    Slot::Merged(h, es) => Slot::Merged(h, es + u.entries@),
                    Slot::Missing => Slot::Entry(n - 1),
                },
                _ => Slot::Entry(n - 1),
            }
        }
    }
}

/// Whether `r` is what a slot describes.
pub open spec fn fills(all: Seq<TableEntry>, s: Slot, r: TableEntry) -> bool {
    match s {
        Slot::Missing => false,
        Slot::Entry(i) => r == all[i],
        Slot::Merged(h, es) => match (all[h], r) {
            (TableEntry::TableBlock(hb), TableEntry::TableBlock(rb)) => rb.name == hb.name && rb.span == hb.span
                && rb.entries@ == es,
            _ => false,
        },
    }
}

/// The result of a keyed merge of `all`: one entry per key, keys in the
/// order they first appear, each what its slot describes. With `split` at
/// the end this is a shallow merge (the last entry of each key wins).
pub open spec fn keyed_merge(all: Seq<TableEntry>, split: int, r: Seq<TableEntry>) -> bool {
    let ks = key_order(all);
    &&& r.len() == ks.len()
    &&& forall|j: int| 0 <= j < r.len() ==> fills(all, slot_after(all, split, ks[j], all.len() as int), #[trigger] r[j])
}

proof fn lemma_key_order_distinct(es: Seq<TableEntry>)
    ensures
        forall|a: int, b: int| 0 <= a < b < key_order(es).len() ==> key_order(es)[a] != key_order(es)[b],
    decreases es.len(),
{
    if es.len() > 0 {
        lemma_key_order_distinct(es.drop_last());
        let prev = key_order(es.drop_last());
        match merge_key(es.last()) {
            Some(k) => {
                if !prev.contains(k) {
                    let now = prev.push(k);
                    assert forall|a: int, b: int| 0 <= a < b < now.len() implies now[a] != now[b] by {
                        if b == prev.len() {
                            assert(now[a] == prev[a]);
                            if prev[a] == k {
                                assert(prev.contains(k));
                            }
                        } else {
                            assert(now[a] == prev[a] && now[b] == prev[b]);
                        }
                    }
                }
            },
            None => {},
        }
    }
}

proof fn lemma_key_order_grows(es: Seq<TableEntry>)
    requires
        es.len() > 0,
    ensures
        key_order(es.drop_last()).len() <= key_order(es).len(),
        forall|a: int| 0 <= a < key_order(es.drop_last()).len() ==> key_order(es)[a] == key_order(es.drop_last())[a],
        merge_key(es.last()) matches Some(k) ==> key_order(es).contains(k),
{
    let prev = key_order(es.drop_last());
    match merge_key(es.last()) {
        Some(k) => {
            if !prev.contains(k) {
                assert(key_order(es)[prev.len() as int] == k);
            }
        },
        None => {},
    }
}

proof fn lemma_missing_before_first(all: Seq<TableEntry>, split: int, k: Seq<char>, n: int)
    requires
        0 <= n <= all.len(),
        !key_order(all.take(n)).contains(k),
    ensures
        slot_after(all, split, k, n) is Missing,
    decreases n,
{
    if n > 0 {
        let t = all.take(n);
        assert(t.drop_last() == all.take(n - 1));
        assert(t.last() == all[n - 1]);
        lemma_key_order_grows(t);
        let prev = key_order(all.take(n - 1));
        if prev.contains(k) {
            let w = choose|w: int| 0 <= w < prev.len() && prev[w] == k;
            assert(key_order(t)[w] == k);
            assert(key_order(t).contains(k));
        }
        assert(merge_key(all[n - 1]) != Some(k));
        lemma_missing_before_first(all, split, k, n - 1);
    }
}

fn entry_key(e: &TableEntry) -> (r: Option<String>)
    ensures
        match r {
            Some(k) => merge_key(*e) == Some(k@),
            None => merge_key(*e) is None,
        },
{
    match e {
        TableEntry::KeyValue(kv) => Some(to_owned_string(kv.key.as_str())),
        TableEntry::TableBlock(tb) => match &tb.name {
            Some(n) => Some(to_owned_string(n.as_str())),
            None => None,
        },
        TableEntry::ArrayTable(at) => {
            let mut s = String::new();
            s.push_str("[[");
            s.push_str(at.key.as_str());
            s.push_str("]]");
            Some(s)
        },
        _ => None,
    }
}

fn find_key(keys: &Vec<String>, k: &String) -> (r: Option<usize>)
    ensures
        match r {
            Some(p) => p < keys@.len() && keys@[p as int]@ == k@,
            None => forall|j: int| 0 <= j < keys@.len() ==> (#[trigger] keys@[j])@ != k@,
        },
{
    let mut i: usize = 0;
    while i < keys.len()
        invariant
            i <= keys@.len(),
            forall|j: int| 0 <= j < i ==> (#[trigger] keys@[j])@ != k@,
        decreases keys@.len() - i,
    {
        if str_eq(keys[i].as_str(), k.as_str()) {
            return Some(i);
        }
        i = i + 1;
    }
    None
}

/// Merges `all` by key: entries before `split` replace what their key
/// holds; later blocks are appended to a block of the same key.
fn merge_by_key(all: Vec<TableEntry>, split: usize) -> (r: Vec<TableEntry>)
    ensures
        keyed_merge(all@, split as int, r@),
{
    let ghost ga = all@;
    assert(ga.len() == all.len());
    let mut rest = all;
    let mut result: Vec<TableEntry> = Vec::new();
    let mut keys: Vec<String> = Vec::new();
    let mut i: usize = 0;
    while rest.len() > 0
        invariant
            i <= ga.len() <= usize::MAX,
            rest@ == ga.skip(i as int),
            keys@.map_values(|s: String| s@) == key_order(ga.take(i as int)),
            result@.len() == keys@.len(),
            forall|j: int|
                0 <= j < result@.len() ==> fills(ga, slot_after(ga, split as int, keys@[j]@, i as int), #[trigger] result@[j]),
        decreases rest@.len(),
    {
        let ghost kv = keys@.map_values(|s: String| s@);
        proof {
            assert(ga.take(i + 1).drop_last() == ga.take(i as int));
            assert(ga.take(i + 1).last() == ga[i as int]);
            lemma_key_order_distinct(ga.take(i as int));
        }
        let e = rest.remove(0);
        assert(e == ga[i as int]);
        assert(rest@ =~= ga.skip(i + 1));
        match entry_key(&e) {
            None => {
                proof {
                    assert(key_order(ga.take(i + 1)) == kv);
                    assert forall|j: int| 0 <= j < result@.len() implies fills(
                        ga,
                        slot_after(ga, split as int, keys@[j]@, i + 1),
                        #[trigger] result@[j],
                    ) by {
                        assert(kv[j] == keys@[j]@);
                    }
                }
            },
            Some(k) => {
                let ghost gk = k@;
                match find_key(&keys, &k) {
                    Some(p) => {
                        proof {
                            assert(kv[p as int] == gk);
                            assert(kv.contains(gk));
                            assert(key_order(ga.take(i + 1)) == kv);
                        }
                        let ghost before = result@;
                        let old_entry = result.remove(p);
                        let ghost slot = slot_after(ga, split as int, gk, i as int);
                        assert(fills(ga, slot, old_entry));
                        let merged = if i < split {
                            e
                        } else {
                            match e {
                                TableEntry::TableBlock(u) => match old_entry {
                                    TableEntry::TableBlock(t) => {
                                        let mut t = t;
                                        let mut u = u;
                                        t.entries.append(&mut u.entries);
                                        TableEntry::TableBlock(t)
                                    },
                                    _ => TableEntry::TableBlock(u),
                                },
                                other => other,
                            }
                        };
                        proof {
                            assert(fills(ga, slot_after(ga, split as int, gk, i + 1), merged));
                        }
                        result.insert(p, merged);
                        proof {
                            assert forall|j: int| 0 <= j < result@.len() implies fills(
                                ga,
                                slot_after(ga, split as int, keys@[j]@, i + 1),
                                #[trigger] result@[j],
                            ) by {
                                if j != p {
                                    assert(result@[j] == before[j]);
                                    assert(kv[j] == keys@[j]@);
                                    assert(keys@[j]@ != gk);
                                }
                            }
                        }
                    },
                    None => {
                        proof {
                            assert(!kv.contains(gk));
                            lemma_missing_before_first(ga, split as int, gk, i as int);
                            assert(key_order(ga.take(i + 1)) == kv.push(gk));
                        }
                        let ghost before = result@;
                        result.push(e);
                        keys.push(k);
                        proof {
                            assert(keys@.map_values(|s: String| s@) =~= kv.push(gk));
                            assert forall|j: int| 0 <= j < result@.len() implies fills(
                                ga,
                                slot_after(ga, split as int, keys@[j]@, i + 1),
                                #[trigger] result@[j],
                            ) by {
                                if j < before.len() {
                                    assert(result@[j] == before[j]);
                                    assert(kv[j] == keys@[j]@);
                                    assert(keys@[j]@ != gk);
                                }
                            }
                        }
                    },
                }
            },
        }
        i = i + 1;
    }
    proof {
        assert(ga.take(ga.len() as int) == ga);
        assert(i == ga.len());
        assert forall|j: int| 0 <= j < result@.len() implies fills(
            ga,
            slot_after(ga, split as int, key_order(ga)[j], ga.len() as int),
            #[trigger] result@[j],
        ) by {
            assert(key_order(ga)[j] == keys@[j]@);
        }
    }
    result
}


/// The entries an include leaves in a table, by strategy: `target` is what
/// the table already holds and `source` what the included file holds.
pub open spec fn strategy_result(
    strategy: MergeStrategy,
    target: Seq<TableEntry>,
    source: Seq<TableEntry>,
    r: Seq<TableEntry>,
) -> bool {
    match strategy {
        MergeStrategy::Override => r == source,
        MergeStrategy::Append => r == target + source,
        MergeStrategy::Merge => keyed_merge(target + source, (target.len() + source.len()) as int, r),
        MergeStrategy::DeepMerge => keyed_merge(target + source, target.len() as int, r),
    }
}

/// The entries an include leaves in a table, by the directive's strategy.
pub fn apply_merge_strategy(strategy: MergeStrategy, target: Vec<TableEntry>, source: TableBlock) -> (r: Vec<TableEntry>)
    ensures
        strategy_result(strategy, target@, source.entries@, r@),
{
    let mut target = target;
    let mut entries = source.entries;
    let ghost t = target@;
    let ghost s = entries@;
    match strategy {
        MergeStrategy::Override => entries,
        MergeStrategy::Append => {
            target.append(&mut entries);
            target
        },
        MergeStrategy::Merge => {
            let n = target.len();
            target.append(&mut entries);
            let all_len = target.len();
            merge_by_key(target, all_len)
        },
        MergeStrategy::DeepMerge => {
            let n = target.len();
            target.append(&mut entries);
            merge_by_key(target, n)
        },
    }
}

/// Whether no include directive is left where resolution looks: among the
/// entries of a table, in its blocks, and in blocks held by its pairs.
/// Two tables alike field for field, nested tables compared the same way.
pub open spec fn same_block(a: TableBlock, b: TableBlock) -> bool
    decreases b,
{
    &&& a.name == b.name
    &&& a.span == b.span
    &&& a.entries@.len() == b.entries@.len()
    &&& forall|i: int| 0 <= i < b.entries@.len() ==> same_entry(#[trigger] a.entries@[i], b.entries@[i])
}

/// Two entries alike, nested tables compared by [`same_block`].
pub open spec fn same_entry(a: TableEntry, b: TableEntry) -> bool
    decreases b,
{
    match b {
        TableEntry::TableBlock(y) => a matches TableEntry::TableBlock(x) && same_block(x, y),
        TableEntry::KeyValue(ky) => a matches TableEntry::KeyValue(kx) && kx.key == ky.key && kx.metadata
            == ky.metadata && kx.comment == ky.comment && kx.span == ky.span && match ky.value {
            Value::TableBlock(y) => kx.value matches Value::TableBlock(x) && same_block(x, y),
            _ => kx.value == ky.value,
        },
        _ => a == b,
    }
}

pub open spec fn includes_resolved(tb: TableBlock) -> bool
    decreases tb,
{
    forall|i: int| 0 <= i < tb.entries@.len() ==> entry_resolved(#[trigger] tb.entries@[i])
}

pub open spec fn entry_resolved(e: TableEntry) -> bool
    decreases e,
{
    match e {
        TableEntry::IncludeDirective(_) => false,
        TableEntry::TableBlock(nb) => includes_resolved(nb),
        TableEntry::KeyValue(kv) => match kv.value {
            Value::TableBlock(nb) => includes_resolved(nb),
            _ => true,
        },
        _ => true,
    }
}

proof fn lemma_slot_resolved(all: Seq<TableEntry>, split: int, k: Seq<char>, n: int)
    requires
        0 <= n <= all.len(),
        forall|i: int| 0 <= i < all.len() ==> entry_resolved(#[trigger] all[i]),
    ensures
        match slot_after(all, split, k, n) {
            Slot::Missing => true,
            Slot::Entry(i) => 0 <= i < all.len(),
            Slot::Merged(h, es) => 0 <= h < all.len() && forall|x: int| 0 <= x < es.len() ==> entry_resolved(#[trigger] es[x]),
        },
    decreases n,
{
    if n > 0 {
        lemma_slot_resolved(all, split, k, n - 1);
        let prev = slot_after(all, split, k, n - 1);
        let e = all[n - 1];
        assert(entry_resolved(e));
        if merge_key(e) == Some(k) && n - 1 >= split {
            if let TableEntry::TableBlock(u) = e {
                match prev {
                    Slot::Entry(h) => {
                        if let TableEntry::TableBlock(t) = all[h] {
                            assert(entry_resolved(all[h]));
                            let es = t.entries@ + u.entries@;
                            assert forall|x: int| 0 <= x < es.len() implies entry_resolved(#[trigger] es[x]) by {
                                if x < t.entries@.len() {
                                    assert(es[x] == t.entries@[x]);
                                } else {
                                    assert(es[x] == u.entries@[x - t.entries@.len()]);
                                }
                            }
                        }
                    },
                    Slot::Merged(h, es0) => {
                        let es = es0 + u.entries@;
                        assert forall|x: int| 0 <= x < es.len() implies entry_resolved(#[trigger] es[x]) by {
                            if x < es0.len() {
                                assert(es[x] == es0[x]);
                            } else {
                                assert(es[x] == u.entries@[x - es0.len()]);
                            }
                        }
                    },
                    Slot::Missing => {},
                }
            }
        }
    }
}

proof fn lemma_keyed_resolved(all: Seq<TableEntry>, split: int, r: Seq<TableEntry>)
    requires
        keyed_merge(all, split, r),
        forall|i: int| 0 <= i < all.len() ==> entry_resolved(#[trigger] all[i]),
    ensures
        forall|j: int| 0 <= j < r.len() ==> entry_resolved(#[trigger] r[j]),
{
    assert forall|j: int| 0 <= j < r.len() implies entry_resolved(#[trigger] r[j]) by {
        let k = key_order(all)[j];
        lemma_slot_resolved(all, split, k, all.len() as int);
        let s = slot_after(all, split, k, all.len() as int);
        assert(fills(all, s, r[j]));
        match s {
            Slot::Merged(h, es) => {
                if let TableEntry::TableBlock(rb) = r[j] {
                    assert(rb.entries@ == es);
                    assert(includes_resolved(rb));
                }
            },
            _ => {},
        }
    }
}

proof fn lemma_strategy_resolved(strategy: MergeStrategy, source: Seq<TableEntry>, r: Seq<TableEntry>)
    requires
        strategy_result(strategy, Seq::empty(), source, r),
        forall|i: int| 0 <= i < source.len() ==> entry_resolved(#[trigger] source[i]),
    ensures
        forall|j: int| 0 <= j < r.len() ==> entry_resolved(#[trigger] r[j]),
{
    assert(Seq::<TableEntry>::empty() + source =~= source);
    match strategy {
        MergeStrategy::Merge => lemma_keyed_resolved(source, source.len() as int, r),
        MergeStrategy::DeepMerge => lemma_keyed_resolved(source, 0, r),
        _ => {},
    }
}

/// The text of a block's name, if it has one.
pub open spec fn name_text(n: Option<String>) -> Option<Seq<char>> {
    match n {
        Some(s) => Some(s@),
        None => None,
    }
}

/// Where included files come from: the caller decides (the disk, memory, a
/// service).
pub trait FileLoader {
    fn load_file(&self, path: &str) -> Result<String, String>;
}

/// How deep includes may nest, and the strategy the merger was made with.
#[derive(Debug, Clone, Copy)]
pub struct MergerConfig {
    pub max_include_depth: usize,
    pub strategy: MergeStrategy,
}

impl Default for MergerConfig {
    fn default() -> (c: Self)
        ensures
            c.max_include_depth == 10,
            c.strategy == MergeStrategy::DeepMerge,
    {
        MergerConfig { max_include_depth: 10, strategy: MergeStrategy::DeepMerge }
    }
}

/// Resolves `@include` directives with files from a loader.
pub struct AstMerger<L: FileLoader> {
    config: MergerConfig,
    loader: L,
    include_stack: Vec<String>,
}

impl<L: FileLoader> AstMerger<L> {
    /// The settings in use.
    pub closed spec fn settings(&self) -> MergerConfig {
        self.config
    }

    /// The files being included, outermost first.
    pub closed spec fn stack(&self) -> Seq<Seq<char>> {
        self.include_stack@.map_values(|s: String| s@)
    }

    /// How many more levels of includes may open.
    pub closed spec fn depth_left(&self) -> nat {
        if self.config.max_include_depth > self.include_stack@.len() {
            (self.config.max_include_depth - self.include_stack@.len()) as nat
        } else {
            0
        }
    }

    pub fn new(loader: L) -> (m: Self)
        ensures
            m.settings().max_include_depth == 10,
            m.settings().strategy == MergeStrategy::DeepMerge,
            m.stack().len() == 0,
    {
        let m = AstMerger { config: MergerConfig::default(), loader, include_stack: Vec::new() };
        assert(m.stack() =~= Seq::<Seq<char>>::empty());
        m
    }

    pub fn with_config(self, config: MergerConfig) -> (m: Self)
        ensures
            m.settings() == config,
            m.stack() == self.stack(),
    {
        let mut this = self;
        this.config = config;
        this
    }

    fn stack_has(&self, path: &str) -> (b: bool)
        ensures
            b == self.stack().contains(path@),
    {
        let ghost sv = self.stack();
        let mut i: usize = 0;
        while i < self.include_stack.len()
            invariant
                i <= self.include_stack@.len(),
                sv == self.stack(),
                forall|j: int| 0 <= j < i ==> sv[j] != path@,
            decreases self.include_stack@.len() - i,
        {
            assert(sv[i as int] == self.include_stack@[i as int]@);
            if str_eq(self.include_stack[i].as_str(), path) {
                return true;
            }
            i = i + 1;
        }
        false
    }

    /// Loads, parses and resolves one included file.
    fn load_and_parse(&mut self, path: &str, base_path: &str, Ghost(outer): Ghost<TableBlock>) -> (r: Result<TableBlock, String>)
        ensures
            final(self).settings() == old(self).settings(),
            old(self).stack().contains(path@) ==> (r matches Err(m) && m@ == "Circular include detected: "@ + debug_quoted(path@)),
            !old(self).stack().contains(path@) && old(self).stack().len() >= old(self).settings().max_include_depth ==> (r matches Err(m)
                && m@ == "Maximum include depth exceeded: "@ + decimal_digits(old(self).settings().max_include_depth as nat)),
            r matches Ok(t) ==> includes_resolved(t) && final(self).stack() == old(self).stack(),
        decreases old(self).depth_left(), outer, 0nat,
    {
        if self.stack_has(path) {
            let mut m = String::new();
            m.push_str("Circular include detected: ");
            push_debug_quoted(&mut m, &to_owned_string(path));
            return Err(m);
        }
        if self.include_stack.len() >= self.config.max_include_depth {
            let mut m = String::new();
            m.push_str("Maximum include depth exceeded: ");
            push_decimal(&mut m, self.config.max_include_depth as u64);
            return Err(m);
        }
        let ghost before = self.stack();
        let ghost before_vec = self.include_stack@;
        self.include_stack.push(to_owned_string(path));
        proof {
            assert(self.stack() =~= before.push(path@));
            assert(self.depth_left() < old(self).depth_left());
        }
        let source = match self.loader.load_file(path) {
            Ok(s) => s,
            Err(e) => {
                return Err(e);
            },
        };
        if chars_of(source.as_str()).len() >= u32::MAX as usize {
            let mut m = String::new();
            m.push_str("Parse error in ");
            m.push_str(path);
            m.push_str(": the text is too large");
            return Err(m);
        }
        let ast = match crate::parse(source.as_str()) {
            Ok(a) => a,
            Err(e) => {
                let mut m = String::new();
                m.push_str("Parse error in ");
                m.push_str(path);
                m.push_str(": ");
                let d = e.describe();
                m.push_str(d.as_str());
                return Err(m);
            },
        };
        let root = match self.merge_block(ast.root, base_path) {
            Ok(t) => t,
            Err(e) => {
                return Err(e);
            },
        };
        let ghost mid = self.include_stack@;
        assert(mid.map_values(|s: String| s@) == before.push(path@));
        let _ = self.include_stack.pop();
        proof {
            assert(self.include_stack@ =~= mid.drop_last());
            assert(mid.len() == before.len() + 1);
            assert forall|j: int| 0 <= j < before.len() implies #[trigger] self.include_stack@[j]@ == before[j] by {
                assert(self.include_stack@[j] == mid[j]);
                assert(mid.map_values(|s: String| s@)[j] == mid[j]@);
            }
            assert(self.stack() =~= before);
        }
        Ok(root)
    }

    /// Resolves the includes of a table and of the blocks inside it.
    fn merge_block(&mut self, table: TableBlock, base_path: &str) -> (r: Result<TableBlock, String>)
        ensures
            final(self).settings() == old(self).settings(),
            r matches Ok(t) ==> includes_resolved(t) && t.name == table.name && t.span == table.span && final(self).stack()
                == old(self).stack(),
            includes_resolved(table) ==> (r matches Ok(t) && same_block(t, table)),
        decreases old(self).depth_left(), table, 1nat,
    {
        let ghost gt = table;
        let TableBlock { name, entries, span } = table;
        let mut rest = entries;
        let mut out: Vec<TableEntry> = Vec::new();
        let ghost i: int = 0;
        while rest.len() > 0
            invariant
                gt == table,
                0 <= i <= gt.entries@.len(),
                rest@ == gt.entries@.skip(i),
                forall|j: int| 0 <= j < out@.len() ==> entry_resolved(#[trigger] out@[j]),
                self.settings() == old(self).settings(),
                self.stack() == old(self).stack(),
                self.depth_left() == old(self).depth_left(),
                includes_resolved(gt) ==> out@.len() == i && forall|j: int| 0 <= j < i ==> same_entry(#[trigger] out@[j], gt.entries@[j]),
            decreases rest@.len(),
        {
            let e = rest.remove(0);
            assert(e == gt.entries@[i]);
            proof {
                assert(decreases_to!(gt => gt.entries));
                assert(decreases_to!(gt.entries => gt.entries@));
                assert(decreases_to!(gt.entries@ => gt.entries@[i]));
                assert(decreases_to!(gt => e));
            }
            proof {
                assert(rest@ =~= gt.entries@.skip(i + 1));
            }
            let ghost before = out@;
            match e {
                TableEntry::IncludeDirective(inc) => {
                    let included = match self.load_and_parse(inc.path.as_str(), base_path, Ghost(gt)) {
                        Ok(t) => t,
                        Err(m) => {
                            return Err(m);
                        },
                    };
                    let ghost src = included.entries@;
                    let mut merged = apply_merge_strategy(inc.merge_strategy, Vec::new(), included);
                    proof {
                        lemma_strategy_resolved(inc.merge_strategy, src, merged@);
                    }
                    let ghost ms = merged@;
                    out.append(&mut merged);
                    proof {
                        assert forall|j: int| 0 <= j < out@.len() implies entry_resolved(#[trigger] out@[j]) by {
                            if j < before.len() {
                                assert(out@[j] == before[j]);
                            } else {
                                assert(out@[j] == ms[j - before.len()]);
                            }
                        }
                    }
                },
                TableEntry::TableBlock(tb) => {
                    proof {
                        assert(decreases_to!(e => tb));
                        assert(decreases_to!(gt => tb));
                    }
                    let t = match self.merge_block(tb, base_path) {
                        Ok(t) => t,
                        Err(m) => {
                            return Err(m);
                        },
                    };
                    out.push(TableEntry::TableBlock(t));
                },
                TableEntry::KeyValue(kv) => {
                    let crate::ast::KeyValue { key, value, metadata, comment, span: kv_span } = kv;
                    let value = match value {
                        Value::TableBlock(tb) => {
                            let t = match self.merge_block(tb, base_path) {
                                Ok(t) => t,
                                Err(m) => {
                                    return Err(m);
                                },
                            };
                            Value::TableBlock(t)
                        },
                        other => other,
                    };
                    out.push(TableEntry::KeyValue(crate::ast::KeyValue { key, value, metadata, comment, span: kv_span }));
                },
                other => {
                    out.push(other);
                },
            }
            proof {
                assert(self.include_stack@.len() == self.stack().len());
                assert(old(self).include_stack@.len() == old(self).stack().len());
                i = i + 1;
            }
        }
        Ok(TableBlock { name, entries: out, span })
    }

    /// Resolves every `@include` of the document: each included file is
    /// loaded, parsed, resolved in turn and merged by the directive's
    /// strategy in place of the directive. A file that is being included
    /// already, or includes nested deeper than the limit, is an error; on
    /// any error the document's root is left without entries.
    pub fn merge_includes(&mut self, ast: &mut Ast, base_path: &str) -> (r: Result<(), String>)
        ensures
            final(self).settings() == old(self).settings(),
            name_text(final(ast).root.name) == name_text(old(ast).root.name),
            final(ast).root.span == old(ast).root.span,
            final(ast).schema == old(ast).schema,
            final(ast).source == old(ast).source,
            r is Ok ==> includes_resolved(final(ast).root),
            r is Err ==> final(ast).root.entries@.len() == 0,
    {
        self.include_stack.clear();
        self.include_stack.push(to_owned_string(base_path));
        let mut root = TableBlock { name: None, entries: Vec::new(), span: crate::span::Span::unknown() };
        std::mem::swap(&mut root, &mut ast.root);
        let keep_name = match &root.name {
            Some(n) => Some(to_owned_string(n.as_str())),
            None => None,
        };
        let keep_span = root.span;
        match self.merge_block(root, base_path) {
            Ok(t) => {
                ast.root = t;
                Ok(())
            },
            Err(e) => {
                ast.root = TableBlock { name: keep_name, entries: Vec::new(), span: keep_span };
                Err(e)
            },
        }
    }
}


proof fn lemma_slot_key(all: Seq<TableEntry>, split: int, k: Seq<char>, n: int)
    requires
        0 <= n <= all.len(),
    ensures
        match slot_after(all, split, k, n) {
            Slot::Missing => true,
            Slot::Entry(i) => 0 <= i < n && merge_key(all[i]) == Some(k),
            Slot::Merged(h, _) => 0 <= h < n && merge_key(all[h]) == Some(k) && all[h] is TableBlock,
        },
    decreases n,
{
    if n > 0 {
        lemma_slot_key(all, split, k, n - 1);
    }
}

/// A keyed merge keeps one entry per key: the entries it returns carry the
/// keys of the merged entries, in the order they first appear, no key twice.
pub proof fn lemma_keyed_merge_one_per_key(all: Seq<TableEntry>, split: int, r: Seq<TableEntry>)
    requires
        keyed_merge(all, split, r),
    ensures
        forall|j: int| 0 <= j < r.len() ==> merge_key(#[trigger] r[j]) == Some(key_order(all)[j]),
        forall|i: int, j: int| 0 <= i < j < r.len() ==> merge_key(#[trigger] r[i]) != merge_key(#[trigger] r[j]),
{
    lemma_key_order_distinct(all);
    assert forall|j: int| 0 <= j < r.len() implies merge_key(#[trigger] r[j]) == Some(key_order(all)[j]) by {
        let k = key_order(all)[j];
        lemma_slot_key(all, split, k, all.len() as int);
        assert(fills(all, slot_after(all, split, k, all.len() as int), r[j]));
    }
    assert forall|i: int, j: int| 0 <= i < j < r.len() implies merge_key(#[trigger] r[i]) != merge_key(#[trigger] r[j]) by {
        assert(merge_key(r[i]) == Some(key_order(all)[i]));
        assert(merge_key(r[j]) == Some(key_order(all)[j]));
    }
}

} // verus!
