//! Applying an edit plan across `@include`: the target must be found in
//! exactly one file of the include graph. One file: that file is edited.
//! Several: the plan is refused as ambiguous. None: refused as not found.
//! Merging the includes first would lose which file a value came from, and
//! the write must land on the bytes of one file; when that is not certain
//! the edit is refused rather than guessed.

use vstd::prelude::*;
use crate::ast::{TableBlock, TableEntry, Value};
use crate::edit::apply::{apply_edit_plan, plan_outcome, steps_lead};
use crate::edit::gate::{gate, short_enough};
use crate::edit::outcome::{AppliedEdit, EditOutcome, EditRefusal};
use crate::edit::plan::{describe_path, path_text, plan_violations, violation_views, EditPlan};
use crate::engine::merger::FileLoader;
use crate::text::to_owned_string;

verus! {

broadcast use vstd::string::group_string_axioms;

/// The file an edit across includes changed.
#[derive(Debug, Clone, PartialEq)]
pub struct FileEdit {
    /// the file's path as the include graph names it
    pub path: String,
    /// its whole content before the edit
    pub before: String,
    /// its whole content after the edit
    pub after: String,
}

/// Whether the merged configuration was checked after the edit.
#[derive(Debug, Clone, PartialEq)]
pub enum EffectiveView {
    /// rebuilt with the edited content and checked
    Validated,
    /// not checked, for the reason given; callers must not take it as passed
    NotValidated { reason: String },
}

/// The result of an edit across includes.
#[derive(Debug, Clone, PartialEq)]
pub struct MultiFileOutcome {
    /// the one file changed
    pub file: FileEdit,
    /// the edits applied to it
    pub applied: Vec<AppliedEdit>,
    /// whether the merged configuration was checked
    pub effective_view: EffectiveView,
}

/// How many files are searched at most.
pub const MAX_FILES: usize = 64;

/// What applying the plan to one file gave: its path, its content and the
/// outcome.
pub struct Probe {
    pub path: String,
    pub source: String,
    pub outcome: Result<EditOutcome, EditRefusal>,
}

/// A file holds the target unless applying the plan to it found no target.
pub open spec fn is_hit(p: Probe) -> bool {
    !(p.outcome matches Err(EditRefusal::TargetNotFound { .. }))
}

/// How many of the files hold the target.
pub open spec fn hit_count(ps: Seq<Probe>) -> nat
    decreases ps.len(),
{
    if ps.len() == 0 {
        0
    } else {
        hit_count(ps.drop_last()) + if is_hit(ps.last()) { 1nat } else { 0nat }
    }
}

/// The verdict across files, from what each file gave.
pub open spec fn across_files(ps: Seq<Probe>, label: Seq<char>, r: Result<MultiFileOutcome, EditRefusal>) -> bool {
    if hit_count(ps) == 0 {
        r matches Err(EditRefusal::TargetNotFound { path }) && path@ == label
    } else if hit_count(ps) >= 2 {
        r matches Err(EditRefusal::TargetAmbiguous { path, matches }) && path@ == label && matches == hit_count(ps)
    } else {
        exists|k: int|
            0 <= k < ps.len() && #[trigger] is_hit(ps[k]) && match ps[k].outcome {
                Ok(o) => r matches Ok(m) && m.file.path == ps[k].path && m.file.before == ps[k].source
                    && m.file.after == o.source && m.applied == o.applied,
                Err(x) => r == Err::<MultiFileOutcome, EditRefusal>(x),
            }
    }
}

/// What applying the plan to one file gave, as [`plan_outcome`] says; a
/// file too long to parse is refused as not parsing.
pub open spec fn probe_ok(plan: EditPlan, p: Probe) -> bool {
    if p.source@.len() < u32::MAX {
        plan_outcome(p.source@, plan, p.outcome)
    } else {
        p.outcome matches Err(EditRefusal::ParseFailed(m)) && m@ == crate::edit::gate::too_long_text()
    }
}

/// Why a search that reached the file limit is refused.
pub open spec fn truncated_reason() -> Seq<char> {
    "搜索在 64 个文件处截断，无法确定目标是否唯一"@
}

/// The reason the merged configuration is not checked here.
pub open spec fn not_validated_reason() -> Seq<char> {
    "合并后的生效配置没有重新校验"@
}

proof fn lemma_hit_count_push(ps: Seq<Probe>, p: Probe)
    ensures
        hit_count(ps.push(p)) == hit_count(ps) + if is_hit(p) { 1nat } else { 0nat },
{
    assert(ps.push(p).drop_last() =~= ps);
}

/// Decides across files from what each file gave: no file holds the
/// target, refused as not found; two or more, refused as ambiguous; exactly
/// one, that file's outcome.
pub fn decide_across_files(probes: Vec<Probe>, label: String) -> (r: Result<MultiFileOutcome, EditRefusal>)
    ensures
        across_files(probes@, label@, r),
{
    let ghost ps = probes@;
    let mut hits: usize = 0;
    let mut found: Option<usize> = None;
    let mut i: usize = 0;
    while i < probes.len()
        invariant
            i <= probes@.len(),
            ps == probes@,
            hits == hit_count(ps.take(i as int)),
            hits <= i,
            hits == 0 <==> found is None,
            found matches Some(k) ==> k < i && is_hit(ps[k as int]),
        decreases probes@.len() - i,
    {
        proof {
            assert(ps.take(i + 1) =~= ps.take(i as int).push(ps[i as int]));
            lemma_hit_count_push(ps.take(i as int), ps[i as int]);
        }
        let hit = match &probes[i].outcome {
            Err(EditRefusal::TargetNotFound { .. }) => false,
            _ => true,
        };
        if hit {
            hits = hits + 1;
            if found.is_none() {
                found = Some(i);
            }
        }
        i = i + 1;
    }
    proof {
        assert(ps.take(ps.len() as int) =~= ps);
    }
    if hits == 0 {
        return Err(EditRefusal::TargetNotFound { path: label });
    }
    if hits >= 2 {
        return Err(EditRefusal::TargetAmbiguous { path: label, matches: hits });
    }
    let k = match found {
        Some(k) => k,
        None => {
            return Err(EditRefusal::TargetNotFound { path: label });
        },
    };
    let mut probes = probes;
    let p = probes.swap_remove(k);
    proof {
        assert(p == ps[k as int]);
    }
    let Probe { path, source, outcome } = p;
    match outcome {
        Ok(o) => {
            let EditOutcome { source: after, applied } = o;
            Ok(MultiFileOutcome {
                file: FileEdit { path, before: source, after },
                applied,
                effective_view: EffectiveView::NotValidated { reason: to_owned_string("合并后的生效配置没有重新校验") },
            })
        },
        Err(x) => Err(x),
    }
}

/// The directory part of a path: everything before its last `/`.
pub open spec fn dir_of(p: Seq<char>) -> Seq<char>
    decreases p.len(),
{
    if p.len() == 0 {
        Seq::empty()
    } else if p.last() == '/' {
        p.drop_last()
    } else {
        dir_of(p.drop_last())
    }
}

/// An include path resolved against the directory of the including file;
/// an absolute one stays as it is.
pub open spec fn joined(dir: Seq<char>, inc: Seq<char>) -> Seq<char> {
    if dir.len() == 0 || (inc.len() > 0 && inc[0] == '/') {
        inc
    } else {
        dir + seq!['/'] + inc
    }
}

fn dir_of_exec(p: &str) -> (d: String)
    ensures
        d@ == dir_of(p@),
{
    let v = crate::text::chars_of(p);
    let mut k: usize = v.len();
    proof {
        assert(v@.take(v@.len() as int) =~= v@);
    }
    while k > 0 && v[k - 1] != '/'
        invariant
            k <= v@.len(),
            v@ == p@,
            dir_of(v@.take(k as int)) == dir_of(p@),
        decreases k,
    {
        proof {
            assert(v@.take(k as int).drop_last() =~= v@.take(k - 1));
        }
        k = k - 1;
    }
    proof {
        assert(v@.take(v@.len() as int) =~= v@);
    }
    if k == 0 {
        proof {
            assert(v@.take(0) =~= Seq::<char>::empty());
        }
        String::new()
    } else {
        proof {
            assert(v@.take(k as int).drop_last() =~= v@.subrange(0, k - 1));
        }
        crate::text::string_from_range(&v, 0, k - 1)
    }
}

fn join_exec(dir: &str, inc: &str) -> (r: String)
    ensures
        r@ == joined(dir@, inc@),
{
    let absolute = match crate::text::chars_of(inc).first() {
        Some(c) => *c == '/',
        None => false,
    };
    if dir.is_empty() || absolute {
        to_owned_string(inc)
    } else {
        let mut r = to_owned_string(dir);
        r.push('/');
        r.push_str(inc);
        r
    }
}

/// Whether `x` is among `v`.
fn listed(v: &Vec<String>, x: &str) -> (b: bool)
    ensures
        b == crate::edit::gate::texts(v@).contains(x@),
{
    let mut i: usize = 0;
    while i < v.len()
        invariant
            i <= v@.len(),
            forall|k: int| 0 <= k < i ==> crate::edit::gate::texts(v@)[k] != x@,
        decreases v@.len() - i,
    {
        if crate::text::str_eq(v[i].as_str(), x) {
            proof {
                assert(crate::edit::gate::texts(v@)[i as int] == x@);
            }
            return true;
        }
        i = i + 1;
    }
    false
}

/// The `@include` paths of a table and of the blocks inside it, in order.
fn collect_include_paths(t: &TableBlock, out: &mut Vec<String>)
    decreases t,
{
    let mut i: usize = 0;
    while i < t.entries.len()
        invariant
            i <= t.entries@.len(),
        decreases t.entries@.len() - i,
    {
        proof {
            assert(decreases_to!(t => t.entries@[i as int]));
        }
        match &t.entries[i] {
            TableEntry::IncludeDirective(d) => {
                out.push(to_owned_string(d.path.as_str()));
            },
            TableEntry::TableBlock(child) => {
                proof {
                    assert(decreases_to!(t => *child));
                }
                collect_include_paths(child, out);
            },
            TableEntry::KeyValue(kv) => match &kv.value {
                Value::TableBlock(child) => {
                    proof {
                        assert(decreases_to!(t => *child));
                    }
                    collect_include_paths(child, out);
                },
                _ => {},
            },
            _ => {},
        }
        i = i + 1;
    }
}

/// The files of the include graph from `root`, breadth first, each once:
/// their paths and contents, and whether the search stopped at the limit.
/// A file the loader cannot give is a refusal.
fn load_include_graph<L: FileLoader>(root: &str, loader: &L) -> (r: Result<(Vec<(String, String)>, bool), EditRefusal>)
    ensures
        r matches Ok((fs, _)) ==> fs@.len() <= MAX_FILES,
        r matches Err(x) ==> x matches EditRefusal::ParseFailed(m) && "读不到 "@.is_prefix_of(m@),
{
    let mut out: Vec<(String, String)> = Vec::new();
    let mut seen: Vec<String> = Vec::new();
    let mut queue: Vec<String> = Vec::new();
    queue.push(to_owned_string(root));
    let mut head: usize = 0;
    let mut truncated = false;
    while head < queue.len()
        invariant
            out@.len() <= MAX_FILES,
            head <= queue@.len(),
        decreases MAX_FILES - out@.len(), queue@.len() - head,
    {
        let path = to_owned_string(queue[head].as_str());
        head = head + 1;
        if listed(&seen, path.as_str()) {
            continue;
        }
        seen.push(to_owned_string(path.as_str()));
        if out.len() >= MAX_FILES {
            truncated = true;
            break;
        }
        let source = match loader.load_file(path.as_str()) {
            Ok(s) => s,
            Err(m) => {
                let mut message = to_owned_string("读不到 ");
                let ghost head = message@;
                message.push_str(path.as_str());
                message.push_str("：");
                message.push_str(m.as_str());
                proof {
                    reveal_strlit("读不到 ");
                    assert(message@.subrange(0, head.len() as int) =~= head);
                }
                return Err(EditRefusal::ParseFailed(message));
            },
        };
        if short_enough(source.as_str()) {
            match crate::parse(source.as_str()) {
                Ok(ast) => {
                    let mut includes: Vec<String> = Vec::new();
                    collect_include_paths(&ast.root, &mut includes);
                    let dir = dir_of_exec(path.as_str());
                    let mut j: usize = 0;
                    while j < includes.len()
                        invariant
                            j <= includes@.len(),
                            head <= queue@.len(),
                        decreases includes@.len() - j,
                    {
                        queue.push(join_exec(dir.as_str(), includes[j].as_str()));
                        j = j + 1;
                    }
                },
                Err(_) => {},
            }
        }
        out.push((path, source));
    }
    Ok((out, truncated))
}

/// The first edit's target, for messages.
fn plan_label(plan: &EditPlan) -> (s: String)
    ensures
        plan.edits@.len() > 0 ==> s@ == path_text(plan.edits@[0].path@),
{
    if plan.edits.len() == 0 {
        to_owned_string("<空计划>")
    } else {
        describe_path(&plan.edits[0].path)
    }
}

/// Applies `plan` across the include graph from `root`, with files from
/// `loader`: the target must be found in exactly one file (see the module
/// documentation). The file changed goes through the same checks as a
/// one-file edit. The merged configuration is not checked again here, and
/// the outcome says so.
pub fn apply_edit_plan_in_files_with<L: FileLoader>(root: &str, plan: &EditPlan, loader: &L) -> (r: Result<
    MultiFileOutcome,
    EditRefusal,
>)
    ensures
        plan_violations(*plan).len() > 0 ==> (r matches Err(EditRefusal::InvalidPlan(vs)) && violation_views(vs@)
            == plan_violations(*plan)),
        plan_violations(*plan).len() == 0 ==> {
            ||| exists|ps: Seq<Probe>|
                #[trigger] across_files(ps, path_text(plan.edits@[0].path@), r) && forall|k: int|
                    0 <= k < ps.len() ==> probe_ok(*plan, #[trigger] ps[k])
            ||| r matches Err(EditRefusal::UnsupportedTarget { path, reason }) && path@ == path_text(plan.edits@[0].path@)
                && reason@ == truncated_reason()
            ||| r matches Err(EditRefusal::ParseFailed(m)) && "读不到 "@.is_prefix_of(m@)
        },
{
    match plan.validate() {
        Ok(()) => {},
        Err(vs) => {
            return Err(EditRefusal::InvalidPlan(vs));
        },
    }
    let (files, truncated) = match load_include_graph(root, loader) {
        Ok(g) => g,
        Err(x) => {
            return Err(x);
        },
    };
    let label = plan_label(plan);
    if truncated {
        let reason = to_owned_string("搜索在 64 个文件处截断，无法确定目标是否唯一");
        return Err(EditRefusal::UnsupportedTarget { path: label, reason });
    }
    let mut probes: Vec<Probe> = Vec::new();
    let mut i: usize = 0;
    while i < files.len()
        invariant
            i <= files@.len(),
            forall|k: int| 0 <= k < probes@.len() ==> probe_ok(*plan, #[trigger] probes@[k]),
        decreases files@.len() - i,
    {
        let path = to_owned_string(files[i].0.as_str());
        let source = to_owned_string(files[i].1.as_str());
        let outcome = if short_enough(source.as_str()) {
            apply_edit_plan(source.as_str(), plan)
        } else {
            proof {
                reveal_strlit("文本过长，无法解析");
            }
            Err(EditRefusal::ParseFailed(to_owned_string("文本过长，无法解析")))
        };
        let ghost before = probes@;
        probes.push(Probe { path, source, outcome });
        proof {
            assert forall|k: int| 0 <= k < probes@.len() implies probe_ok(*plan, #[trigger] probes@[k]) by {
                if k < before.len() {
                    assert(probes@[k] == before[k]);
                }
            }
        }
        i = i + 1;
    }
    let ghost ps = probes@;
    let r = decide_across_files(probes, label);
    r
}

} // verus!
