//! Edit plans: which field to change, to what, and why. A plan is checked
//! for consistency before anything is applied.

use vstd::prelude::*;
use crate::edit::json::{member, JsonMember, JsonValue};
use crate::edit::value::{json_text, EditField, EditValue};
use crate::text::{
    chars_of, decimal_digits, is_white_space, lemma_trimmed_empty_iff, push_decimal, str_eq, trimmed, white_space,
};

verus! {

broadcast use vstd::string::group_string_axioms;

/// The contract version this library accepts.
pub const EDIT_PLAN_VERSION: &'static str = "1.0";

/// What an edit does to its target.
#[derive(Debug, Clone, Copy, PartialEq, Eq, Structural)]
pub enum EditOp {
    /// overwrite the value of an existing field
    Assign,
    /// add a new field
    Insert,
    /// remove a field
    Delete,
}

/// The wire name of an operation.
pub open spec fn op_name(op: EditOp) -> Seq<char> {
    match op {
        EditOp::Assign => "set"@,
        EditOp::Insert => "insert"@,
        EditOp::Delete => "delete"@,
    }
}

impl EditOp {
    /// The wire name of the operation.
    pub fn as_str(&self) -> (s: &'static str)
        ensures
            s@ == op_name(*self),
    {
        match self {
            EditOp::Assign => "set",
            EditOp::Insert => "insert",
            EditOp::Delete => "delete",
        }
    }
}

/// One step of a path: a field name, or the unique element of a `[[key]]`
/// list whose fields have the given values.
#[derive(Debug, PartialEq)]
pub enum PathSegment {
    Key(String),
    /// `match_fields` are in name order, each name once
    Named { key: String, match_fields: Vec<EditField> },
}

/// A precondition: the current value must be this one.
#[derive(Debug, PartialEq)]
pub struct EditExpectation {
    pub value: Option<EditValue>,
}

/// One intended edit.
#[derive(Debug, PartialEq)]
pub struct EditIntent {
    pub op: EditOp,
    pub path: Vec<PathSegment>,
    pub value: Option<EditValue>,
    pub reason: Option<String>,
    pub expect: Option<EditExpectation>,
}

/// A batch of edits applied in order.
#[derive(Debug, PartialEq)]
pub struct EditPlan {
    pub version: String,
    pub file: Option<String>,
    pub edits: Vec<EditIntent>,
}

/// A way in which a plan breaks the contract.
#[derive(Debug, Clone, PartialEq)]
pub struct PlanViolation {
    pub code: String,
    pub message: String,
    pub edit_index: Option<usize>,
}

/// A violation as plain values: code, message, index of the edit.
pub type ViolationView = (Seq<char>, Seq<char>, Option<usize>);

pub open spec fn violation_view(v: PlanViolation) -> ViolationView {
    (v.code@, v.message@, v.edit_index)
}

pub open spec fn violation_views(vs: Seq<PlanViolation>) -> Seq<ViolationView> {
    vs.map_values(|v: PlanViolation| violation_view(v))
}

/// How a violation reads: `edits[i] code: message`, or `code: message`.
pub open spec fn violation_text(v: ViolationView) -> Seq<char> {
    match v.2 {
        Some(i) => "edits["@ + decimal_digits(i as nat) + "] "@ + v.0 + ": "@ + v.1,
        None => v.0 + ": "@ + v.1,
    }
}

impl PlanViolation {
    pub fn new(code: &str, message: &str, edit_index: Option<usize>) -> (v: Self)
        ensures
            violation_view(v) == (code@, message@, edit_index),
    {
        PlanViolation { code: code.to_string(), message: message.to_string(), edit_index }
    }

    /// The violation as one line of text.
    pub fn describe(&self) -> (s: String)
        ensures
            s@ == violation_text(violation_view(*self)),
    {
        let mut s = String::new();
        match self.edit_index {
            Some(i) => {
                s.push_str("edits[");
                push_decimal(&mut s, i as u64);
                s.push_str("] ");
            },
            None => {},
        }
        s.push_str(self.code.as_str());
        s.push_str(": ");
        s.push_str(self.message.as_str());
        s
    }
}

/// `field=value` pairs of a named-list step, separated by commas.
pub open spec fn criteria_text(fs: Seq<EditField>) -> Seq<char>
    decreases fs.len(),
{
    if fs.len() == 0 {
        Seq::empty()
    } else if fs.len() == 1 {
        fs[0].name@ + seq!['='] + json_text(fs[0].value)
    } else {
        criteria_text(fs.drop_last()) + seq![','] + fs.last().name@ + seq!['='] + json_text(fs.last().value)
    }
}

/// How one path step reads.
pub open spec fn segment_text(s: PathSegment) -> Seq<char> {
    match s {
        PathSegment::Key(name) => name@,
        PathSegment::Named { key, match_fields } => key@ + seq!['['] + criteria_text(match_fields@) + seq![']'],
    }
}

/// How a path reads: its steps joined by dots.
pub open spec fn path_text(segs: Seq<PathSegment>) -> Seq<char>
    decreases segs.len(),
{
    if segs.len() == 0 {
        Seq::empty()
    } else if segs.len() == 1 {
        segment_text(segs[0])
    } else {
        path_text(segs.drop_last()) + seq!['.'] + segment_text(segs.last())
    }
}

fn push_criteria(out: &mut String, fs: &Vec<EditField>)
    ensures
        final(out)@ == old(out)@ + criteria_text(fs@),
{
    let ghost start = out@;
    let mut i: usize = 0;
    while i < fs.len()
        invariant
            i <= fs@.len(),
            out@ == start + criteria_text(fs@.take(i as int)),
        decreases fs@.len() - i,
    {
        proof {
            assert(fs@.take(i + 1).drop_last() == fs@.take(i as int));
            assert(fs@.take(i + 1).last() == fs@[i as int]);
            assert(fs@.take(i + 1)[0] == fs@[0]);
        }
        if i > 0 {
            out.push(',');
        }
        out.push_str(fs[i].name.as_str());
        out.push('=');
        let t = fs[i].value.to_text();
        out.push_str(t.as_str());
        i = i + 1;
    }
    proof {
        assert(fs@.take(fs@.len() as int) == fs@);
    }
}

fn push_segment(out: &mut String, s: &PathSegment)
    ensures
        final(out)@ == old(out)@ + segment_text(*s),
{
    match s {
        PathSegment::Key(name) => out.push_str(name.as_str()),
        PathSegment::Named { key, match_fields } => {
            out.push_str(key.as_str());
            out.push('[');
            push_criteria(out, match_fields);
            out.push(']');
        },
    }
}

/// The path as text, for messages and records.
pub fn describe_path(segments: &Vec<PathSegment>) -> (s: String)
    ensures
        s@ == path_text(segments@),
{
    let mut out = String::new();
    let mut i: usize = 0;
    while i < segments.len()
        invariant
            i <= segments@.len(),
            out@ == path_text(segments@.take(i as int)),
        decreases segments@.len() - i,
    {
        proof {
            assert(segments@.take(i + 1).drop_last() == segments@.take(i as int));
            assert(segments@.take(i + 1).last() == segments@[i as int]);
            assert(segments@.take(i + 1)[0] == segments@[0]);
        }
        if i > 0 {
            out.push('.');
        }
        push_segment(&mut out, &segments[i]);
        i = i + 1;
    }
    proof {
        assert(segments@.take(segments@.len() as int) == segments@);
    }
    out
}

/// Whether a name is empty once white space is trimmed.
pub open spec fn is_blank(s: Seq<char>) -> bool {
    trimmed(s).len() == 0
}

fn blank(s: &str) -> (b: bool)
    ensures
        b == is_blank(s@),
{
    let v = chars_of(s);
    proof {
        lemma_trimmed_empty_iff(s@);
    }
    let mut i: usize = 0;
    while i < v.len()
        invariant
            i <= v@.len(),
            v@ == s@,
            forall|k: int| 0 <= k < i ==> is_white_space(#[trigger] v@[k]),
        decreases v@.len() - i,
    {
        if !white_space(v[i]) {
            proof {
                lemma_trimmed_empty_iff(s@);
                assert(!is_white_space(s@[i as int]));
            }
            return false;
        }
        i = i + 1;
    }
    true
}

/// The violations of one path step of edit `i`.
pub open spec fn segment_violations(s: PathSegment, i: usize) -> Seq<ViolationView> {
    match s {
        PathSegment::Key(name) => if is_blank(name@) {
            seq![("empty_key"@, "路径段不能是空字段名"@, Some(i))]
        } else {
            Seq::empty()
        },
        PathSegment::Named { key, match_fields } => (if is_blank(key@) {
            seq![("empty_key"@, "命名列表的键名不能为空"@, Some(i))]
        } else {
            Seq::empty()
        }) + (if match_fields@.len() == 0 {
            seq![("empty_match"@, "命名列表定位必须给出至少一个匹配字段"@, Some(i))]
        } else {
            Seq::empty()
        }),
    }
}

/// The violations of the path steps of edit `i`, step by step.
pub open spec fn segments_violations(segs: Seq<PathSegment>, i: usize) -> Seq<ViolationView>
    decreases segs.len(),
{
    if segs.len() == 0 {
        Seq::empty()
    } else {
        segments_violations(segs.drop_last(), i) + segment_violations(segs.last(), i)
    }
}

/// A value is owed by `set` and `insert` and refused by `delete`.
pub open spec fn op_violations(e: EditIntent, i: usize) -> Seq<ViolationView> {
    match e.op {
        EditOp::Delete => if e.value is Some {
            seq![("unexpected_value"@, "op 'delete' 不接受 value"@, Some(i))]
        } else {
            Seq::empty()
        },
        _ => if e.value is None {
            seq![("missing_value"@, "op '"@ + op_name(e.op) + "' 必须提供 value"@, Some(i))]
        } else {
            Seq::empty()
        },
    }
}

/// An `expect` must name a value.
pub open spec fn expect_violations(e: EditIntent, i: usize) -> Seq<ViolationView> {
    match e.expect {
        Some(x) => if x.value is None {
            seq![("empty_expect"@, "expect 必须提供 value"@, Some(i))]
        } else {
            Seq::empty()
        },
        None => Seq::empty(),
    }
}

/// The latest edit before index `j` with a non-empty path that reads as the path of edit `i`.
pub open spec fn earlier_same_target(es: Seq<EditIntent>, i: int, j: int) -> Option<int>
    decreases j,
{
    if j <= 0 {
        None
    } else if es[j - 1].path@.len() > 0 && path_text(es[j - 1].path@) == path_text(es[i].path@) {
        Some(j - 1)
    } else {
        earlier_same_target(es, i, j - 1)
    }
}

/// Two edits of one plan must not aim at the same target.
pub open spec fn duplicate_violations(es: Seq<EditIntent>, i: int) -> Seq<ViolationView> {
    if es[i].path@.len() == 0 {
        Seq::empty()
    } else {
        match earlier_same_target(es, i, i) {
            Some(p) => seq![
                (
                    "duplicate_target"@,
                    "同一目标在一次计划中出现多次（edits["@ + decimal_digits(p as nat) + "] 与 edits["@ + decimal_digits(
                        i as nat,
                    ) + "] 都指向 "@ + path_text(es[i].path@) + "）"@,
                    Some(i as usize),
                ),
            ],
            None => Seq::empty(),
        }
    }
}

/// The violations of edit `i`, in the order they are reported.
pub open spec fn edit_violations(es: Seq<EditIntent>, i: int) -> Seq<ViolationView> {
    (if es[i].path@.len() == 0 {
        seq![("empty_path"@, "路径不能为空"@, Some(i as usize))]
    } else {
        Seq::empty()
    }) + segments_violations(es[i].path@, i as usize) + op_violations(es[i], i as usize) + expect_violations(
        es[i],
        i as usize,
    ) + duplicate_violations(es, i)
}

/// The violations of the first `n` edits.
pub open spec fn edits_violations(es: Seq<EditIntent>, n: int) -> Seq<ViolationView>
    decreases n,
{
    if n <= 0 {
        Seq::empty()
    } else {
        edits_violations(es, n - 1) + edit_violations(es, n - 1)
    }
}

/// Everything that is wrong with a plan, in the order it is reported.
pub open spec fn plan_violations(p: EditPlan) -> Seq<ViolationView> {
    (if p.version@ != EDIT_PLAN_VERSION@ {
        seq![("unsupported_version"@, "契约版本 '"@ + p.version@ + "' 不受支持，当前只接受 "@ + EDIT_PLAN_VERSION@, None)]
    } else {
        Seq::empty()
    }) + (if p.edits@.len() == 0 {
        seq![("empty_edits"@, "编辑计划至少要包含一条编辑"@, None)]
    } else {
        Seq::empty()
    }) + edits_violations(p.edits@, p.edits@.len() as int)
}

fn report(out: &mut Vec<PlanViolation>, code: &str, message: &str, edit_index: Option<usize>)
    ensures
        violation_views(final(out)@) == violation_views(old(out)@) + seq![(code@, message@, edit_index)],
{
    out.push(PlanViolation::new(code, message, edit_index));
    proof {
        assert(violation_views(out@) =~= violation_views(old(out)@) + seq![(code@, message@, edit_index)]);
    }
}

fn check_segments(out: &mut Vec<PlanViolation>, segs: &Vec<PathSegment>, i: usize)
    ensures
        violation_views(final(out)@) == violation_views(old(out)@) + segments_violations(segs@, i),
{
    let ghost start = violation_views(out@);
    let mut k: usize = 0;
    while k < segs.len()
        invariant
            k <= segs@.len(),
            violation_views(out@) == start + segments_violations(segs@.take(k as int), i),
        decreases segs@.len() - k,
    {
        proof {
            assert(segs@.take(k + 1).drop_last() == segs@.take(k as int));
            assert(segs@.take(k + 1).last() == segs@[k as int]);
        }
        let ghost before = violation_views(out@);
        match &segs[k] {
            PathSegment::Key(name) => {
                if blank(name.as_str()) {
                    report(out, "empty_key", "路径段不能是空字段名", Some(i));
                }
            },
            PathSegment::Named { key, match_fields } => {
                if blank(key.as_str()) {
                    report(out, "empty_key", "命名列表的键名不能为空", Some(i));
                }
                if match_fields.len() == 0 {
                    report(out, "empty_match", "命名列表定位必须给出至少一个匹配字段", Some(i));
                }
            },
        }
        proof {
            assert(violation_views(out@) =~= before + segment_violations(segs@[k as int], i));
        }
        k = k + 1;
    }
    proof {
        assert(segs@.take(segs@.len() as int) == segs@);
    }
}

fn find_earlier(es: &Vec<EditIntent>, targets: &Vec<String>, target: &String, i: usize) -> (r: Option<usize>)
    requires
        i < es@.len(),
        targets@.len() == i,
        forall|k: int| 0 <= k < i ==> (#[trigger] targets@[k])@ == path_text(es@[k].path@),
        target@ == path_text(es@[i as int].path@),
    ensures
        match r {
            Some(q) => earlier_same_target(es@, i as int, i as int) == Some(q as int),
            None => earlier_same_target(es@, i as int, i as int) is None,
        },
{
    let mut j: usize = i;
    while j > 0
        invariant
            j <= i,
            i < es@.len(),
            targets@.len() == i,
            forall|k: int| 0 <= k < i ==> (#[trigger] targets@[k])@ == path_text(es@[k].path@),
            target@ == path_text(es@[i as int].path@),
            earlier_same_target(es@, i as int, i as int) == earlier_same_target(es@, i as int, j as int),
        decreases j,
    {
        if es[j - 1].path.len() > 0 && str_eq(targets[j - 1].as_str(), target.as_str()) {
            return Some(j - 1);
        }
        j = j - 1;
    }
    None
}

#[verifier::spinoff_prover]
#[verifier::rlimit(40)]
fn check_edit(out: &mut Vec<PlanViolation>, es: &Vec<EditIntent>, targets: &Vec<String>, i: usize)
    requires
        i < es@.len(),
        targets@.len() == i,
        forall|k: int| 0 <= k < i ==> (#[trigger] targets@[k])@ == path_text(es@[k].path@),
    ensures
        violation_views(final(out)@) == violation_views(old(out)@) + edit_violations(es@, i as int),
{
    let ghost v0 = violation_views(out@);
    let e = &es[i];
    if e.path.len() == 0 {
        report(out, "empty_path", "路径不能为空", Some(i));
    }
    let ghost v1 = violation_views(out@);
    check_segments(out, &e.path, i);
    let ghost v2 = violation_views(out@);
    match e.op {
        EditOp::Delete => {
            if e.value.is_some() {
                report(out, "unexpected_value", "op 'delete' 不接受 value", Some(i));
            }
        },
        _ => {
            if e.value.is_none() {
                let mut m = String::new();
                m.push_str("op '");
                m.push_str(e.op.as_str());
                m.push_str("' 必须提供 value");
                report(out, "missing_value", m.as_str(), Some(i));
            }
        },
    }
    let ghost v3 = violation_views(out@);
    match &e.expect {
        Some(x) => {
            if x.value.is_none() {
                report(out, "empty_expect", "expect 必须提供 value", Some(i));
            }
        },
        None => {},
    }
    let ghost v4 = violation_views(out@);
    if e.path.len() > 0 {
        let target = describe_path(&e.path);
        match find_earlier(es, targets, &target, i) {
            Some(p) => {
                let mut m = String::new();
                m.push_str("同一目标在一次计划中出现多次（edits[");
                push_decimal(&mut m, p as u64);
                m.push_str("] 与 edits[");
                push_decimal(&mut m, i as u64);
                m.push_str("] 都指向 ");
                m.push_str(target.as_str());
                m.push_str("）");
                proof {
                    assert(m@ =~= "同一目标在一次计划中出现多次（edits["@ + decimal_digits(p as nat) + "] 与 edits["@
                        + decimal_digits(i as nat) + "] 都指向 "@ + path_text(es@[i as int].path@) + "）"@);
                }
                report(out, "duplicate_target", m.as_str(), Some(i));
            },
            None => {},
        }
    }
    proof {
        assert(violation_views(out@) =~= v4 + duplicate_violations(es@, i as int));
        assert(v1 =~= v0 + (if es@[i as int].path@.len() == 0 {
            seq![("empty_path"@, "路径不能为空"@, Some(i))]
        } else {
            Seq::empty()
        }));
        assert(v3 =~= v2 + op_violations(es@[i as int], i));
        assert(v4 =~= v3 + expect_violations(es@[i as int], i));
        assert(violation_views(out@) =~= v0 + edit_violations(es@, i as int));
    }
}

impl EditPlan {
    /// Checks that the plan is consistent in itself: `Ok` when nothing is
    /// wrong, else every violation in the order the checks find them.
    pub fn validate(&self) -> (r: Result<(), Vec<PlanViolation>>)
        ensures
            match r {
                Ok(()) => plan_violations(*self).len() == 0,
                Err(vs) => vs@.len() > 0 && violation_views(vs@) == plan_violations(*self),
            },
    {
        let mut out: Vec<PlanViolation> = Vec::new();
        proof {
            assert(violation_views(out@) =~= Seq::<ViolationView>::empty());
        }
        if !str_eq(self.version.as_str(), EDIT_PLAN_VERSION) {
            let mut m = String::new();
            m.push_str("契约版本 '");
            m.push_str(self.version.as_str());
            m.push_str("' 不受支持，当前只接受 ");
            m.push_str(EDIT_PLAN_VERSION);
            report(&mut out, "unsupported_version", m.as_str(), None);
        }
        if self.edits.len() == 0 {
            report(&mut out, "empty_edits", "编辑计划至少要包含一条编辑", None);
        }
        let ghost head = violation_views(out@);
        let mut targets: Vec<String> = Vec::new();
        let mut i: usize = 0;
        while i < self.edits.len()
            invariant
                i <= self.edits@.len(),
                targets@.len() == i,
                forall|k: int| 0 <= k < i ==> (#[trigger] targets@[k])@ == path_text(self.edits@[k].path@),
                violation_views(out@) == head + edits_violations(self.edits@, i as int),
            decreases self.edits@.len() - i,
        {
            check_edit(&mut out, &self.edits, &targets, i);
            let t = describe_path(&self.edits[i].path);
            targets.push(t);
            proof {
                assert(violation_views(out@) =~= head + edits_violations(self.edits@, i + 1));
            }
            i = i + 1;
        }
        proof {
            assert(violation_views(out@) =~= plan_violations(*self));
            assert(out@.len() == violation_views(out@).len());
        }
        if out.len() == 0 {
            Ok(())
        } else {
            Err(out)
        }
    }
}

/// The fields an edit plan may have.
pub open spec fn plan_fields() -> Seq<Seq<char>> {
    seq!["version"@, "file"@, "edits"@]
}

/// The fields an edit may have.
pub open spec fn edit_fields() -> Seq<Seq<char>> {
    seq!["op"@, "path"@, "value"@, "reason"@, "expect"@]
}

/// The fields a named-list path step may have.
pub open spec fn segment_fields() -> Seq<Seq<char>> {
    seq!["key"@, "match"@]
}

/// The fields an expectation may have.
pub open spec fn expect_fields() -> Seq<Seq<char>> {
    seq!["value"@]
}

/// One `unknown_field` violation per member whose key is not allowed, in member order.
pub open spec fn unknown_members(ms: Seq<JsonMember>, allowed: Seq<Seq<char>>, prefix: Seq<char>, idx: Option<usize>) -> Seq<
    ViolationView,
>
    decreases ms.len(),
{
    if ms.len() == 0 {
        Seq::empty()
    } else {
        unknown_members(ms.drop_last(), allowed, prefix, idx) + if allowed.contains(ms.last().key@) {
            Seq::empty()
        } else {
            seq![("unknown_field"@, prefix + ms.last().key@ + "'"@, idx)]
        }
    }
}

/// The unknown fields of the object steps of a path (other steps are not looked at).
pub open spec fn segments_shape(segs: Seq<JsonValue>, i: usize) -> Seq<ViolationView>
    decreases segs.len(),
{
    if segs.len() == 0 {
        Seq::empty()
    } else {
        segments_shape(segs.drop_last(), i) + match segs.last() {
            JsonValue::Object(ms) => unknown_members(ms@, segment_fields(), "路径段不支持字段 '"@, Some(i)),
            _ => Seq::empty(),
        }
    }
}

/// The shape violations of edit `i`.
pub open spec fn edit_shape(e: JsonValue, i: usize) -> Seq<ViolationView> {
    match e {
        JsonValue::Object(ms) => unknown_members(ms@, edit_fields(), "编辑不支持字段 '"@, Some(i)) + match member(e, "path"@) {
            Some(JsonValue::Array(segs)) => segments_shape(segs@, i),
            _ => Seq::empty(),
        } + match member(e, "expect"@) {
            Some(JsonValue::Object(xs)) => unknown_members(xs@, expect_fields(), "expect 不支持字段 '"@, Some(i)),
            _ => Seq::empty(),
        },
        _ => seq![("invalid_shape"@, "每条编辑必须是对象"@, Some(i))],
    }
}

/// The shape violations of the edits, edit by edit.
pub open spec fn edits_shape(es: Seq<JsonValue>) -> Seq<ViolationView>
    decreases es.len(),
{
    if es.len() == 0 {
        Seq::empty()
    } else {
        edits_shape(es.drop_last()) + edit_shape(es.last(), (es.len() - 1) as usize)
    }
}

/// What a raw plan breaks of the contract's shape: an object at the top, and
/// no field that the contract does not name, at any level.
pub open spec fn shape_violations(raw: JsonValue) -> Seq<ViolationView> {
    match raw {
        JsonValue::Object(ms) => unknown_members(ms@, plan_fields(), "编辑计划不支持字段 '"@, None) + match member(raw, "edits"@) {
            Some(JsonValue::Array(es)) => edits_shape(es@),
            _ => Seq::empty(),
        },
        _ => seq![("invalid_shape"@, "编辑计划必须是对象"@, None)],
    }
}

fn one_of(k: &str, allowed: &Vec<&str>) -> (b: bool)
    ensures
        b == allowed@.map_values(|a: &str| a@).contains(k@),
{
    let ghost av = allowed@.map_values(|a: &str| a@);
    let mut i: usize = 0;
    while i < allowed.len()
        invariant
            i <= allowed@.len(),
            av == allowed@.map_values(|a: &str| a@),
            forall|j: int| 0 <= j < i ==> av[j] != k@,
        decreases allowed@.len() - i,
    {
        if str_eq(allowed[i], k) {
            assert(av[i as int] == k@);
            return true;
        }
        i = i + 1;
    }
    false
}

fn report_unknown(out: &mut Vec<PlanViolation>, ms: &Vec<JsonMember>, allowed: &Vec<&str>, prefix: &str, idx: Option<usize>)
    ensures
        violation_views(final(out)@) == violation_views(old(out)@) + unknown_members(
            ms@,
            allowed@.map_values(|a: &str| a@),
            prefix@,
            idx,
        ),
{
    let ghost av = allowed@.map_values(|a: &str| a@);
    let ghost start = violation_views(out@);
    let mut k: usize = 0;
    while k < ms.len()
        invariant
            k <= ms@.len(),
            av == allowed@.map_values(|a: &str| a@),
            violation_views(out@) == start + unknown_members(ms@.take(k as int), av, prefix@, idx),
        decreases ms@.len() - k,
    {
        proof {
            assert(ms@.take(k + 1).drop_last() == ms@.take(k as int));
            assert(ms@.take(k + 1).last() == ms@[k as int]);
        }
        if !one_of(ms[k].key.as_str(), allowed) {
            let mut m = String::new();
            m.push_str(prefix);
            m.push_str(ms[k].key.as_str());
            m.push_str("'");
            report(out, "unknown_field", m.as_str(), idx);
        }
        proof {
            assert(violation_views(out@) =~= start + unknown_members(ms@.take(k + 1), av, prefix@, idx));
        }
        k = k + 1;
    }
    proof {
        assert(ms@.take(ms@.len() as int) == ms@);
    }
}

fn check_edit_shape(out: &mut Vec<PlanViolation>, e: &JsonValue, i: usize)
    ensures
        violation_views(final(out)@) == violation_views(old(out)@) + edit_shape(*e, i),
{
    let ghost v0 = violation_views(out@);
    match e {
        JsonValue::Object(ms) => {
            let edit_keys = vec!["op", "path", "value", "reason", "expect"];
            assert(edit_keys@.map_values(|a: &str| a@) =~= edit_fields());
            report_unknown(out, ms, &edit_keys, "编辑不支持字段 '", Some(i));
            let ghost v1 = violation_views(out@);
            match e.get("path") {
                Some(JsonValue::Array(segs)) => {
                    let seg_keys = vec!["key", "match"];
                    assert(seg_keys@.map_values(|a: &str| a@) =~= segment_fields());
                    let ghost s0 = violation_views(out@);
                    let mut k: usize = 0;
                    while k < segs.len()
                        invariant
                            k <= segs@.len(),
                            seg_keys@.map_values(|a: &str| a@) == segment_fields(),
                            violation_views(out@) == s0 + segments_shape(segs@.take(k as int), i),
                        decreases segs@.len() - k,
                    {
                        proof {
                            assert(segs@.take(k + 1).drop_last() == segs@.take(k as int));
                            assert(segs@.take(k + 1).last() == segs@[k as int]);
                        }
                        let ghost b = violation_views(out@);
                        match &segs[k] {
                            JsonValue::Object(sm) => {
                                report_unknown(out, sm, &seg_keys, "路径段不支持字段 '", Some(i));
                            },
                            _ => {},
                        }
                        proof {
                            assert(violation_views(out@) =~= s0 + segments_shape(segs@.take(k + 1), i));
                        }
                        k = k + 1;
                    }
                    proof {
                        assert(segs@.take(segs@.len() as int) == segs@);
                    }
                },
                _ => {},
            }
            let ghost v2 = violation_views(out@);
            match e.get("expect") {
                Some(JsonValue::Object(xs)) => {
                    let expect_keys = vec!["value"];
                    assert(expect_keys@.map_values(|a: &str| a@) =~= expect_fields());
                    report_unknown(out, xs, &expect_keys, "expect 不支持字段 '", Some(i));
                },
                _ => {},
            }
            proof {
                assert(violation_views(out@) =~= v0 + edit_shape(*e, i));
            }
        },
        _ => {
            report(out, "invalid_shape", "每条编辑必须是对象", Some(i));
        },
    }
}

/// Checks a raw plan against the contract's shape, appending what is wrong
/// to `out`: a plan or an edit that is not an object, and every field the
/// contract does not name.
pub fn check_contract_shape(raw: &JsonValue, out: &mut Vec<PlanViolation>)
    ensures
        violation_views(final(out)@) == violation_views(old(out)@) + shape_violations(*raw),
{
    let ghost v0 = violation_views(out@);
    match raw {
        JsonValue::Object(ms) => {
            let plan_keys = vec!["version", "file", "edits"];
            assert(plan_keys@.map_values(|a: &str| a@) =~= plan_fields());
            report_unknown(out, ms, &plan_keys, "编辑计划不支持字段 '", None);
            let ghost v1 = violation_views(out@);
            match raw.get("edits") {
                Some(JsonValue::Array(es)) => {
                    let mut i: usize = 0;
                    while i < es.len()
                        invariant
                            i <= es@.len(),
                            violation_views(out@) == v1 + edits_shape(es@.take(i as int)),
                        decreases es@.len() - i,
                    {
                        proof {
                            assert(es@.take(i + 1).drop_last() == es@.take(i as int));
                            assert(es@.take(i + 1).last() == es@[i as int]);
                        }
                        check_edit_shape(out, &es[i], i);
                        proof {
                            assert(violation_views(out@) =~= v1 + edits_shape(es@.take(i + 1)));
                        }
                        i = i + 1;
                    }
                    proof {
                        assert(es@.take(es@.len() as int) == es@);
                    }
                },
                _ => {},
            }
            proof {
                assert(violation_views(out@) =~= v0 + shape_violations(*raw));
            }
        },
        _ => {
            report(out, "invalid_shape", "编辑计划必须是对象", None);
        },
    }
}

/// The violations of a raw plan and of the plan decoded from it, together.
pub open spec fn intake_violations(raw: JsonValue, p: EditPlan) -> Seq<ViolationView> {
    shape_violations(raw) + plan_violations(p)
}

impl EditPlan {
    /// Accepts a plan read from JSON. `raw` is the parsed document and
    /// `decoded` the plan decoded from it, or why decoding failed. A decoding
    /// failure alone is reported as `invalid_shape`; otherwise the plan is
    /// returned when neither its shape nor its content breaks the contract,
    /// and every violation of both is returned when one does.
    pub fn from_json_parts(raw: &JsonValue, decoded: Result<EditPlan, String>) -> (r: Result<EditPlan, Vec<PlanViolation>>)
        ensures
            match decoded {
                Err(e) => r matches Err(vs) && violation_views(vs@) == seq![("invalid_shape"@, e@, None::<usize>)],
                Ok(p) => if intake_violations(*raw, p).len() == 0 {
                    r == Ok::<EditPlan, Vec<PlanViolation>>(p)
                } else {
                    r matches Err(vs) && violation_views(vs@) == intake_violations(*raw, p)
                },
            },
    {
        let mut violations: Vec<PlanViolation> = Vec::new();
        proof {
            assert(violation_views(violations@) =~= Seq::<ViolationView>::empty());
        }
        check_contract_shape(raw, &mut violations);
        match decoded {
            Err(e) => {
                let mut only: Vec<PlanViolation> = Vec::new();
                proof {
                    assert(violation_views(only@) =~= Seq::<ViolationView>::empty());
                }
                report(&mut only, "invalid_shape", e.as_str(), None);
                Err(only)
            },
            Ok(plan) => {
                match plan.validate() {
                    Ok(()) => {},
                    Err(semantic) => {
                        let ghost before = violations@;
                        let mut semantic = semantic;
                        let ghost sv = semantic@;
                        violations.append(&mut semantic);
                        proof {
                            assert(violation_views(violations@) =~= violation_views(before) + violation_views(sv));
                        }
                    },
                }
                proof {
                    assert(violations@.len() == violation_views(violations@).len());
                }
                if violations.len() == 0 {
                    Ok(plan)
                } else {
                    Err(violations)
                }
            },
        }
    }
}

} // verus!
