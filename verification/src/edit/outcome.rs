//! What applying an edit plan gives back: the edited source with a record of
//! each edit, or the one reason nothing was changed.

use vstd::prelude::*;
use crate::edit::json::{array_of, json_view, object1, object2, object3, string_member, JsonMember, JsonValue, JsonView};
use crate::edit::plan::{violation_text, violation_view, EditOp, PlanViolation};
use crate::text::{decimal, decimal_digits, push_decimal};

verus! {

broadcast use vstd::string::group_string_axioms;

/// Why an edit was refused. Each variant is one way in which an edit fails
/// closed instead of guessing.
#[derive(Debug, Clone, PartialEq)]
pub enum EditRefusal {
    /// the plan is not consistent in itself
    InvalidPlan(Vec<PlanViolation>),
    /// the source does not parse
    ParseFailed(String),
    /// the target field does not exist
    TargetNotFound { path: String },
    /// a named-list step matched more than one element
    TargetAmbiguous { path: String, matches: usize },
    /// the target of an insert exists already
    TargetAlreadyExists { path: String },
    /// the current value is not the expected one
    ExpectationMismatch { path: String, expected: String, actual: String },
    /// the target cannot take this kind of edit
    UnsupportedTarget { path: String, reason: String },
    /// the edited source fails structural or schema validation
    ValidationFailed { path: String, message: String },
    /// the edit brings in a new high-risk finding: the rules, ascending, and
    /// each new instance as `rule @ location`
    SecurityRejected { path: String, findings: Vec<String>, instances: Vec<String> },
}

/// The stable machine-readable code of a refusal.
pub open spec fn refusal_code(r: EditRefusal) -> Seq<char> {
    match r {
        EditRefusal::InvalidPlan(_) => "invalid_plan"@,
        EditRefusal::ParseFailed(_) => "parse_failed"@,
        EditRefusal::TargetNotFound { .. } => "target_not_found"@,
        EditRefusal::TargetAmbiguous { .. } => "target_ambiguous"@,
        EditRefusal::TargetAlreadyExists { .. } => "target_already_exists"@,
        EditRefusal::ExpectationMismatch { .. } => "expectation_mismatch"@,
        EditRefusal::UnsupportedTarget { .. } => "unsupported_target"@,
        EditRefusal::ValidationFailed { .. } => "validation_failed"@,
        EditRefusal::SecurityRejected { .. } => "security_rejected"@,
    }
}

/// Violations as text, separated by `; `.
pub open spec fn violations_text(vs: Seq<PlanViolation>) -> Seq<char>
    decreases vs.len(),
{
    if vs.len() == 0 {
        Seq::empty()
    } else if vs.len() == 1 {
        violation_text(violation_view(vs[0]))
    } else {
        violations_text(vs.drop_last()) + "; "@ + violation_text(violation_view(vs.last()))
    }
}

/// Strings separated by `, `.
pub open spec fn comma_list(xs: Seq<String>) -> Seq<char>
    decreases xs.len(),
{
    if xs.len() == 0 {
        Seq::empty()
    } else if xs.len() == 1 {
        xs[0]@
    } else {
        comma_list(xs.drop_last()) + ", "@ + xs.last()@
    }
}

/// How a refusal reads.
pub open spec fn refusal_text(r: EditRefusal) -> Seq<char> {
    match r {
        EditRefusal::InvalidPlan(vs) => "编辑计划不合法："@ + violations_text(vs@),
        EditRefusal::ParseFailed(m) => "源码无法解析："@ + m@,
        EditRefusal::TargetNotFound { path } => "目标不存在："@ + path@,
        EditRefusal::TargetAmbiguous { path, matches } => "目标有歧义："@ + path@ + " 命中了 "@ + decimal_digits(
            matches as nat,
        ) + " 个元素，必须唯一命中"@,
        EditRefusal::TargetAlreadyExists { path } => "目标已存在："@ + path@ + "，如需覆盖请使用 set"@,
        EditRefusal::ExpectationMismatch { path, expected, actual } => "前置条件不符："@ + path@ + " 期望 "@ + expected@
            + "，实际 "@ + actual@,
        EditRefusal::UnsupportedTarget { path, reason } => "目标不支持该操作："@ + path@ + "（"@ + reason@ + "）"@,
        EditRefusal::ValidationFailed { path, message } => "改动后校验失败："@ + path@ + "（"@ + message@ + "）"@,
        EditRefusal::SecurityRejected { path, findings, .. } => "改动引入新的安全风险："@ + path@ + "（"@ + comma_list(
            findings@,
        ) + "）"@,
    }
}

/// A violation as a JSON object: code, edit index (or null), message.
pub open spec fn violation_details(v: PlanViolation) -> JsonView {
    JsonView::Object(
        seq![
            ("code"@, JsonView::String(v.code@)),
            (
                "edit_index"@,
                match v.edit_index {
                    Some(i) => JsonView::Number(decimal_digits(i as nat)),
                    None => JsonView::Null,
                },
            ),
            ("message"@, JsonView::String(v.message@)),
        ],
    )
}

/// The structured details of a refusal, members in key order.
pub open spec fn refusal_details(r: EditRefusal) -> JsonView {
    match r {
        EditRefusal::InvalidPlan(vs) => JsonView::Object(
            seq![("violations"@, JsonView::Array(vs@.map_values(|v: PlanViolation| violation_details(v))))],
        ),
        EditRefusal::ParseFailed(m) => JsonView::Object(seq![("message"@, JsonView::String(m@))]),
        EditRefusal::TargetNotFound { path } => JsonView::Object(seq![("path"@, JsonView::String(path@))]),
        EditRefusal::TargetAlreadyExists { path } => JsonView::Object(seq![("path"@, JsonView::String(path@))]),
        EditRefusal::UnsupportedTarget { path, .. } => JsonView::Object(seq![("path"@, JsonView::String(path@))]),
        EditRefusal::TargetAmbiguous { path, matches } => JsonView::Object(
            seq![("matches"@, JsonView::Number(decimal_digits(matches as nat))), ("path"@, JsonView::String(path@))],
        ),
        EditRefusal::ExpectationMismatch { path, expected, actual } => JsonView::Object(
            seq![
                ("actual"@, JsonView::String(actual@)),
                ("expected"@, JsonView::String(expected@)),
                ("path"@, JsonView::String(path@)),
            ],
        ),
        EditRefusal::ValidationFailed { path, message } => JsonView::Object(
            seq![("message"@, JsonView::String(message@)), ("path"@, JsonView::String(path@))],
        ),
        EditRefusal::SecurityRejected { path, findings, instances } => JsonView::Object(
            seq![
                ("findings"@, JsonView::Array(findings@.map_values(|f: String| JsonView::String(f@)))),
                ("instances"@, JsonView::Array(instances@.map_values(|f: String| JsonView::String(f@)))),
                ("path"@, JsonView::String(path@)),
            ],
        ),
    }
}

fn push_violations(out: &mut String, vs: &Vec<PlanViolation>)
    ensures
        final(out)@ == old(out)@ + violations_text(vs@),
{
    let ghost start = out@;
    let mut i: usize = 0;
    while i < vs.len()
        invariant
            i <= vs@.len(),
            out@ == start + violations_text(vs@.take(i as int)),
        decreases vs@.len() - i,
    {
        proof {
            assert(vs@.take(i + 1).drop_last() == vs@.take(i as int));
            assert(vs@.take(i + 1).last() == vs@[i as int]);
            assert(vs@.take(i + 1)[0] == vs@[0]);
        }
        if i > 0 {
            out.push_str("; ");
        }
        let t = vs[i].describe();
        out.push_str(t.as_str());
        i = i + 1;
    }
    proof {
        assert(vs@.take(vs@.len() as int) == vs@);
    }
}

fn push_comma_list(out: &mut String, xs: &Vec<String>)
    ensures
        final(out)@ == old(out)@ + comma_list(xs@),
{
    let ghost start = out@;
    let mut i: usize = 0;
    while i < xs.len()
        invariant
            i <= xs@.len(),
            out@ == start + comma_list(xs@.take(i as int)),
        decreases xs@.len() - i,
    {
        proof {
            assert(xs@.take(i + 1).drop_last() == xs@.take(i as int));
            assert(xs@.take(i + 1).last() == xs@[i as int]);
            assert(xs@.take(i + 1)[0] == xs@[0]);
        }
        if i > 0 {
            out.push_str(", ");
        }
        out.push_str(xs[i].as_str());
        i = i + 1;
    }
    proof {
        assert(xs@.take(xs@.len() as int) == xs@);
    }
}

fn violation_json(v: &PlanViolation) -> (j: JsonValue)
    ensures
        json_view(j) == violation_details(*v),
{
    let index = match v.edit_index {
        Some(i) => JsonValue::Number(decimal(i as u64)),
        None => JsonValue::Null,
    };
    proof {
        assert(json_view(index) == match v.edit_index {
            Some(i) => JsonView::Number(decimal_digits(i as nat)),
            None => JsonView::Null,
        });
    }
    let key = crate::text::to_owned_string("edit_index");
    let a = string_member("code", v.code.as_str());
    let b = JsonMember { key, value: index };
    let c = string_member("message", v.message.as_str());
    proof {
        assert(seq![(a.key@, json_view(a.value)), (b.key@, json_view(b.value)), (c.key@, json_view(c.value))]
            =~= seq![
            ("code"@, JsonView::String(v.code@)),
            (
                "edit_index"@,
                match v.edit_index {
                    Some(i) => JsonView::Number(decimal_digits(i as nat)),
                    None => JsonView::Null,
                },
            ),
            ("message"@, JsonView::String(v.message@)),
        ]);
    }
    object3(a, b, c)
}

impl EditRefusal {
    /// The stable machine-readable code of this refusal.
    pub fn code(&self) -> (s: &'static str)
        ensures
            s@ == refusal_code(*self),
    {
        match self {
            EditRefusal::InvalidPlan(_) => "invalid_plan",
            EditRefusal::ParseFailed(_) => "parse_failed",
            EditRefusal::TargetNotFound { .. } => "target_not_found",
            EditRefusal::TargetAmbiguous { .. } => "target_ambiguous",
            EditRefusal::TargetAlreadyExists { .. } => "target_already_exists",
            EditRefusal::ExpectationMismatch { .. } => "expectation_mismatch",
            EditRefusal::UnsupportedTarget { .. } => "unsupported_target",
            EditRefusal::ValidationFailed { .. } => "validation_failed",
            EditRefusal::SecurityRejected { .. } => "security_rejected",
        }
    }

    /// The refusal as a sentence.
    pub fn describe(&self) -> (s: String)
        ensures
            s@ == refusal_text(*self),
    {
        let mut s = String::new();
        match self {
            EditRefusal::InvalidPlan(vs) => {
                s.push_str("编辑计划不合法：");
                push_violations(&mut s, vs);
            },
            EditRefusal::ParseFailed(m) => {
                s.push_str("源码无法解析：");
                s.push_str(m.as_str());
            },
            EditRefusal::TargetNotFound { path } => {
                s.push_str("目标不存在：");
                s.push_str(path.as_str());
            },
            EditRefusal::TargetAmbiguous { path, matches } => {
                s.push_str("目标有歧义：");
                s.push_str(path.as_str());
                s.push_str(" 命中了 ");
                push_decimal(&mut s, *matches as u64);
                s.push_str(" 个元素，必须唯一命中");
            },
            EditRefusal::TargetAlreadyExists { path } => {
                s.push_str("目标已存在：");
                s.push_str(path.as_str());
                s.push_str("，如需覆盖请使用 set");
            },
            EditRefusal::ExpectationMismatch { path, expected, actual } => {
                s.push_str("前置条件不符：");
                s.push_str(path.as_str());
                s.push_str(" 期望 ");
                s.push_str(expected.as_str());
                s.push_str("，实际 ");
                s.push_str(actual.as_str());
            },
            EditRefusal::UnsupportedTarget { path, reason } => {
                s.push_str("目标不支持该操作：");
                s.push_str(path.as_str());
                s.push_str("（");
                s.push_str(reason.as_str());
                s.push_str("）");
            },
            EditRefusal::ValidationFailed { path, message } => {
                s.push_str("改动后校验失败：");
                s.push_str(path.as_str());
                s.push_str("（");
                s.push_str(message.as_str());
                s.push_str("）");
            },
            EditRefusal::SecurityRejected { path, findings, .. } => {
                s.push_str("改动引入新的安全风险：");
                s.push_str(path.as_str());
                s.push_str("（");
                push_comma_list(&mut s, findings);
                s.push_str("）");
            },
        }
        s
    }

    /// Structured details that go with the code.
    pub fn details(&self) -> (j: JsonValue)
        ensures
            json_view(j) == refusal_details(*self),
    {
        match self {
            EditRefusal::InvalidPlan(vs) => {
                let mut items: Vec<JsonValue> = Vec::new();
                let mut i: usize = 0;
                while i < vs.len()
                    invariant
                        i <= vs@.len(),
                        items@.len() == i,
                        forall|k: int| 0 <= k < i ==> json_view(#[trigger] items@[k]) == violation_details(vs@[k]),
                    decreases vs@.len() - i,
                {
                    items.push(violation_json(&vs[i]));
                    i = i + 1;
                }
                let ghost iv = items@;
                let arr = array_of(items);
                proof {
                    assert(iv.map_values(|v: JsonValue| json_view(v)) =~= vs@.map_values(
                        |v: PlanViolation| violation_details(v),
                    ));
                }
                object1(JsonMember { key: "violations".to_string(), value: arr })
            },
            EditRefusal::ParseFailed(m) => object1(string_member("message", m.as_str())),
            EditRefusal::TargetNotFound { path } => object1(string_member("path", path.as_str())),
            EditRefusal::TargetAlreadyExists { path } => object1(string_member("path", path.as_str())),
            EditRefusal::UnsupportedTarget { path, .. } => object1(string_member("path", path.as_str())),
            EditRefusal::TargetAmbiguous { path, matches } => object2(
                JsonMember { key: "matches".to_string(), value: JsonValue::Number(decimal(*matches as u64)) },
                string_member("path", path.as_str()),
            ),
            EditRefusal::ExpectationMismatch { path, expected, actual } => object3(
                string_member("actual", actual.as_str()),
                string_member("expected", expected.as_str()),
                string_member("path", path.as_str()),
            ),
            EditRefusal::ValidationFailed { path, message } => object2(
                string_member("message", message.as_str()),
                string_member("path", path.as_str()),
            ),
            EditRefusal::SecurityRejected { path, findings, instances } => object3(
                JsonMember { key: "findings".to_string(), value: strings_json(findings) },
                JsonMember { key: "instances".to_string(), value: strings_json(instances) },
                string_member("path", path.as_str()),
            ),
        }
    }
}

/// A list of texts as a JSON array of strings.
fn strings_json(v: &Vec<String>) -> (j: JsonValue)
    ensures
        json_view(j) == JsonView::Array(v@.map_values(|f: String| JsonView::String(f@))),
{
    let mut items: Vec<JsonValue> = Vec::new();
    let mut i: usize = 0;
    while i < v.len()
        invariant
            i <= v@.len(),
            items@.len() == i,
            forall|k: int| 0 <= k < i ==> json_view(#[trigger] items@[k]) == JsonView::String(v@[k]@),
        decreases v@.len() - i,
    {
        items.push(JsonValue::String(crate::text::to_owned_string(v[i].as_str())));
        i = i + 1;
    }
    let ghost iv = items@;
    let arr = array_of(items);
    proof {
        assert(iv.map_values(|x: JsonValue| json_view(x)) =~= v@.map_values(|f: String| JsonView::String(f@)));
    }
    arr
}

/// The record of one applied edit.
#[derive(Debug, Clone, PartialEq)]
pub struct AppliedEdit {
    pub op: EditOp,
    pub path: String,
    pub before: String,
    pub after: String,
    pub reason: Option<String>,
}

/// The result of applying a plan.
#[derive(Debug, Clone, PartialEq)]
pub struct EditOutcome {
    /// the whole edited source
    pub source: String,
    /// the edits, in the order they were applied
    pub applied: Vec<AppliedEdit>,
}


/// The kind of a refusal, as a number: equal exactly for refusals of the
/// same variant.
pub open spec fn refusal_kind(r: EditRefusal) -> nat {
    match r {
        EditRefusal::InvalidPlan(_) => 0,
        EditRefusal::ParseFailed(_) => 1,
        EditRefusal::TargetNotFound { .. } => 2,
        EditRefusal::TargetAmbiguous { .. } => 3,
        EditRefusal::TargetAlreadyExists { .. } => 4,
        EditRefusal::ExpectationMismatch { .. } => 5,
        EditRefusal::UnsupportedTarget { .. } => 6,
        EditRefusal::ValidationFailed { .. } => 7,
        EditRefusal::SecurityRejected { .. } => 8,
    }
}

/// Refusal codes are stable and tell the kinds apart: two refusals have the
/// same code exactly when they are of the same kind, and no code is empty.
pub proof fn lemma_refusal_codes_distinct(a: EditRefusal, b: EditRefusal)
    ensures
        (refusal_code(a) == refusal_code(b)) == (refusal_kind(a) == refusal_kind(b)),
        refusal_code(a).len() > 0,
{
    reveal_strlit("invalid_plan");
    reveal_strlit("parse_failed");
    reveal_strlit("target_not_found");
    reveal_strlit("target_ambiguous");
    reveal_strlit("target_already_exists");
    reveal_strlit("expectation_mismatch");
    reveal_strlit("unsupported_target");
    reveal_strlit("validation_failed");
    reveal_strlit("security_rejected");
    if refusal_kind(a) != refusal_kind(b) {
        assert(refusal_code(a).len() != refusal_code(b).len() || refusal_code(a)[0] != refusal_code(b)[0] || refusal_code(a)[7]
            != refusal_code(b)[7]);
    }
}

} // verus!
