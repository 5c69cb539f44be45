//! Benchmark tasks, what a strategy gives back for one, and the verdicts.

use vstd::prelude::*;
use crate::edit::json::{member, JsonValue};
use crate::edit::plan::PathSegment;
use crate::edit::value::EditValue;
use crate::text::{str_eq, to_owned_string};

verus! {

broadcast use vstd::string::group_string_axioms;

/// What a strategy gives back for one edit: the new text, or a refusal
/// with a stable code.
#[derive(Debug, PartialEq, Eq)]
pub enum StrategyOutcome {
    Applied(String),
    Refused { code: String, message: String },
}

impl StrategyOutcome {
    /// A refusal with `code` and `message`.
    pub fn refused(code: &str, message: &str) -> (r: Self)
        ensures
            r matches StrategyOutcome::Refused { code: c, message: m } && c@ == code@ && m@ == message@,
    {
        StrategyOutcome::Refused { code: to_owned_string(code), message: to_owned_string(message) }
    }

    pub fn is_applied(&self) -> (b: bool)
        ensures
            b == (*self is Applied),
    {
        match self {
            StrategyOutcome::Applied(_) => true,
            StrategyOutcome::Refused { .. } => false,
        }
    }

    /// The new text, when the edit was applied.
    pub fn source(&self) -> (r: Option<&str>)
        ensures
            match *self {
                StrategyOutcome::Applied(s) => r matches Some(t) && t@ == s@,
                StrategyOutcome::Refused { .. } => r is None,
            },
    {
        match self {
            StrategyOutcome::Applied(source) => Some(source.as_str()),
            StrategyOutcome::Refused { .. } => None,
        }
    }

    /// The refusal code, when the edit was refused.
    pub fn code(&self) -> (r: Option<&str>)
        ensures
            match *self {
                StrategyOutcome::Applied(_) => r is None,
                StrategyOutcome::Refused { code, .. } => r matches Some(t) && t@ == code@,
            },
    {
        match self {
            StrategyOutcome::Applied(_) => None,
            StrategyOutcome::Refused { code, .. } => Some(code.as_str()),
        }
    }
}

/// The verdict on one task under one strategy.
#[derive(Debug, Clone, Copy, PartialEq, Eq, Structural)]
pub enum Outcome {
    /// edited right, and no byte outside the edit changed
    Correct,
    /// edited right, but bytes outside the edit changed too
    Collateral,
    /// a wrong value, a wrong target, or a result that does not parse
    Wrong,
    /// refused as it should be, with the right code
    RefusedCorrectly,
    /// refused where it should have edited
    RefusedWrongly,
    /// edited where it should have refused
    AppliedWrongly,
}

/// How a verdict reads.
pub open spec fn outcome_name(o: Outcome) -> Seq<char> {
    match o {
        Outcome::Correct => "正确"@,
        Outcome::Collateral => "附带损伤"@,
        Outcome::Wrong => "误改"@,
        Outcome::RefusedCorrectly => "正确拒绝"@,
        Outcome::RefusedWrongly => "误拒"@,
        Outcome::AppliedWrongly => "该拒未拒"@,
    }
}

impl Outcome {
    pub fn as_str(self) -> (s: &'static str)
        ensures
            s@ == outcome_name(self),
    {
        match self {
            Outcome::Correct => "正确",
            Outcome::Collateral => "附带损伤",
            Outcome::Wrong => "误改",
            Outcome::RefusedCorrectly => "正确拒绝",
            Outcome::RefusedWrongly => "误拒",
            Outcome::AppliedWrongly => "该拒未拒",
        }
    }
}

/// One target of a plan with several edits: its path, and the value it
/// must hold afterwards (none for a deletion).
#[derive(Debug)]
pub struct TargetExpect {
    pub path: Vec<PathSegment>,
    pub value: Option<EditValue>,
}

/// What a task expects.
#[derive(Debug)]
pub struct Expectation {
    /// `applied` or `refused`
    pub outcome: String,
    /// the target of a single edit
    pub path: Vec<PathSegment>,
    /// the value the target of a single edit must hold afterwards
    pub value: Option<EditValue>,
    /// the code a refusal must carry
    pub code: Option<String>,
    /// for an edit across files, the file that must change
    pub target_file: Option<String>,
    /// the targets of a plan with several edits; empty for a single edit
    pub targets: Vec<TargetExpect>,
}

/// A benchmark task: a plan for one document, and what should come of it.
#[derive(Debug)]
pub struct Task {
    pub id: String,
    pub document: String,
    pub description: String,
    /// the plan as JSON, for each strategy to read itself
    pub plan: JsonValue,
    pub expect: Expectation,
}

/// The operation of the first edit of a JSON plan.
pub open spec fn first_op(plan: JsonValue) -> Option<Seq<char>> {
    match member(plan, "edits"@) {
        Some(JsonValue::Array(es)) => if es@.len() > 0 {
            match member(es@[0], "op"@) {
                Some(JsonValue::String(op)) => Some(op@),
                _ => None,
            }
        } else {
            None
        },
        _ => None,
    }
}

impl Task {
    /// Whether the task expects a refusal.
    pub fn expects_refusal(&self) -> (b: bool)
        ensures
            b == (self.expect.outcome@ == "refused"@),
    {
        str_eq(self.expect.outcome.as_str(), "refused")
    }

    /// The operation of the plan's first edit (`set`, `insert` or `delete`).
    pub fn plan_op(&self) -> (r: Result<String, String>)
        ensures
            match first_op(self.plan) {
                Some(op) => r matches Ok(s) && s@ == op,
                None => r matches Err(m) && m@ == "任务 "@ + self.id@ + " 的 plan 里读不到 edits[0].op"@,
            },
    {
        let found = match self.plan.get("edits") {
            Some(JsonValue::Array(es)) => if es.len() > 0 {
                match es[0].get("op") {
                    Some(JsonValue::String(op)) => Some(to_owned_string(op.as_str())),
                    _ => None,
                }
            } else {
                None
            },
            _ => None,
        };
        match found {
            Some(op) => Ok(op),
            None => {
                let mut m = to_owned_string("任务 ");
                m.push_str(self.id.as_str());
                m.push_str(" 的 plan 里读不到 edits[0].op");
                Err(m)
            },
        }
    }

    /// Whether the task is a plan with several edits.
    pub fn is_multi_edit(&self) -> (b: bool)
        ensures
            b == (self.expect.targets@.len() > 0),
    {
        self.expect.targets.len() > 0
    }
}

} // verus!
