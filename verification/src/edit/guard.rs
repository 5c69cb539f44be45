//! The check before writing, apart from how an edit is made.
//!
//! An editor answers *how to change*; this answers *may this change be
//! written*. A caller keeps its own way of editing (string replacement, a
//! byte range, a whole new file) and hands the text before and the text to
//! write to [`check_write`] before writing.
//!
//! - only high-risk instances that this change brings in are refused; what
//!   the file had before is not blamed on it;
//! - a refusal hands no candidate back;
//! - refusals carry the same codes as the edit path.

use vstd::prelude::*;
use crate::ast::Ast;
use crate::edit::gate::{audit_of, insert_sorted, strictly_sorted, texts};
use crate::edit::outcome::EditRefusal;
use crate::engine::audit::{
    counts_instances, counts_view, high_risk_instances, instances_view, introduced, introduced_high_risk_instances,
    render_risk_instance, AuditEngine,
};
use crate::error::{error_text, VerseconfError};
use crate::text::to_owned_string;

verus! {

broadcast use vstd::string::group_string_axioms;

/// What the check before writing is asked to do: which schema to hold the
/// text to besides its own, and whether to audit it.
#[derive(Debug, Clone, Copy)]
pub struct WriteGuard<'a> {
    /// a side schema (`#@schema { ... }` text); `None` keeps to the schema the
    /// candidate declares itself
    pub schema: Option<&'a str>,
    /// whether to audit before writing
    pub audit: bool,
}

impl<'a> Default for WriteGuard<'a> {
    /// The edit path's rules: audit on, the candidate's own schema.
    fn default() -> (g: Self)
        ensures
            g.schema is None,
            g.audit,
    {
        WriteGuard { schema: None, audit: true }
    }
}

impl<'a> WriteGuard<'a> {
    /// A side schema and the audit: the form for real writes.
    pub fn with_schema(schema: &'a str) -> (g: Self)
        ensures
            g.schema == Some(schema),
            g.audit,
    {
        WriteGuard { schema: Some(schema), audit: true }
    }

    /// The schema check alone, without the audit: for measuring what the
    /// audit adds, not for real writes.
    pub fn schema_only(schema: &'a str) -> (g: Self)
        ensures
            g.schema == Some(schema),
            !g.audit,
    {
        WriteGuard { schema: Some(schema), audit: false }
    }
}

/// The message of the error that tells why `text` does not parse.
pub open spec fn parse_error_text(text: Seq<char>, m: Seq<char>) -> bool {
    exists|e: VerseconfError| crate::parser::parse_failure(text, e) && m == #[trigger] error_text(e)
}

pub open spec fn no_schema_block_text() -> Seq<char> {
    "schema 文本里没有 `#@schema { ... }` 块"@
}

/// The rules of the instances that `after` has more of than `before`.
pub open spec fn introduced_rules(
    before: Seq<((Seq<char>, Seq<char>), nat)>,
    after: Seq<((Seq<char>, Seq<char>), nat)>,
    x: Seq<char>,
) -> bool {
    exists|i: int| 0 <= i < introduced(before, after).len() && (#[trigger] introduced(before, after)[i]).0 == x
}

/// What auditing `baseline` and `candidate` may show: the counts of their
/// high-risk instances.
pub open spec fn audited_counts(
    baseline: Seq<char>,
    candidate: Seq<char>,
    cb: Seq<((Seq<char>, Seq<char>), nat)>,
    ca: Seq<((Seq<char>, Seq<char>), nat)>,
) -> bool {
    exists|rb: crate::engine::audit::AuditReport, ra: crate::engine::audit::AuditReport|
        audit_of(baseline, rb) && audit_of(candidate, ra) && #[trigger] counts_instances(cb, rb.findings@)
            && #[trigger] counts_instances(ca, ra.findings@)
}

/// Instances as a refusal names them: `rule @ location`.
pub open spec fn rendered_instances(is: Seq<(Seq<char>, Seq<char>)>) -> Seq<Seq<char>> {
    is.map_values(|p: (Seq<char>, Seq<char>)| p.0 + " @ "@ + p.1)
}

/// Each instance rendered as `rule @ location`, in order.
fn render_instances(intro: &Vec<(String, String)>) -> (r: Vec<String>)
    ensures
        texts(r@) == rendered_instances(instances_view(intro@)),
{
    let mut r: Vec<String> = Vec::new();
    let mut i: usize = 0;
    while i < intro.len()
        invariant
            i <= intro@.len(),
            texts(r@) == rendered_instances(instances_view(intro@)).take(i as int),
        decreases intro@.len() - i,
    {
        let ghost before = r@;
        let x = render_risk_instance(&intro[i]);
        r.push(x);
        proof {
            assert(texts(r@) =~= texts(before).push(x@));
            assert(rendered_instances(instances_view(intro@)).take(i + 1) =~= rendered_instances(instances_view(intro@)).take(
                i as int,
            ).push(rendered_instances(instances_view(intro@))[i as int]));
        }
        i = i + 1;
    }
    proof {
        assert(rendered_instances(instances_view(intro@)).take(intro@.len() as int) =~= rendered_instances(
            instances_view(intro@),
        ));
    }
    r
}

/// The check before writing with the edit path's rules.
pub fn check_write(baseline: &str, candidate: &str) -> (r: Result<(), EditRefusal>)
    requires
        baseline@.len() < u32::MAX,
        candidate@.len() < u32::MAX,
    ensures
        write_verdict(baseline@, candidate@, (None::<Seq<char>>, true), r),
{
    let guard = WriteGuard { schema: None, audit: true };
    check_write_with(baseline, candidate, &guard)
}

impl<'a> WriteGuard<'a> {
    /// The settings of a guard, as plain values.
    pub open spec fn view_of(self) -> (Option<Seq<char>>, bool) {
        (
            match self.schema {
                Some(s) => Some(s@),
                None => None,
            },
            self.audit,
        )
    }
}

/// What the check before writing says of `candidate`, made from `baseline`,
/// under the settings `g` (side schema, audit): the candidate must parse; a
/// side schema must parse and hold a schema block; with the audit on, every
/// high-risk instance the candidate has more of than the baseline is refused,
/// named by its rule, ascending.
pub open spec fn write_verdict(
    baseline: Seq<char>,
    candidate: Seq<char>,
    g: (Option<Seq<char>>, bool),
    r: Result<(), EditRefusal>,
) -> bool {
    match r {
        Ok(()) => crate::parser::parses(candidate) && (g.1 ==> exists|cb: Seq<((Seq<char>, Seq<char>), nat)>, ca: Seq<((Seq<char>, Seq<char>), nat)>|
            #[trigger] audited_counts(baseline, candidate, cb, ca) && introduced(cb, ca).len() == 0) && (g.0 is Some
            ==> exists|ast: Ast| ast.source.content@ == g.0->Some_0 && #[trigger] ast.schema is Some),
        Err(EditRefusal::ValidationFailed { path, message }) => (path@ == "<result>"@ && parse_error_text(candidate, message@))
            || (g.0 is Some && path@ == "<schema>"@ && (message@ == no_schema_block_text() || exists|e: VerseconfError|
            crate::parser::parse_failure(g.0->Some_0, e) && message@ == "schema 无法解析："@ + #[trigger] error_text(e))),
        Err(EditRefusal::SecurityRejected { path, findings, instances }) => g.1 && path@ == "<result>"@ && findings@.len()
            > 0 && strictly_sorted(texts(findings@)) && exists|
            cb: Seq<((Seq<char>, Seq<char>), nat)>,
            ca: Seq<((Seq<char>, Seq<char>), nat)>,
        |
            #[trigger] audited_counts(baseline, candidate, cb, ca) && texts(instances@) == rendered_instances(
                introduced(cb, ca),
            ) && forall|x: Seq<char>| texts(findings@).contains(x) <==> #[trigger] introduced_rules(cb, ca, x),
        _ => false,
    }
}

/// The check before writing, with a side schema or without the audit as
/// `guard` says.
///
/// The candidate is checked to parse; a side schema to parse and to hold a
/// schema block. Holding the candidate's values to a schema's types and
/// ranges is not done here.
pub fn check_write_with(baseline: &str, candidate: &str, guard: &WriteGuard) -> (r: Result<(), EditRefusal>)
    requires
        baseline@.len() < u32::MAX,
        candidate@.len() < u32::MAX,
        guard.schema matches Some(s) ==> s@.len() < u32::MAX,
    ensures
        write_verdict(baseline@, candidate@, guard.view_of(), r),
{
    let engine = AuditEngine::new();
    let risk_baseline = if guard.audit {
        let report = engine.audit_source(baseline);
        let counts = high_risk_instances(&report);
        proof {
            assert(audit_of(baseline@, report));
        }
        Some((report, counts))
    } else {
        None
    };
    match crate::parse(candidate) {
        Err(e) => {
            return Err(EditRefusal::ValidationFailed { path: to_owned_string("<result>"), message: e.describe() });
        },
        Ok(_) => {},
    }
    match guard.schema {
        Some(schema_text) => {
            let schema_ast = match crate::parse(schema_text) {
                Ok(a) => a,
                Err(e) => {
                    let mut message = to_owned_string("schema 无法解析：");
                    let shown = e.describe();
                    message.push_str(shown.as_str());
                    return Err(EditRefusal::ValidationFailed { path: to_owned_string("<schema>"), message });
                },
            };
            if schema_ast.schema.is_none() {
                return Err(EditRefusal::ValidationFailed {
                    path: to_owned_string("<schema>"),
                    message: to_owned_string("schema 文本里没有 `#@schema { ... }` 块"),
                });
            }
            proof {
                assert(schema_ast.source.content@ == schema_text@ && schema_ast.schema is Some);
            }
        },
        None => {},
    }
    match risk_baseline {
        Some((before_report, before_counts)) => {
            let after_report = engine.audit_source(candidate);
            let after_counts = high_risk_instances(&after_report);
            let intro = introduced_high_risk_instances(&before_counts, &after_counts);
            let ghost cb = counts_view(before_counts@);
            let ghost ca = counts_view(after_counts@);
            proof {
                assert(audit_of(candidate@, after_report));
                assert(audited_counts(baseline@, candidate@, cb, ca));
            }
            if intro.len() > 0 {
                let mut findings: Vec<String> = Vec::new();
                let mut i: usize = 0;
                while i < intro.len()
                    invariant
                        i <= intro@.len(),
                        instances_view(intro@) == introduced(cb, ca),
                        strictly_sorted(texts(findings@)),
                        forall|x: Seq<char>| texts(findings@).contains(x) <==> exists|k: int|
                            0 <= k < i && (#[trigger] instances_view(intro@)[k]).0 == x,
                    decreases intro@.len() - i,
                {
                    let ghost before = texts(findings@);
                    insert_sorted(&mut findings, to_owned_string(intro[i].0.as_str()));
                    proof {
                        assert forall|x: Seq<char>| texts(findings@).contains(x) <==> exists|k: int|
                            0 <= k < i + 1 && (#[trigger] instances_view(intro@)[k]).0 == x by {
                            if texts(findings@).contains(x) && !before.contains(x) {
                                assert(instances_view(intro@)[i as int].0 == x);
                            }
                            if exists|k: int| 0 <= k < i + 1 && (#[trigger] instances_view(intro@)[k]).0 == x {
                                let k = choose|k: int| 0 <= k < i + 1 && (#[trigger] instances_view(intro@)[k]).0 == x;
                                if k < i {
                                    assert(before.contains(x));
                                }
                            }
                        }
                    }
                    i = i + 1;
                }
                proof {
                    assert(instances_view(intro@)[0].0 == intro@[0].0@);
                    assert(texts(findings@).contains(intro@[0].0@));
                    assert forall|x: Seq<char>| texts(findings@).contains(x) <==> #[trigger] introduced_rules(cb, ca, x) by {
                    }
                }
                let instances = render_instances(&intro);
                return Err(EditRefusal::SecurityRejected { path: to_owned_string("<result>"), findings, instances });
            }
            proof {
                assert(introduced(cb, ca).len() == 0);
            }
        },
        None => {},
    }
    Ok(())
}

} // verus!
