//! The check before an edited text is handed back: it must still parse, and
//! it must bring in no high-risk audit finding that the text did not have.

use vstd::prelude::*;
use crate::ast::Ast;
use crate::edit::reading::name_lt;
use crate::engine::audit::{
    default_checks, default_patterns, entries_findings, findings_view, AuditEngine, AuditFinding, AuditReport,
    AuditSeverity,
};
use crate::engine::pretty_printer::{key_le, lemma_seq_le_antisym, lemma_seq_le_total, lemma_seq_le_trans, seq_le};
use crate::edit::outcome::EditRefusal;
use crate::error::{error_text, VerseconfError};
use crate::text::{str_eq, to_owned_string};

verus! {

broadcast use vstd::string::group_string_axioms;

/// The texts of strings, in order.
pub open spec fn texts(v: Seq<String>) -> Seq<Seq<char>> {
    v.map_values(|s: String| s@)
}

/// Texts in strictly ascending code-point order: sorted, each once.
pub open spec fn strictly_sorted(v: Seq<Seq<char>>) -> bool {
    forall|i: int, j: int| 0 <= i < j < v.len() ==> name_lt(#[trigger] v[i], #[trigger] v[j])
}

/// A critical or high-severity finding.
pub open spec fn is_high_risk(f: AuditFinding) -> bool {
    f.severity == AuditSeverity::Critical || f.severity == AuditSeverity::High
}

/// The rules of the high-risk findings.
pub open spec fn high_rules(fs: Seq<AuditFinding>) -> Set<Seq<char>> {
    Set::new(|x: Seq<char>| exists|i: int| 0 <= i < fs.len() && is_high_risk(#[trigger] fs[i]) && fs[i].rule_id@ == x)
}

/// A report that auditing `src` with the default rules gives: nothing when
/// `src` does not parse, else what the rules find in its tree.
pub open spec fn audit_of(src: Seq<char>, rep: AuditReport) -> bool {
    (rep.findings@.len() == 0 && exists|e: VerseconfError| #[trigger] crate::parser::parse_failure(src, e)) || (
    crate::parser::parses(src) && exists|ast: Ast|
        ast.source.content@ == src && findings_view(rep.findings@) == #[trigger] entries_findings(
            default_patterns(),
            default_checks(),
            ast.root.entries@,
            Seq::empty(),
        ))
}

proof fn lemma_name_lt_chain(a: Seq<char>, b: Seq<char>, c: Seq<char>)
    requires
        name_lt(a, b),
        name_lt(b, c),
    ensures
        name_lt(a, c),
{
    lemma_seq_le_trans(a, b, c);
    if a == c {
        lemma_seq_le_antisym(a, b);
    }
}

/// Puts `s` into the ascending list `v`, unless it is there already.
pub(crate) fn insert_sorted(v: &mut Vec<String>, s: String)
    requires
        strictly_sorted(texts(old(v)@)),
    ensures
        strictly_sorted(texts(final(v)@)),
        forall|x: Seq<char>| texts(final(v)@).contains(x) <==> (texts(old(v)@).contains(x) || x == s@),
{
    let ghost before = texts(v@);
    let ghost n = s@;
    let mut p: usize = 0;
    while p < v.len() && !key_le(s.as_str(), v[p].as_str())
        invariant
            p <= v@.len(),
            texts(v@) == before,
            n == s@,
            forall|q: int| 0 <= q < p ==> name_lt(#[trigger] before[q], n),
        decreases v@.len() - p,
    {
        proof {
            lemma_seq_le_total(n, before[p as int]);
            lemma_seq_le_total(n, n);
            assert(before[p as int] == v@[p as int]@);
        }
        p = p + 1;
    }
    if p < v.len() && str_eq(v[p].as_str(), s.as_str()) {
        proof {
            assert forall|x: Seq<char>| texts(v@).contains(x) <==> (before.contains(x) || x == n) by {
                if x == n {
                    assert(texts(v@)[p as int] == n);
                }
            }
        }
        return;
    }
    proof {
        if p < before.len() {
            assert(before[p as int] == v@[p as int]@);
            assert(seq_le(n, before[p as int]));
            assert(name_lt(n, before[p as int]));
        }
    }
    v.insert(p, s);
    proof {
        let after = texts(v@);
        assert forall|i: int| 0 <= i < after.len() implies after[i] == (if i < p {
            before[i]
        } else if i == p {
            n
        } else {
            before[i - 1]
        }) by {
            assert(after[i] == v@[i]@);
        }
        assert forall|i: int, j: int| 0 <= i < j < after.len() implies name_lt(#[trigger] after[i], #[trigger] after[j]) by {
            if j < p {
            } else if j == p {
            } else if i == p {
                if j - 1 > p {
                    lemma_name_lt_chain(n, before[p as int], before[j - 1]);
                }
            } else if i < p {
                assert(name_lt(before[i], n));
                if j - 1 >= p {
                    if j - 1 > p {
                        lemma_name_lt_chain(n, before[p as int], before[j - 1]);
                    }
                    lemma_name_lt_chain(before[i], n, before[j - 1]);
                }
            } else {
            }
        }
        assert forall|x: Seq<char>| after.contains(x) <==> (before.contains(x) || x == n) by {
            if after.contains(x) {
                let k = choose|k: int| 0 <= k < after.len() && #[trigger] after[k] == x;
                if k < p {
                    assert(before[k] == x);
                } else if k > p {
                    assert(before[k - 1] == x);
                }
            }
            if before.contains(x) {
                let k = choose|k: int| 0 <= k < before.len() && #[trigger] before[k] == x;
                if k < p {
                    assert(after[k] == x);
                } else {
                    assert(after[k + 1] == x);
                }
            }
            if x == n {
                assert(after[p as int] == n);
            }
        }
    }
}

/// The rules of a report's high-risk findings, ascending, each once.
pub fn high_risk_rules(report: &AuditReport) -> (r: Vec<String>)
    ensures
        strictly_sorted(texts(r@)),
        forall|x: Seq<char>| texts(r@).contains(x) <==> high_rules(report.findings@).contains(x),
{
    let fs = &report.findings;
    let mut r: Vec<String> = Vec::new();
    let mut i: usize = 0;
    while i < fs.len()
        invariant
            i <= fs@.len(),
            fs == &report.findings,
            strictly_sorted(texts(r@)),
            forall|x: Seq<char>|
                texts(r@).contains(x) <==> exists|k: int| 0 <= k < i && is_high_risk(#[trigger] fs@[k]) && fs@[k].rule_id@ == x,
        decreases fs@.len() - i,
    {
        let high = match fs[i].severity {
            AuditSeverity::Critical => true,
            AuditSeverity::High => true,
            _ => false,
        };
        let ghost before = texts(r@);
        if high {
            insert_sorted(&mut r, to_owned_string(fs[i].rule_id.as_str()));
        }
        proof {
            assert forall|x: Seq<char>| texts(r@).contains(x) <==> exists|k: int|
                0 <= k < i + 1 && is_high_risk(#[trigger] fs@[k]) && fs@[k].rule_id@ == x by {
                if texts(r@).contains(x) && !before.contains(x) {
                    assert(is_high_risk(fs@[i as int]) && fs@[i as int].rule_id@ == x);
                }
                if exists|k: int| 0 <= k < i + 1 && is_high_risk(#[trigger] fs@[k]) && fs@[k].rule_id@ == x {
                    let k = choose|k: int| 0 <= k < i + 1 && is_high_risk(#[trigger] fs@[k]) && fs@[k].rule_id@ == x;
                    if k < i {
                        assert(before.contains(x));
                    }
                }
            }
        }
        i = i + 1;
    }
    proof {
        assert forall|x: Seq<char>| texts(r@).contains(x) <==> high_rules(report.findings@).contains(x) by {
        }
    }
    r
}

/// Whether `v` holds the text `s`.
fn holds_text(v: &Vec<String>, s: &str) -> (b: bool)
    ensures
        b == texts(v@).contains(s@),
{
    let mut j: usize = 0;
    while j < v.len()
        invariant
            j <= v@.len(),
            forall|k: int| 0 <= k < j ==> texts(v@)[k] != s@,
        decreases v@.len() - j,
    {
        if str_eq(v[j].as_str(), s) {
            proof {
                assert(texts(v@)[j as int] == s@);
            }
            return true;
        }
        j = j + 1;
    }
    false
}

/// The members of `after` that `before` lacks, in the order of `after`.
pub fn introduced(after: &Vec<String>, before: &Vec<String>) -> (r: Vec<String>)
    requires
        strictly_sorted(texts(after@)),
    ensures
        strictly_sorted(texts(r@)),
        forall|x: Seq<char>| texts(r@).contains(x) <==> (texts(after@).contains(x) && !texts(before@).contains(x)),
{
    let ghost a = texts(after@);
    let mut r: Vec<String> = Vec::new();
    let mut i: usize = 0;
    while i < after.len()
        invariant
            i <= after@.len(),
            a == texts(after@),
            strictly_sorted(a),
            strictly_sorted(texts(r@)),
            forall|k: int, q: int| 0 <= k < r@.len() && i <= q < a.len() ==> name_lt(#[trigger] texts(r@)[k], #[trigger] a[q]),
            forall|x: Seq<char>| texts(r@).contains(x) <==> (a.take(i as int).contains(x) && !texts(before@).contains(x)),
        decreases after@.len() - i,
    {
        let found = holds_text(before, after[i].as_str());
        proof {
            assert(a.take(i + 1) == a.take(i as int).push(a[i as int]));
            assert(a[i as int] == after@[i as int]@);
        }
        let ghost old_r = texts(r@);
        if !found {
            r.push(to_owned_string(after[i].as_str()));
            proof {
                assert(texts(r@) == old_r.push(a[i as int]));
                assert forall|k: int, q: int| 0 <= k < r@.len() && i + 1 <= q < a.len() implies name_lt(
                    #[trigger] texts(r@)[k],
                    #[trigger] a[q],
                ) by {
                    if k < old_r.len() {
                        assert(texts(r@)[k] == old_r[k]);
                    } else {
                        assert(texts(r@)[k] == a[i as int]);
                    }
                }
                assert forall|x: int, y: int| 0 <= x < y < texts(r@).len() implies name_lt(
                    #[trigger] texts(r@)[x],
                    #[trigger] texts(r@)[y],
                ) by {
                    assert(texts(r@)[x] == old_r[x]);
                    if y < old_r.len() {
                        assert(texts(r@)[y] == old_r[y]);
                    } else {
                        assert(texts(r@)[y] == a[i as int]);
                        assert(name_lt(old_r[x], a[i as int]));
                    }
                }
                assert forall|x: Seq<char>| texts(r@).contains(x) <==> (a.take(i + 1).contains(x) && !texts(
                    before@,
                ).contains(x)) by {
                    if texts(r@).contains(x) {
                        let k = choose|k: int| 0 <= k < texts(r@).len() && #[trigger] texts(r@)[k] == x;
                        if k < old_r.len() {
                            assert(old_r[k] == x);
                            assert(old_r.contains(x));
                            let m = choose|m: int| 0 <= m < i && #[trigger] a.take(i as int)[m] == x;
                            assert(a.take(i + 1)[m] == x);
                        } else {
                            assert(x == a[i as int]);
                            assert(a.take(i + 1)[i as int] == x);
                        }
                    }
                    if a.take(i + 1).contains(x) && !texts(before@).contains(x) {
                        if x == a[i as int] {
                            assert(texts(r@)[old_r.len() as int] == x);
                        } else {
                            let k = choose|k: int| 0 <= k < i + 1 && #[trigger] a.take(i + 1)[k] == x;
                            assert(a.take(i as int)[k] == x);
                            assert(old_r.contains(x));
                            let m = choose|m: int| 0 <= m < old_r.len() && #[trigger] old_r[m] == x;
                            assert(texts(r@)[m] == x);
                        }
                    }
                }
            }
        } else {
            proof {
                assert forall|x: Seq<char>| texts(r@).contains(x) <==> (a.take(i + 1).contains(x) && !texts(
                    before@,
                ).contains(x)) by {
                    if a.take(i + 1).contains(x) && !texts(before@).contains(x) {
                        let k = choose|k: int| 0 <= k < i + 1 && #[trigger] a.take(i + 1)[k] == x;
                        if k < i {
                            assert(a.take(i as int)[k] == x);
                            assert(a.take(i as int).contains(x));
                        } else {
                            assert(x == a[i as int]);
                            assert(texts(before@).contains(x));
                        }
                    }
                    if texts(r@).contains(x) {
                        assert(a.take(i as int).contains(x) && !texts(before@).contains(x));
                        let k = choose|k: int| 0 <= k < a.take(i as int).len() && #[trigger] a.take(i as int)[k] == x;
                        assert(a.take(i + 1)[k] == x);
                        assert(a.take(i + 1).contains(x));
                    }
                }
            }
        }
        i = i + 1;
    }
    proof {
        assert(a.take(after@.len() as int) == a);
    }
    r
}

/// What the check before handing back says of `candidate`, made from
/// `source`: it must parse, and its high-risk rules must all be rules the
/// source had already; the rules it brings in are named, ascending.
pub open spec fn gate(src: Seq<char>, candidate: Seq<char>, r: Result<String, EditRefusal>) -> bool {
    match r {
        Ok(c) => c@ == candidate && crate::parser::parses(candidate) && exists|before: AuditReport, after: AuditReport|
            audit_of(src, before) && audit_of(candidate, after) && #[trigger] high_rules(after.findings@).subset_of(
                high_rules(before.findings@),
            ),
        Err(EditRefusal::ValidationFailed { path, message }) => path@ == "<result>"@ && if candidate.len()
            >= u32::MAX {
            message@ == too_long_text()
        } else {
            exists|e: VerseconfError| crate::parser::parse_failure(candidate, e) && message@ == #[trigger] error_text(e)
        },
        Err(EditRefusal::SecurityRejected { path, findings, instances }) => path@ == "<result>"@ && instances@.len() == 0
            && findings@.len() > 0 && strictly_sorted(texts(findings@)) && exists|before: AuditReport, after: AuditReport|
            audit_of(src, before) && audit_of(candidate, after) && forall|x: Seq<char>|
                #[trigger] texts(findings@).contains(x) <==> (high_rules(after.findings@).contains(x) && !high_rules(
                    before.findings@,
                ).contains(x)),
        _ => false,
    }
}


/// Why a text too long for positions to be counted is not parsed.
pub open spec fn too_long_text() -> Seq<char> {
    "文本过长，无法解析"@
}

/// Whether a text is short enough for its positions to be counted.
pub fn short_enough(s: &str) -> (b: bool)
    ensures
        b == (s@.len() < u32::MAX),
{
    let v = crate::text::chars_of(s);
    v.len() < u32::MAX as usize
}

/// Checks an edited text before it is handed back.
pub fn finalize_edit(source: &str, candidate: String) -> (r: Result<String, EditRefusal>)
    requires
        source@.len() < u32::MAX,
    ensures
        gate(source@, candidate@, r),
{
    let engine = AuditEngine::new();
    let before_report = engine.audit_source(source);
    let baseline = high_risk_rules(&before_report);
    if !short_enough(candidate.as_str()) {
        return Err(EditRefusal::ValidationFailed {
            path: to_owned_string("<result>"),
            message: to_owned_string("文本过长，无法解析"),
        });
    }
    match crate::parse(candidate.as_str()) {
        Err(e) => {
            return Err(EditRefusal::ValidationFailed { path: to_owned_string("<result>"), message: e.describe() });
        },
        Ok(_) => {},
    }
    let after_report = engine.audit_source(candidate.as_str());
    let after = high_risk_rules(&after_report);
    let new_rules = introduced(&after, &baseline);
    if new_rules.len() > 0 {
        proof {
            assert(audit_of(source@, before_report));
            assert(audit_of(candidate@, after_report));
        }
        return Err(EditRefusal::SecurityRejected { path: to_owned_string("<result>"), findings: new_rules, instances: Vec::new() });
    }
    proof {
        assert(audit_of(source@, before_report));
        assert(audit_of(candidate@, after_report));
        assert forall|x: Seq<char>| high_rules(after_report.findings@).contains(x) implies high_rules(
            before_report.findings@,
        ).contains(x) by {
            assert(texts(after@).contains(x));
            if !texts(baseline@).contains(x) {
                assert(texts(new_rules@).contains(x));
                assert(texts(new_rules@).len() > 0);
            }
        }
        assert(high_rules(after_report.findings@).subset_of(high_rules(before_report.findings@)));
    }
    Ok(candidate)
}

} // verus!
