//! Security audit of a document: sensitive-looking keys with literal
//! values, and insecure settings; and the comparison of two audits by
//! high-risk instance (rule and location).

use vstd::prelude::*;
use crate::ast::{key_text, Ast, Expression, KeyValue, NumberValue, ScalarValue, TableBlock, TableEntry, TimeUnit, Value};
use crate::engine::pretty_printer::{lemma_seq_le_antisym, lemma_seq_le_total, lemma_seq_le_trans, seq_le};
use crate::text::{chars_of, contains_seq, decimal_digits, int_text, str_eq, to_owned_string, trimmed};

verus! {

broadcast use vstd::string::group_string_axioms;

/// How serious a finding is.
#[derive(Debug, Clone, Copy, PartialEq, Eq, Structural)]
pub enum AuditSeverity {
    Critical,
    High,
    Medium,
    Low,
    Info,
}

/// The label of each severity.
pub open spec fn severity_label(s: AuditSeverity) -> Seq<char> {
    match s {
        AuditSeverity::Critical => "CRITICAL"@,
        AuditSeverity::High => "HIGH"@,
        AuditSeverity::Medium => "MEDIUM"@,
        AuditSeverity::Low => "LOW"@,
        AuditSeverity::Info => "INFO"@,
    }
}

impl AuditSeverity {
    /// `CRITICAL`, `HIGH`, `MEDIUM`, `LOW` or `INFO`.
    pub fn label(&self) -> (s: &'static str)
        ensures
            s@ == severity_label(*self),
    {
        match self {
            AuditSeverity::Critical => "CRITICAL",
            AuditSeverity::High => "HIGH",
            AuditSeverity::Medium => "MEDIUM",
            AuditSeverity::Low => "LOW",
            AuditSeverity::Info => "INFO",
        }
    }
}

/// What a finding is about.
#[derive(Debug, Clone, Copy, PartialEq, Eq, Structural)]
pub enum AuditCategory {
    SensitiveData,
    InsecureConfig,
    BestPractice,
    Compliance,
}

/// The label of each category.
pub open spec fn category_label(c: AuditCategory) -> Seq<char> {
    match c {
        AuditCategory::SensitiveData => "Sensitive Data"@,
        AuditCategory::InsecureConfig => "Insecure Configuration"@,
        AuditCategory::BestPractice => "Best Practice"@,
        AuditCategory::Compliance => "Compliance"@,
    }
}

impl AuditCategory {
    /// The category's label, such as `Sensitive Data`.
    pub fn label(&self) -> (s: &'static str)
        ensures
            s@ == category_label(*self),
    {
        match self {
            AuditCategory::SensitiveData => "Sensitive Data",
            AuditCategory::InsecureConfig => "Insecure Configuration",
            AuditCategory::BestPractice => "Best Practice",
            AuditCategory::Compliance => "Compliance",
        }
    }
}

/// One finding.
#[derive(Debug, Clone)]
pub struct AuditFinding {
    pub category: AuditCategory,
    pub severity: AuditSeverity,
    pub rule_id: String,
    pub title: String,
    pub description: String,
    /// The dotted key the finding is about.
    pub location: String,
    pub recommendation: String,
}

/// Counts by severity.
#[derive(Debug, Clone, Copy)]
pub struct AuditSummary {
    pub total_findings: usize,
    pub critical_count: usize,
    pub high_count: usize,
    pub medium_count: usize,
    pub low_count: usize,
    pub info_count: usize,
}

/// The findings of an audit and their summary.
#[derive(Debug, Clone)]
pub struct AuditReport {
    pub findings: Vec<AuditFinding>,
    pub summary: AuditSummary,
}

/// How many findings have severity `s`.
pub open spec fn severity_count(fs: Seq<AuditFinding>, s: AuditSeverity) -> nat
    decreases fs.len(),
{
    if fs.len() == 0 {
        0
    } else {
        severity_count(fs.drop_last(), s) + if fs.last().severity == s { 1nat } else { 0nat }
    }
}

/// Each finding has one severity, so the counts add up to the total.
pub proof fn lemma_severity_counts_sum(fs: Seq<AuditFinding>)
    ensures
        severity_count(fs, AuditSeverity::Critical) + severity_count(fs, AuditSeverity::High) + severity_count(
            fs,
            AuditSeverity::Medium,
        ) + severity_count(fs, AuditSeverity::Low) + severity_count(fs, AuditSeverity::Info) == fs.len(),
    decreases fs.len(),
{
    if fs.len() > 0 {
        lemma_severity_counts_sum(fs.drop_last());
    }
}

impl AuditReport {
    /// A report of `findings` with their counts.
    pub fn new(findings: Vec<AuditFinding>) -> (r: AuditReport)
        ensures
            r.findings@ == findings@,
            r.summary.total_findings == findings@.len(),
            r.summary.critical_count == severity_count(findings@, AuditSeverity::Critical),
            r.summary.high_count == severity_count(findings@, AuditSeverity::High),
            r.summary.medium_count == severity_count(findings@, AuditSeverity::Medium),
            r.summary.low_count == severity_count(findings@, AuditSeverity::Low),
            r.summary.info_count == severity_count(findings@, AuditSeverity::Info),
    {
        let mut critical: usize = 0;
        let mut high: usize = 0;
        let mut medium: usize = 0;
        let mut low: usize = 0;
        let mut info: usize = 0;
        let mut i: usize = 0;
        while i < findings.len()
            invariant
                i <= findings@.len(),
                critical == severity_count(findings@.take(i as int), AuditSeverity::Critical),
                high == severity_count(findings@.take(i as int), AuditSeverity::High),
                medium == severity_count(findings@.take(i as int), AuditSeverity::Medium),
                low == severity_count(findings@.take(i as int), AuditSeverity::Low),
                info == severity_count(findings@.take(i as int), AuditSeverity::Info),
            decreases findings@.len() - i,
        {
            proof {
                assert(findings@.take(i + 1).drop_last() == findings@.take(i as int));
                lemma_severity_counts_sum(findings@.take(i as int));
            }
            match findings[i].severity {
                AuditSeverity::Critical => critical = critical + 1,
                AuditSeverity::High => high = high + 1,
                AuditSeverity::Medium => medium = medium + 1,
                AuditSeverity::Low => low = low + 1,
                AuditSeverity::Info => info = info + 1,
            }
            i = i + 1;
        }
        proof {
            assert(findings@.take(findings@.len() as int) == findings@);
        }
        let total = findings.len();
        AuditReport {
            findings,
            summary: AuditSummary {
                total_findings: total,
                critical_count: critical,
                high_count: high,
                medium_count: medium,
                low_count: low,
                info_count: info,
            },
        }
    }
}

/// Whether a finding blocks an edit: critical or high.
pub open spec fn is_high_risk(f: AuditFinding) -> bool {
    f.severity == AuditSeverity::Critical || f.severity == AuditSeverity::High
}

/// A high-risk instance: a rule at a location.
pub open spec fn instance_of(f: AuditFinding) -> (Seq<char>, Seq<char>) {
    (f.rule_id@, f.location@)
}

/// How many high-risk findings are the instance `k`.
pub open spec fn instance_count(fs: Seq<AuditFinding>, k: (Seq<char>, Seq<char>)) -> nat
    decreases fs.len(),
{
    if fs.len() == 0 {
        0
    } else {
        instance_count(fs.drop_last(), k) + if is_high_risk(fs.last()) && instance_of(fs.last()) == k {
            1nat
        } else {
            0nat
        }
    }
}

/// The order of instances: by rule, then by location.
pub open spec fn instance_lt(a: (Seq<char>, Seq<char>), b: (Seq<char>, Seq<char>)) -> bool {
    (seq_le(a.0, b.0) && a.0 != b.0) || (a.0 == b.0 && seq_le(a.1, b.1) && a.1 != b.1)
}

/// The view of a list of counted instances.
pub open spec fn counts_view(v: Seq<((String, String), usize)>) -> Seq<((Seq<char>, Seq<char>), nat)> {
    v.map_values(|x: ((String, String), usize)| ((x.0.0@, x.0.1@), x.1 as nat))
}

/// `cs` counts the high-risk instances of `fs`: each instance once, in
/// order, with how often it occurs.
pub open spec fn counts_instances(cs: Seq<((Seq<char>, Seq<char>), nat)>, fs: Seq<AuditFinding>) -> bool {
    &&& forall|i: int, j: int| 0 <= i < j < cs.len() ==> instance_lt(#[trigger] cs[i].0, #[trigger] cs[j].0)
    &&& forall|i: int| 0 <= i < cs.len() ==> (#[trigger] cs[i]).1 == instance_count(fs, cs[i].0) && cs[i].1 > 0
    &&& forall|k: (Seq<char>, Seq<char>)| instance_count(fs, k) > 0 ==> exists|i: int| 0 <= i < cs.len() && (#[trigger] cs[i]).0 == k
}

proof fn lemma_instance_trichotomy(a: (Seq<char>, Seq<char>), b: (Seq<char>, Seq<char>))
    ensures
        instance_lt(a, b) || instance_lt(b, a) || a == b,
        !(instance_lt(a, b) && instance_lt(b, a)),
        !instance_lt(a, a),
{
    lemma_seq_le_total(a.0, b.0);
    lemma_seq_le_total(a.1, b.1);
    if seq_le(a.0, b.0) && seq_le(b.0, a.0) {
        lemma_seq_le_antisym(a.0, b.0);
    }
    if seq_le(a.1, b.1) && seq_le(b.1, a.1) {
        lemma_seq_le_antisym(a.1, b.1);
    }
}

proof fn lemma_instance_trans(a: (Seq<char>, Seq<char>), b: (Seq<char>, Seq<char>), c: (Seq<char>, Seq<char>))
    requires
        instance_lt(a, b),
        instance_lt(b, c),
    ensures
        instance_lt(a, c),
{
    if a.0 != b.0 {
        if b.0 != c.0 {
            lemma_seq_le_trans(a.0, b.0, c.0);
            if a.0 == c.0 {
                lemma_seq_le_antisym(a.0, b.0);
            }
        }
    } else {
        if b.0 == c.0 {
            lemma_seq_le_trans(a.1, b.1, c.1);
            if a.1 == c.1 {
                lemma_seq_le_antisym(a.1, b.1);
            }
        }
    }
}

proof fn lemma_instance_count_le(fs: Seq<AuditFinding>, k: (Seq<char>, Seq<char>))
    ensures
        instance_count(fs, k) <= fs.len(),
    decreases fs.len(),
{
    if fs.len() > 0 {
        lemma_instance_count_le(fs.drop_last(), k);
    }
}

fn pair_lt(a: &(String, String), b: &(String, String)) -> (r: bool)
    ensures
        r == instance_lt((a.0@, a.1@), (b.0@, b.1@)),
{
    let first_equal = str_eq(a.0.as_str(), b.0.as_str());
    if !first_equal {
        crate::engine::pretty_printer::key_le(a.0.as_str(), b.0.as_str())
    } else {
        let second_equal = str_eq(a.1.as_str(), b.1.as_str());
        !second_equal && crate::engine::pretty_printer::key_le(a.1.as_str(), b.1.as_str())
    }
}

fn is_high(f: &AuditFinding) -> (b: bool)
    ensures
        b == is_high_risk(*f),
{
    match f.severity {
        AuditSeverity::Critical | AuditSeverity::High => true,
        _ => false,
    }
}

/// The high-risk instances of a report, ordered by rule and location, each
/// with how often it occurs.
pub fn high_risk_instances(report: &AuditReport) -> (r: Vec<((String, String), usize)>)
    ensures
        counts_instances(counts_view(r@), report.findings@),
{
    let fs = &report.findings;
    let mut counts: Vec<((String, String), usize)> = Vec::new();
    let mut i: usize = 0;
    while i < fs.len()
        invariant
            i <= fs@.len(),
            counts_instances(counts_view(counts@), fs@.take(i as int)),
        decreases fs@.len() - i,
    {
        let ghost prev = fs@.take(i as int);
        let ghost next = fs@.take(i + 1);
        proof {
            assert(next.drop_last() == prev);
            assert(next.last() == fs@[i as int]);
        }
        if is_high(&fs[i]) {
            let key = (to_owned_string(fs[i].rule_id.as_str()), to_owned_string(fs[i].location.as_str()));
            let ghost kv = (key.0@, key.1@);
            proof {
                lemma_instance_count_le(prev, kv);
            }
            add_instance(&mut counts, key, Ghost(prev), Ghost(next));
        } else {
            proof {
                let cv = counts_view(counts@);
                assert forall|m: int| 0 <= m < cv.len() implies (#[trigger] cv[m]).1 == instance_count(next, cv[m].0)
                    && cv[m].1 > 0 by {
                    assert(instance_count(next, cv[m].0) == instance_count(prev, cv[m].0));
                }
                assert forall|k: (Seq<char>, Seq<char>)| instance_count(next, k) > 0 implies exists|m: int|
                    0 <= m < cv.len() && (#[trigger] cv[m]).0 == k by {
                    assert(instance_count(next, k) == instance_count(prev, k));
                }
            }
        }
        i = i + 1;
    }
    proof {
        assert(fs@.take(fs@.len() as int) == fs@);
    }
    counts
}

/// Counts one more occurrence of `key`, the last finding of `next`.
fn add_instance(
    counts: &mut Vec<((String, String), usize)>,
    key: (String, String),
    Ghost(prev): Ghost<Seq<AuditFinding>>,
    Ghost(next): Ghost<Seq<AuditFinding>>,
)
    requires
        counts_instances(counts_view(old(counts)@), prev),
        next.len() == prev.len() + 1,
        next.drop_last() == prev,
        is_high_risk(next.last()),
        instance_of(next.last()) == (key.0@, key.1@),
        instance_count(prev, (key.0@, key.1@)) <= prev.len(),
        next.len() <= usize::MAX,
    ensures
        counts_instances(counts_view(final(counts)@), next),
{
    let ghost kv = (key.0@, key.1@);
    let ghost cv = counts_view(counts@);
    proof {
        assert forall|k: (Seq<char>, Seq<char>)| k != kv implies instance_count(next, k) == instance_count(prev, k) by {}
        assert(instance_count(next, kv) == instance_count(prev, kv) + 1);
    }
    let mut j: usize = 0;
    loop
        invariant
            j <= counts@.len(),
            cv == counts_view(counts@),
            kv == (key.0@, key.1@),
            forall|m: int| 0 <= m < j ==> instance_lt(#[trigger] cv[m].0, kv),
        ensures
            j <= counts@.len(),
            forall|m: int| 0 <= m < j ==> instance_lt(#[trigger] cv[m].0, kv),
            j < counts@.len() ==> !instance_lt(cv[j as int].0, kv),
        decreases counts@.len() - j,
    {
        if j >= counts.len() {
            break;
        }
        proof {
            assert(cv[j as int].0 == (counts@[j as int].0.0@, counts@[j as int].0.1@));
        }
        let lt = pair_lt(&counts[j].0, &key);
        if !lt {
            break;
        }
        j = j + 1;
    }
    proof {
        if j < cv.len() {
            assert(cv[j as int].0 == (counts@[j as int].0.0@, counts@[j as int].0.1@));
        }
    }
    let found = j < counts.len() && str_eq(counts[j].0.0.as_str(), key.0.as_str()) && str_eq(
        counts[j].0.1.as_str(),
        key.1.as_str(),
    );
    if found {
        proof {
            assert(cv[j as int].0 == kv);
        }
        let c = counts[j].1;
        let entry = (key, c + 1);
        counts.set(j, entry);
        proof {
            let nv = counts_view(counts@);
            assert(nv =~= cv.update(j as int, (kv, (c + 1) as nat)));
            assert forall|a: int, b: int| 0 <= a < b < nv.len() implies instance_lt(#[trigger] nv[a].0, #[trigger] nv[b].0) by {
                assert(nv[a].0 == cv[a].0);
                assert(nv[b].0 == cv[b].0);
            }
            assert forall|m: int| 0 <= m < nv.len() implies (#[trigger] nv[m]).1 == instance_count(next, nv[m].0) && nv[m].1 > 0 by {
                if m != j {
                    assert(nv[m] == cv[m]);
                    lemma_instance_trichotomy(cv[m].0, cv[j as int].0);
                }
            }
            assert forall|k: (Seq<char>, Seq<char>)| instance_count(next, k) > 0 implies exists|m: int|
                0 <= m < nv.len() && (#[trigger] nv[m]).0 == k by {
                if k == kv {
                    assert(nv[j as int].0 == k);
                } else {
                    assert(instance_count(prev, k) > 0);
                    let m = choose|m: int| 0 <= m < cv.len() && (#[trigger] cv[m]).0 == k;
                    assert(nv[m].0 == cv[m].0);
                }
            }
        }
    } else {
        proof {
            if j < cv.len() {
                lemma_instance_trichotomy(cv[j as int].0, kv);
            }
            if instance_count(prev, kv) > 0 {
                let m = choose|m: int| 0 <= m < cv.len() && (#[trigger] cv[m]).0 == kv;
                if m < j {
                    lemma_instance_trichotomy(kv, kv);
                } else if m > j {
                    lemma_instance_trans(kv, cv[j as int].0, cv[m].0);
                    lemma_instance_trichotomy(kv, kv);
                }
            }
            assert(instance_count(prev, kv) == 0);
        }
        counts.insert(j, (key, 1));
        proof {
            let nv = counts_view(counts@);
            assert(nv =~= cv.insert(j as int, (kv, 1nat)));
            assert forall|a: int, b: int| 0 <= a < b < nv.len() implies instance_lt(#[trigger] nv[a].0, #[trigger] nv[b].0) by {
                if b < j {
                    assert(nv[a] == cv[a]);
                    assert(nv[b] == cv[b]);
                } else if b == j {
                    assert(nv[a] == cv[a]);
                } else if a < j {
                    assert(nv[a] == cv[a]);
                    assert(nv[b] == cv[b - 1]);
                    lemma_instance_trans(cv[a].0, kv, cv[j as int].0);
                    if b - 1 > j {
                        lemma_instance_trans(cv[a].0, cv[j as int].0, cv[b - 1].0);
                    }
                } else if a == j {
                    assert(nv[b] == cv[b - 1]);
                    if b - 1 > j {
                        lemma_instance_trans(kv, cv[j as int].0, cv[b - 1].0);
                    }
                } else {
                    assert(nv[a] == cv[a - 1]);
                    assert(nv[b] == cv[b - 1]);
                }
            }
            assert forall|m: int| 0 <= m < nv.len() implies (#[trigger] nv[m]).1 == instance_count(next, nv[m].0) && nv[m].1 > 0 by {
                if m < j {
                    assert(nv[m] == cv[m]);
                    lemma_instance_trichotomy(cv[m].0, kv);
                } else if m > j {
                    assert(nv[m] == cv[m - 1]);
                    if m - 1 > j {
                        lemma_instance_trans(kv, cv[j as int].0, cv[m - 1].0);
                    }
                    lemma_instance_trichotomy(cv[m - 1].0, kv);
                }
            }
            assert forall|k: (Seq<char>, Seq<char>)| instance_count(next, k) > 0 implies exists|m: int|
                0 <= m < nv.len() && (#[trigger] nv[m]).0 == k by {
                if k == kv {
                    assert(nv[j as int].0 == k);
                } else {
                    assert(instance_count(prev, k) > 0);
                    let m = choose|m: int| 0 <= m < cv.len() && (#[trigger] cv[m]).0 == k;
                    if m < j {
                        assert(nv[m].0 == k);
                    } else {
                        assert(nv[m + 1].0 == k);
                    }
                }
            }
        }
    }
}

/// How often `k` occurs according to `cs` (zero when it is not listed).
pub open spec fn listed_count(cs: Seq<((Seq<char>, Seq<char>), nat)>, k: (Seq<char>, Seq<char>)) -> nat
    decreases cs.len(),
{
    if cs.len() == 0 {
        0
    } else if cs.last().0 == k {
        cs.last().1
    } else {
        listed_count(cs.drop_last(), k)
    }
}

/// The instances of `after`, in order, that occur more often than in `baseline`.
pub open spec fn introduced(
    baseline: Seq<((Seq<char>, Seq<char>), nat)>,
    after: Seq<((Seq<char>, Seq<char>), nat)>,
) -> Seq<(Seq<char>, Seq<char>)>
    decreases after.len(),
{
    if after.len() == 0 {
        Seq::empty()
    } else {
        let rest = introduced(baseline, after.drop_last());
        if after.last().1 > listed_count(baseline, after.last().0) {
            rest.push(after.last().0)
        } else {
            rest
        }
    }
}

/// The view of a list of instances.
pub open spec fn instances_view(v: Seq<(String, String)>) -> Seq<(Seq<char>, Seq<char>)> {
    v.map_values(|x: (String, String)| (x.0@, x.1@))
}

fn count_in(cs: &Vec<((String, String), usize)>, k: &(String, String)) -> (n: usize)
    ensures
        n == listed_count(counts_view(cs@), (k.0@, k.1@)),
{
    let ghost kv = (k.0@, k.1@);
    let mut j: usize = cs.len();
    proof {
        assert(cs@.take(j as int) == cs@);
    }
    while j > 0
        invariant
            j <= cs@.len(),
            kv == (k.0@, k.1@),
            listed_count(counts_view(cs@), kv) == listed_count(counts_view(cs@.take(j as int)), kv),
        decreases j,
    {
        proof {
            assert(counts_view(cs@.take(j as int)).drop_last() == counts_view(cs@.take(j - 1)));
            assert(counts_view(cs@.take(j as int)).last() == ((cs@[j - 1].0.0@, cs@[j - 1].0.1@), cs@[j - 1].1 as nat));
        }
        if str_eq(cs[j - 1].0.0.as_str(), k.0.as_str()) && str_eq(cs[j - 1].0.1.as_str(), k.1.as_str()) {
            return cs[j - 1].1;
        }
        j = j - 1;
    }
    0
}

/// The instances that occur more often after an edit than before it: a new
/// rule at a new location counts, and so does one more of the same.
pub fn introduced_high_risk_instances(
    baseline: &Vec<((String, String), usize)>,
    after: &Vec<((String, String), usize)>,
) -> (r: Vec<(String, String)>)
    ensures
        instances_view(r@) == introduced(counts_view(baseline@), counts_view(after@)),
{
    let ghost bv = counts_view(baseline@);
    let ghost av = counts_view(after@);
    let mut r: Vec<(String, String)> = Vec::new();
    let mut i: usize = 0;
    while i < after.len()
        invariant
            i <= after@.len(),
            bv == counts_view(baseline@),
            av == counts_view(after@),
            instances_view(r@) == introduced(bv, av.take(i as int)),
        decreases after@.len() - i,
    {
        proof {
            assert(av.take(i + 1).drop_last() == av.take(i as int));
            assert(av.take(i + 1).last() == ((after@[i as int].0.0@, after@[i as int].0.1@), after@[i as int].1 as nat));
        }
        let before = count_in(baseline, &after[i].0);
        if after[i].1 > before {
            let ghost old_r = r@;
            let inst = (to_owned_string(after[i].0.0.as_str()), to_owned_string(after[i].0.1.as_str()));
            r.push(inst);
            proof {
                assert(instances_view(r@) =~= instances_view(old_r).push((after@[i as int].0.0@, after@[i as int].0.1@)));
            }
        }
        i = i + 1;
    }
    proof {
        assert(av.take(after@.len() as int) == av);
    }
    r
}

/// `rule @ location`.
pub fn render_risk_instance(instance: &(String, String)) -> (s: String)
    ensures
        s@ == instance.0@ + " @ "@ + instance.1@,
{
    let mut s = String::new();
    s.push_str(instance.0.as_str());
    s.push_str(" @ ");
    s.push_str(instance.1.as_str());
    s
}

/// Whether `pattern` (a regular expression) compiles and matches somewhere
/// in `text`: `Some(true)` or `Some(false)`, `None` when it does not compile.
pub uninterp spec fn regex_is_match(pattern: Seq<char>, text: Seq<char>) -> Option<bool>;

/// `regex::Regex::new(pattern)` and `is_match(text)`: whether the pattern
/// matches somewhere in `text`, or `None` when the pattern does not compile.
/// The answer depends on the two strings alone; what the pattern language
/// means is not stated here.
#[verifier::external_body]
fn pattern_matches(pattern: &str, text: &str) -> (r: Option<bool>)
    ensures
        r == regex_is_match(pattern@, text@),
{
    match regex::Regex::new(pattern) {
        Ok(re) => Some(re.is_match(text)),
        Err(_) => None,
    }
}

/// The settings that are flagged as insecure.
#[derive(Debug, Clone, Copy, PartialEq, Eq, Structural)]
pub enum InsecureRule {
    /// A value mentioning `md5` or `sha1`.
    WeakHash,
    /// The port value `23` or `21`.
    InsecurePort,
    /// A key mentioning `debug` set to `true`.
    DebugEnabled,
    /// A key mentioning `host` set to `0.0.0.0`.
    WildcardHost,
    /// A key mentioning `ssl` or `verify` set to `false`.
    SslVerifyDisabled,
}

/// Whether `rule` flags `key = value` (letters compared in lower case).
pub open spec fn rule_holds(rule: InsecureRule, key: Seq<char>, value: Seq<char>) -> bool {
    let lk = crate::engine::template::lowercase_of(key);
    let lv = crate::engine::template::lowercase_of(value);
    match rule {
        InsecureRule::WeakHash => contains_seq(lv, "md5"@) || contains_seq(lv, "sha1"@),
        InsecureRule::InsecurePort => value == "23"@ || value == "21"@,
        InsecureRule::DebugEnabled => contains_seq(lk, "debug"@) && lv == "true"@,
        InsecureRule::WildcardHost => contains_seq(lk, "host"@) && value == "0.0.0.0"@,
        InsecureRule::SslVerifyDisabled => (contains_seq(lk, "ssl"@) || contains_seq(lk, "verify"@)) && lv == "false"@,
    }
}

/// What each insecure-setting rule flags, whatever the key: the port rule
/// exactly the telnet port `23` and the FTP port `21`; the wildcard-host
/// rule only a host key set to `0.0.0.0`; the debug rule only a debug key
/// set to `true`, and the verification rule only an `ssl` or `verify` key
/// set to `false` (both in lower case); the hash rule a value naming `md5`
/// or `sha1`.
pub proof fn lemma_insecure_rules(key: Seq<char>, value: Seq<char>)
    ensures
        rule_holds(InsecureRule::InsecurePort, key, "21"@),
        rule_holds(InsecureRule::InsecurePort, key, "23"@),
        value != "21"@ && value != "23"@ ==> !rule_holds(InsecureRule::InsecurePort, key, value),
        rule_holds(InsecureRule::WildcardHost, key, value) ==> value == "0.0.0.0"@ && contains_seq(
            crate::engine::template::lowercase_of(key),
            "host"@,
        ),
        rule_holds(InsecureRule::DebugEnabled, key, value) <==> contains_seq(
            crate::engine::template::lowercase_of(key),
            "debug"@,
        ) && crate::engine::template::lowercase_of(value) == "true"@,
        rule_holds(InsecureRule::SslVerifyDisabled, key, value) <==> (contains_seq(
            crate::engine::template::lowercase_of(key),
            "ssl"@,
        ) || contains_seq(crate::engine::template::lowercase_of(key), "verify"@))
            && crate::engine::template::lowercase_of(value) == "false"@,
        rule_holds(InsecureRule::WeakHash, key, value) <==> contains_seq(
            crate::engine::template::lowercase_of(value),
            "md5"@,
        ) || contains_seq(crate::engine::template::lowercase_of(value), "sha1"@),
{
}

/// An insecure-setting rule and what a finding of it says.
#[derive(Debug, Clone)]
pub struct InsecureCheck {
    pub rule_id: String,
    pub title: String,
    pub description: String,
    pub recommendation: String,
    pub severity: AuditSeverity,
    pub rule: InsecureRule,
}

/// The audit rules.
pub struct AuditEngine {
    sensitive_patterns: Vec<(String, String)>,
    insecure_checks: Vec<InsecureCheck>,
}

/// A finding as plain values: category, severity, rule, title,
/// description, location and recommendation.
pub type FindingView = (AuditCategory, AuditSeverity, Seq<char>, Seq<char>, Seq<char>, Seq<char>, Seq<char>);

/// The plain values of a finding.
pub open spec fn finding_view(f: AuditFinding) -> FindingView {
    (f.category, f.severity, f.rule_id@, f.title@, f.description@, f.location@, f.recommendation@)
}

/// The plain values of a list of findings.
pub open spec fn findings_view(fs: Seq<AuditFinding>) -> Seq<FindingView> {
    fs.map_values(|f: AuditFinding| finding_view(f))
}

/// The default sensitive-key patterns: name and case-insensitive pattern.
pub open spec fn default_patterns() -> Seq<(Seq<char>, Seq<char>)> {
    seq![
        ("password"@, "(?i)password|passwd|pwd"@),
        ("secret"@, "(?i)secret|secret_key"@),
        ("token"@, "(?i)token|api_key|apikey|access_key"@),
        ("private_key"@, "(?i)private_key|priv_key"@),
        ("credential"@, "(?i)credential|auth_token"@),
    ]
}

/// An insecure check as plain values.
pub type CheckView = (Seq<char>, Seq<char>, Seq<char>, Seq<char>, AuditSeverity, InsecureRule);

/// The plain values of a check.
pub open spec fn check_view(c: InsecureCheck) -> CheckView {
    (c.rule_id@, c.title@, c.description@, c.recommendation@, c.severity, c.rule)
}

/// The default insecure-setting checks.
pub open spec fn default_checks() -> Seq<CheckView> {
    seq![
        (
            "SEC-001"@,
            "Weak encryption algorithm"@,
            "MD5 or SHA1 are considered weak for security purposes"@,
            "Use SHA-256 or stronger algorithms"@,
            AuditSeverity::High,
            InsecureRule::WeakHash,
        ),
        (
            "SEC-002"@,
            "Insecure port configuration"@,
            "Using well-known insecure ports (telnet:23, ftp:21)"@,
            "Use secure alternatives (SSH:22, SFTP:22)"@,
            AuditSeverity::Medium,
            InsecureRule::InsecurePort,
        ),
        (
            "SEC-003"@,
            "Debug mode enabled"@,
            "Debug mode should not be enabled in production"@,
            "Set debug=false in production environments"@,
            AuditSeverity::Medium,
            InsecureRule::DebugEnabled,
        ),
        (
            "SEC-004"@,
            "Wildcard host binding"@,
            "Binding to 0.0.0.0 exposes the service to all interfaces"@,
            "Bind to specific interfaces (127.0.0.1 for local)"@,
            AuditSeverity::Low,
            InsecureRule::WildcardHost,
        ),
        (
            "SEC-005"@,
            "SSL verification disabled"@,
            "Disabling SSL verification exposes to MITM attacks"@,
            "Enable SSL verification in production"@,
            AuditSeverity::High,
            InsecureRule::SslVerifyDisabled,
        ),
    ]
}

/// The name of the first pattern that matches `key`.
pub open spec fn first_match(patterns: Seq<(Seq<char>, Seq<char>)>, key: Seq<char>) -> Option<Seq<char>>
    decreases patterns.len(),
{
    if patterns.len() == 0 {
        None
    } else if regex_is_match(patterns[0].1, key) == Some(true) {
        Some(patterns[0].0)
    } else {
        first_match(patterns.drop_first(), key)
    }
}

/// The sensitive-data finding for `key`, if any. `value` is the value's
/// text (`None` for a computed number, whose text is never empty);
/// `literal` tells whether it is literal text written in the file.
pub open spec fn sensitive_findings(
    patterns: Seq<(Seq<char>, Seq<char>)>,
    key: Seq<char>,
    value: Option<Seq<char>>,
    literal: bool,
) -> Seq<FindingView> {
    let blank = match value {
        Some(v) => v.len() == 0 || v == "null"@,
        None => false,
    };
    match first_match(patterns, key) {
        Some(name) => if blank {
            Seq::empty()
        } else if literal {
            seq![
                (
                    AuditCategory::SensitiveData,
                    AuditSeverity::Critical,
                    "SEC-SENS-001"@,
                    "Sensitive data in configuration: "@ + name,
                    "The key '"@ + key + "' appears to contain sensitive data"@,
                    key,
                    "Use environment variables or a secrets manager instead of hardcoding sensitive values"@,
                ),
            ]
        } else {
            seq![
                (
                    AuditCategory::SensitiveData,
                    AuditSeverity::Low,
                    "SEC-SENS-001"@,
                    "Sensitive-looking key without a literal secret value: "@ + name,
                    "The key '"@ + key
                        + "' matches a sensitive pattern, but its value is not a literal string (a number, a flag or an expression), so it is reported for review instead of blocking the edit"@,
                    key,
                    "Use environment variables or a secrets manager instead of hardcoding sensitive values"@,
                ),
            ]
        },
        None => Seq::empty(),
    }
}

/// The insecure-setting findings for `key = value`, in rule order.
pub open spec fn insecure_findings(checks: Seq<CheckView>, key: Seq<char>, value: Seq<char>) -> Seq<FindingView>
    decreases checks.len(),
{
    if checks.len() == 0 {
        Seq::empty()
    } else {
        let c = checks.last();
        insecure_findings(checks.drop_last(), key, value) + if rule_holds(c.5, key, value) {
            seq![(AuditCategory::InsecureConfig, c.4, c.0, c.1, c.2, key, c.3)]
        } else {
            Seq::empty()
        }
    }
}

/// The finding a check gives for `key`.
pub open spec fn check_finding(c: CheckView, key: Seq<char>) -> FindingView {
    (AuditCategory::InsecureConfig, c.4, c.0, c.1, c.2, key, c.3)
}

/// Finding `f` is that of one of `checks` whose rule flags the setting.
pub open spec fn from_flagging_check(checks: Seq<CheckView>, key: Seq<char>, value: Seq<char>, f: FindingView) -> bool {
    exists|j: int| 0 <= j < checks.len() && rule_holds((#[trigger] checks[j]).5, key, value) && f == check_finding(checks[j], key)
}

/// Each insecure finding is that of a check whose rule flags the setting,
/// and each such check gives its finding.
proof fn lemma_insecure_findings_of_checks(checks: Seq<CheckView>, key: Seq<char>, value: Seq<char>)
    ensures
        forall|i: int|
            0 <= i < insecure_findings(checks, key, value).len() ==> from_flagging_check(
                checks,
                key,
                value,
                #[trigger] insecure_findings(checks, key, value)[i],
            ),
        forall|j: int|
            0 <= j < checks.len() && rule_holds(#[trigger] checks[j].5, key, value) ==> insecure_findings(
                checks,
                key,
                value,
            ).contains(check_finding(checks[j], key)),
    decreases checks.len(),
{
    if checks.len() > 0 {
        let front = checks.drop_last();
        lemma_insecure_findings_of_checks(front, key, value);
        let fs = insecure_findings(checks, key, value);
        let pre = insecure_findings(front, key, value);
        let c = checks.last();
        assert(fs == pre + (if rule_holds(c.5, key, value) {
            seq![(AuditCategory::InsecureConfig, c.4, c.0, c.1, c.2, key, c.3)]
        } else {
            Seq::empty()
        }));
        assert forall|i: int| 0 <= i < fs.len() implies from_flagging_check(checks, key, value, #[trigger] fs[i]) by {
            if i < pre.len() {
                assert(fs[i] == pre[i]);
                assert(from_flagging_check(front, key, value, pre[i]));
                let j = choose|j: int|
                    0 <= j < front.len() && rule_holds((#[trigger] front[j]).5, key, value) && pre[i] == check_finding(
                        front[j],
                        key,
                    );
                assert(checks[j] == front[j]);
            } else {
                assert(rule_holds(c.5, key, value));
                assert(checks[checks.len() - 1] == c);
                assert(fs[i] == check_finding(checks[checks.len() - 1], key));
            }
        }
        assert forall|j: int| 0 <= j < checks.len() && rule_holds(#[trigger] checks[j].5, key, value) implies fs.contains(
            check_finding(checks[j], key),
        ) by {
            if j < front.len() {
                assert(checks[j] == front[j]);
                let k = choose|k: int| 0 <= k < pre.len() && pre[k] == check_finding(front[j], key);
                assert(fs[k] == pre[k]);
            } else {
                assert(fs[pre.len() as int] == check_finding(c, key));
            }
        }
    } else {
        assert(insecure_findings(checks, key, value).len() == 0);
    }
}

/// An integer setting reads as `21` or `23` exactly when it is that port.
pub proof fn lemma_port_numbers_read_as_ports(n: i64)
    ensures
        scalar_text_for_audit(ScalarValue::Number(NumberValue::Integer(n))) == "21"@ <==> n == 21,
        scalar_text_for_audit(ScalarValue::Number(NumberValue::Integer(n))) == "23"@ <==> n == 23,
{
    reveal_strlit("21");
    reveal_strlit("23");
    assert(crate::text::decimal_digits(2) == seq!['2']);
    assert(crate::text::decimal_digits(21) =~= seq!['2', '1']);
    assert(crate::text::decimal_digits(23) =~= seq!['2', '3']);
    assert(int_text(21) =~= "21"@);
    assert(int_text(23) =~= "23"@);
    crate::numeric::lemma_int_text_injective(n as int, 21);
    crate::numeric::lemma_int_text_injective(n as int, 23);
}

/// A boolean setting is read as the word the lexer takes for that same
/// boolean.
pub proof fn lemma_boolean_read_as_its_word(b: bool)
    ensures
        crate::lexer::token_spec(
            scalar_text_for_audit(ScalarValue::Boolean(b)),
            0,
            false,
            Ok(crate::token::Token::BooleanLiteral(b)),
            scalar_text_for_audit(ScalarValue::Boolean(b)).len() as int,
        ),
{
    reveal_strlit("true");
    reveal_strlit("false");
    let f = scalar_text_for_audit(ScalarValue::Boolean(b));
    let k = f.len() as int;
    assert(crate::lexer::word_end(f, k) == k);
    assert(crate::lexer::word_end(f, k - 1) == k);
    assert(crate::lexer::word_end(f, k - 2) == k);
    assert(crate::lexer::word_end(f, k - 3) == k);
    assert(crate::lexer::word_end(f, k - 4) == k);
    if !b {
        assert(crate::lexer::word_end(f, 0) == k);
    }
    assert(f.subrange(0, k) =~= f);
}

/// The rule id and severity under which each insecure-setting rule is
/// reported.
pub open spec fn reported_as(rule: InsecureRule) -> (Seq<char>, AuditSeverity) {
    match rule {
        InsecureRule::WeakHash => ("SEC-001"@, AuditSeverity::High),
        InsecureRule::InsecurePort => ("SEC-002"@, AuditSeverity::Medium),
        InsecureRule::DebugEnabled => ("SEC-003"@, AuditSeverity::Medium),
        InsecureRule::WildcardHost => ("SEC-004"@, AuditSeverity::Low),
        InsecureRule::SslVerifyDisabled => ("SEC-005"@, AuditSeverity::High),
    }
}

/// With the standard checks, a setting gets a finding under a rule's id
/// exactly when that rule flags it, and every such finding is an insecure
/// setting at that key with the rule's severity.
pub proof fn lemma_standard_findings(key: Seq<char>, value: Seq<char>, rule: InsecureRule)
    ensures
        (exists|i: int|
            0 <= i < insecure_findings(default_checks(), key, value).len() && (#[trigger] insecure_findings(
                default_checks(),
                key,
                value,
            )[i]).2 == reported_as(rule).0) <==> rule_holds(rule, key, value),
        forall|i: int|
            0 <= i < insecure_findings(default_checks(), key, value).len() && (#[trigger] insecure_findings(
                default_checks(),
                key,
                value,
            )[i]).2 == reported_as(rule).0 ==> {
                let f = insecure_findings(default_checks(), key, value)[i];
                &&& f.0 == AuditCategory::InsecureConfig
                &&& f.1 == reported_as(rule).1
                &&& f.5 == key
            },
{
    let d = default_checks();
    let fs = insecure_findings(d, key, value);
    lemma_insecure_findings_of_checks(d, key, value);
    reveal_strlit("SEC-001");
    reveal_strlit("SEC-002");
    reveal_strlit("SEC-003");
    reveal_strlit("SEC-004");
    reveal_strlit("SEC-005");
    assert(d.len() == 5);
    let idx: int = match rule {
        InsecureRule::WeakHash => 0,
        InsecureRule::InsecurePort => 1,
        InsecureRule::DebugEnabled => 2,
        InsecureRule::WildcardHost => 3,
        InsecureRule::SslVerifyDisabled => 4,
    };
    assert(d[idx].5 == rule && d[idx].0 == reported_as(rule).0 && d[idx].4 == reported_as(rule).1);
    assert forall|j: int| 0 <= j < 5 && d[j].0 == reported_as(rule).0 implies j == idx by {
        assert(d[j].0[6] == d[idx].0[6]);
    }
    if rule_holds(rule, key, value) {
        assert(fs.contains(check_finding(d[idx], key)));
        let k = choose|k: int| 0 <= k < fs.len() && fs[k] == check_finding(d[idx], key);
        assert(fs[k].2 == reported_as(rule).0);
    }
    assert forall|i: int| 0 <= i < fs.len() && (#[trigger] fs[i]).2 == reported_as(rule).0 implies {
        &&& rule_holds(rule, key, value)
        &&& fs[i].0 == AuditCategory::InsecureConfig
        &&& fs[i].1 == reported_as(rule).1
        &&& fs[i].5 == key
    } by {
        assert(from_flagging_check(d, key, value, fs[i]));
        let j = choose|j: int|
            0 <= j < d.len() && rule_holds((#[trigger] d[j]).5, key, value) && fs[i] == check_finding(d[j], key);
        assert(j == idx);
    }
}

/// With the standard checks, a key set to `21` or `23` is reported as
/// SEC-002 "Insecure port configuration" (medium) at that key, and a key
/// set to anything else never is.
pub proof fn lemma_insecure_port_finding(key: Seq<char>, value: Seq<char>)
    ensures
        value == "21"@ || value == "23"@ ==> insecure_findings(default_checks(), key, value).contains(
            (
                AuditCategory::InsecureConfig,
                AuditSeverity::Medium,
                "SEC-002"@,
                "Insecure port configuration"@,
                "Using well-known insecure ports (telnet:23, ftp:21)"@,
                key,
                "Use secure alternatives (SSH:22, SFTP:22)"@,
            ),
        ),
        forall|i: int|
            0 <= i < insecure_findings(default_checks(), key, value).len() && (#[trigger] insecure_findings(
                default_checks(),
                key,
                value,
            )[i]).2 == "SEC-002"@ ==> value == "21"@ || value == "23"@,
{
    let d = default_checks();
    lemma_insecure_findings_of_checks(d, key, value);
    reveal_strlit("21");
    reveal_strlit("23");
    reveal_strlit("SEC-001");
    reveal_strlit("SEC-002");
    reveal_strlit("SEC-003");
    reveal_strlit("SEC-004");
    reveal_strlit("SEC-005");
    assert(d.len() == 5);
    assert(d[1].5 == InsecureRule::InsecurePort);
    if value == "21"@ || value == "23"@ {
        assert(rule_holds(d[1].5, key, value));
    }
    assert forall|i: int|
        0 <= i < insecure_findings(d, key, value).len() && (#[trigger] insecure_findings(d, key, value)[i]).2
            == "SEC-002"@ implies value == "21"@ || value == "23"@ by {
        assert(from_flagging_check(d, key, value, insecure_findings(d, key, value)[i]));
        let j = choose|j: int|
            0 <= j < d.len() && rule_holds((#[trigger] d[j]).5, key, value) && insecure_findings(d, key, value)[i]
                == check_finding(d[j], key);
        assert("SEC-002"@[6] != "SEC-001"@[6]);
        assert("SEC-002"@[6] != "SEC-003"@[6]);
        assert("SEC-002"@[6] != "SEC-004"@[6]);
        assert("SEC-002"@[6] != "SEC-005"@[6]);
        assert(j == 1);
    }
}

/// A scalar's text as the audit reads it.
pub open spec fn scalar_text_for_audit(s: ScalarValue) -> Seq<char> {
    match s {
        ScalarValue::String(t) => t@,
        ScalarValue::Number(NumberValue::Integer(n)) => int_text(n as int),
        ScalarValue::Number(NumberValue::Float(t)) => t@,
        ScalarValue::Boolean(b) => if b { "true"@ } else { "false"@ },
        ScalarValue::DateTime(t) => t@,
        ScalarValue::Duration(secs) => if secs == 0 { "0ns"@ } else { decimal_digits(secs as nat) + "s"@ },
    }
}

/// The whole number of seconds a unit value written as plain decimal text
/// stands for (its integer part times the unit), when that fits.
pub open spec fn unit_seconds_of(value: Seq<char>, unit: TimeUnit) -> Option<u64> {
    let i = crate::numeric::digit_run(value, 0);
    let plain = i > 0 && (i == value.len() || (value[i] == '.' && crate::numeric::digit_run(value, i + 1) == value.len()));
    let n = crate::numeric::digits_value(value.take(i));
    if plain && n * crate::ast::unit_seconds(unit) <= u64::MAX {
        Some((n * crate::ast::unit_seconds(unit)) as u64)
    } else {
        None
    }
}

/// The text of an expression's value as the audit reads it: `Some(Some(t))`
/// for a literal or a unit value, `Some(None)` for a computed number, `None`
/// when evaluation fails (or a unit value is not plain decimal text).
pub open spec fn expression_text_for_audit(e: Expression) -> Option<Option<Seq<char>>> {
    match e {
        Expression::Literal(s) => Some(Some(scalar_text_for_audit(s))),
        Expression::UnitValue { value, unit } => match unit_seconds_of(value@, unit) {
            Some(n) => Some(Some(scalar_text_for_audit(ScalarValue::Duration(n)))),
            None => None,
        },
        Expression::BinaryOp { .. } => match crate::engine::schema_infer::expression_outcome(e) {
            Some(_) => Some(None),
            None => None,
        },
    }
}

/// Whether a value is literal text written in the file (not a number, a
/// flag, an expression, or text that is wholly one `${...}` reference).
pub open spec fn literal_text(v: Value) -> bool {
    let s = match v {
        Value::Scalar(s) => Some(s),
        Value::Expression(Expression::Literal(s)) => Some(s),
        _ => None,
    };
    match s {
        Some(ScalarValue::String(t)) => !pure_interpolation(t@),
        _ => false,
    }
}

/// Text that, trimmed, is one `${...}` reference.
pub open spec fn pure_interpolation(t: Seq<char>) -> bool {
    let tr = trimmed(t);
    crate::text::starts_with(tr, "${"@) && tr.len() > 0 && tr.last() == '}'
}

/// Number of `[[name]]` elements among the entries.
pub open spec fn array_count(es: Seq<TableEntry>, name: Seq<char>) -> nat
    decreases es.len(),
{
    if es.len() == 0 {
        0
    } else {
        array_count(es.drop_last(), name) + match es.last() {
            TableEntry::ArrayTable(at) => if key_text(at.key) == name { 1nat } else { 0nat },
            _ => 0nat,
        }
    }
}

/// The findings for one key-value pair at `full_key`.
pub open spec fn kv_findings(
    p: Seq<(Seq<char>, Seq<char>)>,
    c: Seq<CheckView>,
    kv: KeyValue,
    full_key: Seq<char>,
) -> Seq<FindingView>
    decreases kv, 0nat,
{
    let lit = literal_text(kv.value);
    match kv.value {
        Value::Scalar(s) => {
            let t = scalar_text_for_audit(s);
            sensitive_findings(p, full_key, Some(t), lit) + insecure_findings(c, full_key, t)
        },
        Value::Expression(e) => match expression_text_for_audit(e) {
            Some(Some(t)) => sensitive_findings(p, full_key, Some(t), lit) + insecure_findings(c, full_key, t),
            Some(None) => sensitive_findings(p, full_key, None, lit),
            None => Seq::empty(),
        },
        Value::TableBlock(t) => entries_findings(p, c, t.entries@, full_key),
        Value::Array(a) => items_findings(p, c, a.elements@, full_key),
        _ => Seq::empty(),
    }
}

/// The findings for the items of an array at `key`: `key[i]` each.
pub open spec fn items_findings(
    p: Seq<(Seq<char>, Seq<char>)>,
    c: Seq<CheckView>,
    items: Seq<Value>,
    key: Seq<char>,
) -> Seq<FindingView>
    decreases items, 1nat,
{
    if items.len() == 0 {
        Seq::empty()
    } else {
        items_findings(p, c, items.drop_last(), key) + item_findings(
            p,
            c,
            items.last(),
            key + seq!['['] + decimal_digits((items.len() - 1) as nat) + seq![']'],
        )
    }
}

/// The findings for one array item at `item_key` (sensitive data only).
pub open spec fn item_findings(
    p: Seq<(Seq<char>, Seq<char>)>,
    c: Seq<CheckView>,
    v: Value,
    item_key: Seq<char>,
) -> Seq<FindingView>
    decreases v, 0nat,
{
    let lit = literal_text(v);
    match v {
        Value::Scalar(s) => sensitive_findings(p, item_key, Some(scalar_text_for_audit(s)), lit),
        Value::Expression(e) => match expression_text_for_audit(e) {
            Some(t) => sensitive_findings(p, item_key, t, lit),
            None => Seq::empty(),
        },
        Value::TableBlock(t) => entries_findings(p, c, t.entries@, item_key),
        _ => Seq::empty(),
    }
}

/// The findings for a list of entries under `prefix`.
pub open spec fn entries_findings(
    p: Seq<(Seq<char>, Seq<char>)>,
    c: Seq<CheckView>,
    es: Seq<TableEntry>,
    prefix: Seq<char>,
) -> Seq<FindingView>
    decreases es, 1nat,
{
    if es.len() == 0 {
        Seq::empty()
    } else {
        let idx = match es.last() {
            TableEntry::ArrayTable(at) => array_count(es.drop_last(), key_text(at.key)),
            _ => 0nat,
        };
        entries_findings(p, c, es.drop_last(), prefix) + entry_findings(p, c, es.last(), prefix, idx)
    }
}

/// The findings for one entry; `idx` is the element number of an array table.
pub open spec fn entry_findings(
    p: Seq<(Seq<char>, Seq<char>)>,
    c: Seq<CheckView>,
    e: TableEntry,
    prefix: Seq<char>,
    idx: nat,
) -> Seq<FindingView>
    decreases e, 0nat,
{
    match e {
        TableEntry::KeyValue(kv) => kv_findings(p, c, kv, crate::parser::join_path(prefix, key_text(kv.key))),
        TableEntry::TableBlock(t) => entries_findings(
            p,
            c,
            t.entries@,
            crate::parser::join_path(
                prefix,
                match t.name {
                    Some(n) => n@,
                    None => Seq::empty(),
                },
            ),
        ),
        TableEntry::ArrayTable(at) => array_kvs_findings(
            p,
            c,
            at.entries@,
            crate::parser::join_path(prefix, key_text(at.key)) + seq!['['] + decimal_digits(idx) + "]."@,
        ),
        _ => Seq::empty(),
    }
}

/// The findings for the pairs of one array-table element, keys under `head`.
pub open spec fn array_kvs_findings(
    p: Seq<(Seq<char>, Seq<char>)>,
    c: Seq<CheckView>,
    kvs: Seq<KeyValue>,
    head: Seq<char>,
) -> Seq<FindingView>
    decreases kvs, 1nat,
{
    if kvs.len() == 0 {
        Seq::empty()
    } else {
        array_kvs_findings(p, c, kvs.drop_last(), head) + kv_findings(p, c, kvs.last(), head + key_text(kvs.last().key))
    }
}

fn make_check(
    rule_id: &str,
    title: &str,
    description: &str,
    recommendation: &str,
    severity: AuditSeverity,
    rule: InsecureRule,
) -> (c: InsecureCheck)
    ensures
        check_view(c) == (rule_id@, title@, description@, recommendation@, severity, rule),
{
    InsecureCheck {
        rule_id: to_owned_string(rule_id),
        title: to_owned_string(title),
        description: to_owned_string(description),
        recommendation: to_owned_string(recommendation),
        severity,
        rule,
    }
}

fn push_pattern(v: &mut Vec<(String, String)>, name: &str, pattern: &str)
    ensures
        crate::pairs::pairs_view(final(v)@) == crate::pairs::pairs_view(old(v)@).push((name@, pattern@)),
{
    let ghost before = crate::pairs::pairs_view(v@);
    v.push((to_owned_string(name), to_owned_string(pattern)));
    proof {
        assert(crate::pairs::pairs_view(v@) =~= before.push((name@, pattern@)));
    }
}

fn push_check(v: &mut Vec<InsecureCheck>, c: InsecureCheck)
    ensures
        final(v)@.map_values(|x: InsecureCheck| check_view(x)) == old(v)@.map_values(|x: InsecureCheck| check_view(x)).push(check_view(c)),
{
    let ghost before = v@.map_values(|x: InsecureCheck| check_view(x));
    v.push(c);
    proof {
        assert(v@.map_values(|x: InsecureCheck| check_view(x)) =~= before.push(check_view(c)));
    }
}

fn scalar_text(s: &ScalarValue) -> (t: String)
    ensures
        t@ == scalar_text_for_audit(*s),
{
    match s {
        ScalarValue::String(x) => x.clone(),
        ScalarValue::Number(NumberValue::Integer(n)) => {
            let mut t = String::new();
            crate::text::push_i64(&mut t, *n);
            t
        },
        ScalarValue::Number(NumberValue::Float(x)) => x.clone(),
        ScalarValue::Boolean(b) => if *b { to_owned_string("true") } else { to_owned_string("false") },
        ScalarValue::DateTime(x) => x.clone(),
        ScalarValue::Duration(secs) => {
            if *secs == 0 {
                to_owned_string("0ns")
            } else {
                let mut t = String::new();
                crate::text::push_decimal(&mut t, *secs);
                t.push_str("s");
                t
            }
        },
    }
}

pub(crate) fn unit_seconds_exec(value: &String, unit: TimeUnit) -> (r: Option<u64>)
    ensures
        r == unit_seconds_of(value@, unit),
{
    let v = chars_of(value.as_str());
    let i = crate::numeric::digit_run_exec(&v, 0);
    let plain = i > 0 && (i == v.len() || (v[i] == '.' && crate::numeric::digit_run_exec(&v, i + 1) == v.len()));
    if !plain {
        return None;
    }
    let head = crate::text::vec_range(&v, 0, i);
    proof {
        assert(head@.skip(0) == head@);
        assert(head@ == v@.take(i as int));
        lemma_digit_run_all_digits(v@, 0, i as int);
    }
    match crate::numeric::read_digits(&head, 0, u64::MAX) {
        Some(n) => {
            let secs = unit.to_seconds();
            match n.checked_mul(secs) {
                Some(total) => Some(total),
                None => None,
            }
        },
        None => {
            proof {
                assert(crate::ast::unit_seconds(unit) >= 1);
                assert(crate::numeric::digits_value(v@.take(i as int)) * crate::ast::unit_seconds(unit) >= crate::numeric::digits_value(v@.take(i as int))) by (nonlinear_arith)
                    requires crate::ast::unit_seconds(unit) >= 1;
            }
            None
        },
    }
}

proof fn lemma_digit_run_digits(s: Seq<char>, from: int)
    requires
        0 <= from <= s.len(),
    ensures
        from <= crate::numeric::digit_run(s, from) <= s.len(),
        forall|k: int| from <= k < crate::numeric::digit_run(s, from) ==> crate::chars::is_digit(#[trigger] s[k]),
    decreases s.len() - from,
{
    if from < s.len() && crate::chars::is_digit(s[from]) {
        lemma_digit_run_digits(s, from + 1);
    }
}

proof fn lemma_digit_run_all_digits(s: Seq<char>, from: int, e: int)
    requires
        0 <= from <= s.len(),
        e == crate::numeric::digit_run(s, from),
        from < e,
    ensures
        crate::numeric::all_digits(s.subrange(from, e)),
{
    lemma_digit_run_digits(s, from);
    assert forall|k: int| 0 <= k < s.subrange(from, e).len() implies crate::chars::is_digit(#[trigger] s.subrange(from, e)[k]) by {
        assert(s.subrange(from, e)[k] == s[from + k]);
    }
}

fn expression_text(e: &Expression) -> (r: Option<Option<String>>)
    ensures
        match expression_text_for_audit(*e) {
            Some(Some(t)) => r matches Some(Some(x)) && x@ == t,
            Some(None) => r matches Some(None),
            None => r is None,
        },
{
    match e {
        Expression::Literal(s) => Some(Some(scalar_text(s))),
        Expression::UnitValue { value, unit } => match unit_seconds_exec(value, *unit) {
            Some(n) => Some(Some(scalar_text(&ScalarValue::Duration(n)))),
            None => None,
        },
        Expression::BinaryOp { .. } => {
            if crate::engine::schema_infer::evaluates(e) {
                Some(None)
            } else {
                None
            }
        },
    }
}

fn is_pure_interpolation(text: &String) -> (b: bool)
    ensures
        b == pure_interpolation(text@),
{
    let v = chars_of(text.as_str());
    let t = crate::text::trim_chars(&v);
    let tv = chars_of(t.as_str());
    proof {
        reveal_strlit("${");
        assert("${"@ =~= seq!['$', '{']);
    }
    let starts = tv.len() >= 2 && tv[0] == '$' && tv[1] == '{';
    proof {
        if tv@.len() >= 2 {
            assert(starts == (tv@.take(2) =~= "${"@));
        }
    }
    starts && tv.len() > 0 && tv[tv.len() - 1] == '}'
}

fn is_literal_text(v: &Value) -> (b: bool)
    ensures
        b == literal_text(*v),
{
    let s = match v {
        Value::Scalar(s) => s,
        Value::Expression(Expression::Literal(s)) => s,
        _ => {
            return false;
        },
    };
    match s {
        ScalarValue::String(t) => !is_pure_interpolation(t),
        _ => false,
    }
}

impl AuditEngine {
    /// The sensitive-key patterns: name and regular expression.
    pub closed spec fn patterns(&self) -> Seq<(Seq<char>, Seq<char>)> {
        crate::pairs::pairs_view(self.sensitive_patterns@)
    }

    /// The insecure-setting checks.
    pub closed spec fn checks(&self) -> Seq<CheckView> {
        self.insecure_checks@.map_values(|x: InsecureCheck| check_view(x))
    }

    /// The engine with the default rules.
    pub fn new() -> (e: AuditEngine)
        ensures
            e.patterns() == default_patterns(),
            e.checks() == default_checks(),
    {
        let mut patterns: Vec<(String, String)> = Vec::new();
        proof {
            assert(crate::pairs::pairs_view(patterns@) =~= Seq::<(Seq<char>, Seq<char>)>::empty());
        }
        push_pattern(&mut patterns, "password", "(?i)password|passwd|pwd");
        push_pattern(&mut patterns, "secret", "(?i)secret|secret_key");
        push_pattern(&mut patterns, "token", "(?i)token|api_key|apikey|access_key");
        push_pattern(&mut patterns, "private_key", "(?i)private_key|priv_key");
        push_pattern(&mut patterns, "credential", "(?i)credential|auth_token");
        let mut checks: Vec<InsecureCheck> = Vec::new();
        proof {
            assert(checks@.map_values(|x: InsecureCheck| check_view(x)) =~= Seq::<CheckView>::empty());
        }
        push_check(&mut checks, make_check(
            "SEC-001",
            "Weak encryption algorithm",
            "MD5 or SHA1 are considered weak for security purposes",
            "Use SHA-256 or stronger algorithms",
            AuditSeverity::High,
            InsecureRule::WeakHash,
        ));
        push_check(&mut checks, make_check(
            "SEC-002",
            "Insecure port configuration",
            "Using well-known insecure ports (telnet:23, ftp:21)",
            "Use secure alternatives (SSH:22, SFTP:22)",
            AuditSeverity::Medium,
            InsecureRule::InsecurePort,
        ));
        push_check(&mut checks, make_check(
            "SEC-003",
            "Debug mode enabled",
            "Debug mode should not be enabled in production",
            "Set debug=false in production environments",
            AuditSeverity::Medium,
            InsecureRule::DebugEnabled,
        ));
        push_check(&mut checks, make_check(
            "SEC-004",
            "Wildcard host binding",
            "Binding to 0.0.0.0 exposes the service to all interfaces",
            "Bind to specific interfaces (127.0.0.1 for local)",
            AuditSeverity::Low,
            InsecureRule::WildcardHost,
        ));
        push_check(&mut checks, make_check(
            "SEC-005",
            "SSL verification disabled",
            "Disabling SSL verification exposes to MITM attacks",
            "Enable SSL verification in production",
            AuditSeverity::High,
            InsecureRule::SslVerifyDisabled,
        ));
        AuditEngine { sensitive_patterns: patterns, insecure_checks: checks }
    }
}

fn push_finding(
    findings: &mut Vec<AuditFinding>,
    category: AuditCategory,
    severity: AuditSeverity,
    rule_id: String,
    title: String,
    description: String,
    location: &str,
    recommendation: String,
)
    ensures
        findings_view(final(findings)@) == findings_view(old(findings)@).push(
            (category, severity, rule_id@, title@, description@, location@, recommendation@),
        ),
{
    let ghost before = findings_view(findings@);
    findings.push(AuditFinding {
        category,
        severity,
        rule_id,
        title,
        description,
        location: to_owned_string(location),
        recommendation,
    });
    proof {
        assert(findings_view(findings@) =~= before.push(
            (category, severity, rule_id@, title@, description@, location@, recommendation@),
        ));
    }
}

fn rule_applies(rule: InsecureRule, key: &str, value: &str) -> (b: bool)
    ensures
        b == rule_holds(rule, key@, value@),
{
    proof {
        reveal_strlit("23");
        reveal_strlit("21");
        reveal_strlit("0.0.0.0");
        reveal_strlit("true");
        reveal_strlit("false");
    }
    let lk = crate::engine::template::to_lowercase(key);
    let lv = crate::engine::template::to_lowercase(value);
    match rule {
        InsecureRule::WeakHash => crate::text::contains_str(lv.as_str(), "md5") || crate::text::contains_str(lv.as_str(), "sha1"),
        InsecureRule::InsecurePort => str_eq(value, "23") || str_eq(value, "21"),
        InsecureRule::DebugEnabled => crate::text::contains_str(lk.as_str(), "debug") && str_eq(lv.as_str(), "true"),
        InsecureRule::WildcardHost => crate::text::contains_str(lk.as_str(), "host") && str_eq(value, "0.0.0.0"),
        InsecureRule::SslVerifyDisabled => (crate::text::contains_str(lk.as_str(), "ssl") || crate::text::contains_str(
            lk.as_str(),
            "verify",
        )) && str_eq(lv.as_str(), "false"),
    }
}

impl AuditEngine {
    fn check_sensitive(&self, key: &str, value: &Option<String>, literal: bool, findings: &mut Vec<AuditFinding>)
        ensures
            findings_view(final(findings)@) == findings_view(old(findings)@) + sensitive_findings(
                self.patterns(),
                key@,
                match value { Some(v) => Some(v@), None => None },
                literal,
            ),
    {
        proof {
            reveal_strlit("null");
        }
        let ghost p = self.patterns();
        let ghost start = findings_view(findings@);
        let ghost vv: Option<Seq<char>> = match value { Some(v) => Some(v@), None => None };
        let blank = match value {
            Some(v) => chars_of(v.as_str()).len() == 0 || str_eq(v.as_str(), "null"),
            None => false,
        };
        let mut i: usize = 0;
        proof {
            assert(p.skip(0) == p);
        }
        while i < self.sensitive_patterns.len()
            invariant
                i <= self.sensitive_patterns@.len(),
                p == self.patterns(),
                start == findings_view(findings@),
                start == findings_view(old(findings)@),
                vv == match value { Some(v) => Some(v@), None => None },
                blank == match vv { Some(v) => v.len() == 0 || v == "null"@, None => false },
                first_match(p, key@) == first_match(p.skip(i as int), key@),
            decreases self.sensitive_patterns@.len() - i,
        {
            proof {
                assert(p.skip(i as int)[0] == (self.sensitive_patterns@[i as int].0@, self.sensitive_patterns@[i as int].1@));
                assert(p.skip(i as int).drop_first() == p.skip(i + 1));
            }
            let matched = pattern_matches(self.sensitive_patterns[i].1.as_str(), key);
            if matched == Some(true) {
                let name = &self.sensitive_patterns[i].0;
                if !blank {
                    let recommendation = to_owned_string(
                        "Use environment variables or a secrets manager instead of hardcoding sensitive values",
                    );
                    if literal {
                        let mut title = to_owned_string("Sensitive data in configuration: ");
                        title.push_str(name.as_str());
                        let mut description = to_owned_string("The key '");
                        description.push_str(key);
                        description.push_str("' appears to contain sensitive data");
                        push_finding(
                            findings,
                            AuditCategory::SensitiveData,
                            AuditSeverity::Critical,
                            to_owned_string("SEC-SENS-001"),
                            title,
                            description,
                            key,
                            recommendation,
                        );
                    } else {
                        let mut title = to_owned_string("Sensitive-looking key without a literal secret value: ");
                        title.push_str(name.as_str());
                        let mut description = to_owned_string("The key '");
                        description.push_str(key);
                        description.push_str(
                            "' matches a sensitive pattern, but its value is not a literal string (a number, a flag or an expression), so it is reported for review instead of blocking the edit",
                        );
                        push_finding(
                            findings,
                            AuditCategory::SensitiveData,
                            AuditSeverity::Low,
                            to_owned_string("SEC-SENS-001"),
                            title,
                            description,
                            key,
                            recommendation,
                        );
                    }
                }
                proof {
                    assert(first_match(p, key@) == Some(name@));
                    let sf = sensitive_findings(p, key@, vv, literal);
                    let bl = match vv { Some(v) => v.len() == 0 || v == "null"@, None => false };
                    assert(bl == blank);
                    assert(sf == if bl { Seq::<FindingView>::empty() } else if literal { seq![
                        (
                            AuditCategory::SensitiveData,
                            AuditSeverity::Critical,
                            "SEC-SENS-001"@,
                            "Sensitive data in configuration: "@ + name@,
                            "The key '"@ + key@ + "' appears to contain sensitive data"@,
                            key@,
                            "Use environment variables or a secrets manager instead of hardcoding sensitive values"@,
                        ),
                    ] } else { sf });
                    if blank {
                        assert(sf =~= Seq::<FindingView>::empty());
                        assert(start + sf =~= start);
                    } else {
                        assert(sf.len() == 1);
                        assert(findings_view(findings@) =~= start + sf);
                    }
                    assert(findings_view(findings@) == start + sensitive_findings(self.patterns(), key@, vv, literal));
                    assert(start == findings_view(old(findings)@));
                }
                return;
            }
            i = i + 1;
        }
        proof {
            assert(p.skip(i as int).len() == 0);
            assert(first_match(p, key@) is None);
            assert(start + sensitive_findings(p, key@, vv, literal) =~= start);
        }
    }

    fn check_insecure(&self, key: &str, value: &str, findings: &mut Vec<AuditFinding>)
        ensures
            findings_view(final(findings)@) == findings_view(old(findings)@) + insecure_findings(self.checks(), key@, value@),
    {
        let ghost c = self.checks();
        let ghost start = findings_view(findings@);
        let mut i: usize = 0;
        while i < self.insecure_checks.len()
            invariant
                i <= self.insecure_checks@.len(),
                c == self.checks(),
                findings_view(findings@) == start + insecure_findings(c.take(i as int), key@, value@),
            decreases self.insecure_checks@.len() - i,
        {
            proof {
                assert(c.take(i + 1).drop_last() == c.take(i as int));
                assert(c.take(i + 1).last() == check_view(self.insecure_checks@[i as int]));
            }
            let check = &self.insecure_checks[i];
            if rule_applies(check.rule, key, value) {
                push_finding(
                    findings,
                    AuditCategory::InsecureConfig,
                    check.severity,
                    check.rule_id.clone(),
                    check.title.clone(),
                    check.description.clone(),
                    key,
                    check.recommendation.clone(),
                );
            }
            i = i + 1;
        }
        proof {
            assert(c.take(self.insecure_checks@.len() as int) == c);
        }
    }
}

fn join_key(prefix: &str, has_prefix: bool, name: &str) -> (s: String)
    requires
        has_prefix == (prefix@.len() > 0),
    ensures
        s@ == crate::parser::join_path(prefix@, name@),
{
    let mut s = String::new();
    if has_prefix {
        s.push_str(prefix);
        s.push('.');
    }
    s.push_str(name);
    s
}

impl AuditEngine {
    fn audit_value_text(&self, key: &str, text: &Option<String>, literal: bool, with_insecure: bool, findings: &mut Vec<AuditFinding>)
        requires
            with_insecure ==> text is Some,
        ensures
            findings_view(final(findings)@) == findings_view(old(findings)@) + sensitive_findings(
                self.patterns(),
                key@,
                match text { Some(v) => Some(v@), None => None },
                literal,
            ) + if with_insecure { insecure_findings(self.checks(), key@, text->Some_0@) } else { Seq::empty() },
    {
        let ghost start = findings_view(findings@);
        self.check_sensitive(key, text, literal, findings);
        if with_insecure {
            match text {
                Some(t) => self.check_insecure(key, t.as_str(), findings),
                None => {},
            }
        } else {
            proof {
                assert(findings_view(findings@) + Seq::<FindingView>::empty() == findings_view(findings@));
            }
        }
    }

    fn audit_kv(&self, kv: &KeyValue, full_key: &str, findings: &mut Vec<AuditFinding>)
        ensures
            findings_view(final(findings)@) == findings_view(old(findings)@) + kv_findings(self.patterns(), self.checks(), *kv, full_key@),
        decreases kv, 0nat,
    {
        let literal = is_literal_text(&kv.value);
        match &kv.value {
            Value::Scalar(s) => {
                let t = scalar_text(s);
                self.audit_value_text(full_key, &Some(t), literal, true, findings);
            },
            Value::Expression(e) => match expression_text(e) {
                Some(Some(t)) => self.audit_value_text(full_key, &Some(t), literal, true, findings),
                Some(None) => self.audit_value_text(full_key, &None, literal, false, findings),
                None => {
                    proof {
                        assert(findings_view(findings@) + Seq::<FindingView>::empty() == findings_view(findings@));
                    }
                },
            },
            Value::TableBlock(t) => self.audit_entries(&t.entries, findings, full_key),
            Value::Array(a) => self.audit_items(&a.elements, full_key, findings),
            _ => {
                proof {
                    assert(findings_view(findings@) + Seq::<FindingView>::empty() == findings_view(findings@));
                }
            },
        }
    }

    fn audit_items(&self, items: &Vec<Value>, key: &str, findings: &mut Vec<AuditFinding>)
        ensures
            findings_view(final(findings)@) == findings_view(old(findings)@) + items_findings(self.patterns(), self.checks(), items@, key@),
        decreases items@, 1nat,
    {
        let ghost start = findings_view(findings@);
        let mut i: usize = 0;
        while i < items.len()
            invariant
                i <= items@.len(),
                findings_view(findings@) == start + items_findings(self.patterns(), self.checks(), items@.take(i as int), key@),
            decreases items@.len() - i,
        {
            proof {
                assert(items@.take(i + 1).drop_last() == items@.take(i as int));
                assert(items@.take(i + 1).last() == items@[i as int]);
            }
            let mut item_key = crate::text::to_owned_string(key);
            item_key.push('[');
            crate::text::push_decimal(&mut item_key, i as u64);
            item_key.push(']');
            let ghost before = findings_view(findings@);
            proof {
                assert(item_key@ == key@ + seq!['['] + decimal_digits(i as nat) + seq![']']);
                assert(items@.take(i + 1).len() - 1 == i);
            }
            self.audit_item(&items[i], item_key.as_str(), findings);
            proof {
                assert(items_findings(self.patterns(), self.checks(), items@.take(i + 1), key@) == items_findings(self.patterns(), self.checks(), items@.take(i as int), key@)
                    + item_findings(self.patterns(), self.checks(), items@[i as int], item_key@));
                assert(start + items_findings(self.patterns(), self.checks(), items@.take(i + 1), key@) =~= before
                    + item_findings(self.patterns(), self.checks(), items@[i as int], item_key@));
            }
            i = i + 1;
        }
        proof {
            assert(items@.take(items@.len() as int) == items@);
        }
    }

    fn audit_item(&self, v: &Value, item_key: &str, findings: &mut Vec<AuditFinding>)
        ensures
            findings_view(final(findings)@) == findings_view(old(findings)@) + item_findings(self.patterns(), self.checks(), *v, item_key@),
        decreases v, 0nat,
    {
        let literal = is_literal_text(v);
        match v {
            Value::Scalar(s) => {
                let t = scalar_text(s);
                self.audit_value_text(item_key, &Some(t), literal, false, findings);
            },
            Value::Expression(e) => match expression_text(e) {
                Some(t) => self.audit_value_text(item_key, &t, literal, false, findings),
                None => {
                    proof {
                        assert(findings_view(findings@) + Seq::<FindingView>::empty() == findings_view(findings@));
                    }
                },
            },
            Value::TableBlock(t) => self.audit_entries(&t.entries, findings, item_key),
            _ => {
                proof {
                    assert(findings_view(findings@) + Seq::<FindingView>::empty() == findings_view(findings@));
                }
            },
        }
    }

    fn audit_entries(&self, entries: &Vec<TableEntry>, findings: &mut Vec<AuditFinding>, prefix: &str)
        ensures
            findings_view(final(findings)@) == findings_view(old(findings)@) + entries_findings(self.patterns(), self.checks(), entries@, prefix@),
        decreases entries@, 1nat,
    {
        let ghost start = findings_view(findings@);
        let has_prefix = chars_of(prefix).len() > 0;
        let mut i: usize = 0;
        while i < entries.len()
            invariant
                i <= entries@.len(),
                has_prefix == (prefix@.len() > 0),
                findings_view(findings@) == start + entries_findings(self.patterns(), self.checks(), entries@.take(i as int), prefix@),
            decreases entries@.len() - i,
        {
            proof {
                assert(entries@.take(i + 1).drop_last() == entries@.take(i as int));
                assert(entries@.take(i + 1).last() == entries@[i as int]);
            }
            let ghost before = findings_view(findings@);
            let idx: usize = match &entries[i] {
                TableEntry::ArrayTable(at) => count_arrays(entries, i, at.key.as_str()),
                _ => 0,
            };
            self.audit_entry(&entries[i], findings, prefix, has_prefix, idx);
            proof {
                assert(start + entries_findings(self.patterns(), self.checks(), entries@.take(i + 1), prefix@) =~= before
                    + entry_findings(self.patterns(), self.checks(), entries@[i as int], prefix@, idx as nat));
            }
            i = i + 1;
        }
        proof {
            assert(entries@.take(entries@.len() as int) == entries@);
        }
    }

    fn audit_entry(&self, e: &TableEntry, findings: &mut Vec<AuditFinding>, prefix: &str, has_prefix: bool, idx: usize)
        requires
            has_prefix == (prefix@.len() > 0),
        ensures
            findings_view(final(findings)@) == findings_view(old(findings)@) + entry_findings(self.patterns(), self.checks(), *e, prefix@, idx as nat),
        decreases e, 0nat,
    {
        match e {
            TableEntry::KeyValue(kv) => {
                let full_key = join_key(prefix, has_prefix, kv.key.as_str());
                self.audit_kv(kv, full_key.as_str(), findings);
            },
            TableEntry::TableBlock(t) => {
                let name: &str = match &t.name {
                    Some(n) => n.as_str(),
                    None => "",
                };
                proof {
                    reveal_strlit("");
                    assert(""@ =~= Seq::<char>::empty());
                }
                let new_prefix = join_key(prefix, has_prefix, name);
                proof {
                    assert(name@ == match t.name { Some(n) => n@, None => Seq::<char>::empty() });
                }
                self.audit_entries(&t.entries, findings, new_prefix.as_str());
            },
            TableEntry::ArrayTable(at) => {
                let mut head = join_key(prefix, has_prefix, at.key.as_str());
                head.push('[');
                crate::text::push_decimal(&mut head, idx as u64);
                head.push_str("].");
                proof {
                    assert(head@ == crate::parser::join_path(prefix@, key_text(at.key)) + seq!['['] + decimal_digits(idx as nat) + "]."@);
                }
                self.audit_array_kvs(&at.entries, head.as_str(), findings);
            },
            _ => {
                proof {
                    assert(findings_view(findings@) + Seq::<FindingView>::empty() == findings_view(findings@));
                }
            },
        }
    }

    fn audit_array_kvs(&self, kvs: &Vec<KeyValue>, head: &str, findings: &mut Vec<AuditFinding>)
        ensures
            findings_view(final(findings)@) == findings_view(old(findings)@) + array_kvs_findings(self.patterns(), self.checks(), kvs@, head@),
        decreases kvs@, 1nat,
    {
        let ghost start = findings_view(findings@);
        let mut i: usize = 0;
        while i < kvs.len()
            invariant
                i <= kvs@.len(),
                findings_view(findings@) == start + array_kvs_findings(self.patterns(), self.checks(), kvs@.take(i as int), head@),
            decreases kvs@.len() - i,
        {
            proof {
                assert(kvs@.take(i + 1).drop_last() == kvs@.take(i as int));
                assert(kvs@.take(i + 1).last() == kvs@[i as int]);
            }
            let mut full_key = crate::text::to_owned_string(head);
            full_key.push_str(kvs[i].key.as_str());
            let ghost before = findings_view(findings@);
            self.audit_kv(&kvs[i], full_key.as_str(), findings);
            proof {
                assert(start + array_kvs_findings(self.patterns(), self.checks(), kvs@.take(i + 1), head@) =~= before
                    + kv_findings(self.patterns(), self.checks(), kvs@[i as int], full_key@));
            }
            i = i + 1;
        }
        proof {
            assert(kvs@.take(kvs@.len() as int) == kvs@);
        }
    }

    /// The audit of a parsed document: findings in document order.
    pub fn audit_ast(&self, ast: &Ast) -> (r: AuditReport)
        ensures
            findings_view(r.findings@) == entries_findings(self.patterns(), self.checks(), ast.root.entries@, Seq::empty()),
            r.summary.total_findings == r.findings@.len(),
            r.summary.critical_count == severity_count(r.findings@, AuditSeverity::Critical),
            r.summary.high_count == severity_count(r.findings@, AuditSeverity::High),
    {
        let mut findings: Vec<AuditFinding> = Vec::new();
        proof {
            reveal_strlit("");
            assert(""@ =~= Seq::<char>::empty());
            assert(findings_view(findings@) =~= Seq::<FindingView>::empty());
        }
        self.audit_entries(&ast.root.entries, &mut findings, "");
        proof {
            assert(Seq::<FindingView>::empty() + entries_findings(self.patterns(), self.checks(), ast.root.entries@, Seq::empty())
                =~= entries_findings(self.patterns(), self.checks(), ast.root.entries@, Seq::empty()));
        }
        AuditReport::new(findings)
    }

    /// Parses and audits `source`; a source that does not parse gives an
    /// empty report.
    pub fn audit_source(&self, source: &str) -> (r: AuditReport)
        requires
            source@.len() < u32::MAX,
        ensures
            r.summary.total_findings == r.findings@.len(),
            r.summary.critical_count == severity_count(r.findings@, AuditSeverity::Critical),
            r.summary.high_count == severity_count(r.findings@, AuditSeverity::High),
            (r.findings@.len() == 0 && exists|e: crate::error::VerseconfError| #[trigger] crate::parser::parse_failure(source@, e))
                || (crate::parser::parses(source@) && exists|ast: Ast| ast.source.content@ == source@
                && findings_view(r.findings@) == #[trigger] entries_findings(self.patterns(), self.checks(), ast.root.entries@, Seq::empty())),
    {
        match crate::parse(source) {
            Ok(ast) => {
                let r = self.audit_ast(&ast);
                assert(ast.source.content@ == source@ && findings_view(r.findings@) == entries_findings(self.patterns(), self.checks(), ast.root.entries@, Seq::empty()));
                r
            },
            Err(e) => {
                proof {
                    assert(crate::parser::parse_failure(source@, e));
                }
                AuditReport::new(Vec::new())
            },
        }
    }
}

impl Default for AuditEngine {
    fn default() -> (e: AuditEngine)
        ensures
            e.patterns() == default_patterns(),
            e.checks() == default_checks(),
    {
        AuditEngine::new()
    }
}

/// The number of `[[name]]` elements before index `upto`.
fn count_arrays(entries: &Vec<TableEntry>, upto: usize, name: &str) -> (n: usize)
    requires
        upto <= entries@.len(),
    ensures
        n == array_count(entries@.take(upto as int), name@),
{
    let mut n: usize = 0;
    let mut i: usize = 0;
    while i < upto
        invariant
            i <= upto <= entries@.len(),
            n == array_count(entries@.take(i as int), name@),
            n <= i,
        decreases upto - i,
    {
        proof {
            assert(entries@.take(i + 1).drop_last() == entries@.take(i as int));
            assert(entries@.take(i + 1).last() == entries@[i as int]);
        }
        match &entries[i] {
            TableEntry::ArrayTable(at) => {
                if str_eq(at.key.as_str(), name) {
                    n = n + 1;
                }
            },
            _ => {},
        }
        i = i + 1;
    }
    n
}

/// A finding as five lines of text.
pub open spec fn finding_text(f: AuditFinding) -> Seq<char> {
    "["@ + severity_label(f.severity) + "] "@ + f.rule_id@ + " - "@ + f.title@ + "\n"@ + "  Category: "@
        + category_label(f.category) + "\n"@ + "  Location: "@ + f.location@ + "\n"@ + "  Description: "@
        + f.description@ + "\n"@ + "  Recommendation: "@ + f.recommendation@ + "\n"@
}

/// The findings, each followed by two newlines.
pub open spec fn findings_text(fs: Seq<AuditFinding>) -> Seq<char>
    decreases fs.len(),
{
    if fs.len() == 0 {
        Seq::empty()
    } else {
        findings_text(fs.drop_last()) + finding_text(fs.last()) + "\n\n"@
    }
}

/// The whole report as text.
pub open spec fn report_text(r: AuditReport) -> Seq<char> {
    "=== Security Audit Report ===\n"@ + "Total findings: "@ + decimal_digits(r.summary.total_findings as nat)
        + "\n"@ + "  Critical: "@ + decimal_digits(r.summary.critical_count as nat) + "\n"@ + "  High: "@
        + decimal_digits(r.summary.high_count as nat) + "\n"@ + "  Medium: "@ + decimal_digits(
        r.summary.medium_count as nat,
    ) + "\n"@ + "  Low: "@ + decimal_digits(r.summary.low_count as nat) + "\n"@ + "  Info: "@
        + decimal_digits(r.summary.info_count as nat) + "\n"@ + "\n"@ + findings_text(r.findings@)
}

impl AuditFinding {
    /// The finding as text.
    pub fn describe(&self) -> (s: String)
        ensures
            s@ == finding_text(*self),
    {
        let mut s = String::new();
        s.push_str("[");
        s.push_str(self.severity.label());
        s.push_str("] ");
        s.push_str(self.rule_id.as_str());
        s.push_str(" - ");
        s.push_str(self.title.as_str());
        s.push_str("\n");
        s.push_str("  Category: ");
        s.push_str(self.category.label());
        s.push_str("\n");
        s.push_str("  Location: ");
        s.push_str(self.location.as_str());
        s.push_str("\n");
        s.push_str("  Description: ");
        s.push_str(self.description.as_str());
        s.push_str("\n");
        s.push_str("  Recommendation: ");
        s.push_str(self.recommendation.as_str());
        s.push_str("\n");
        s
    }
}

impl AuditReport {
    /// The report as text.
    pub fn describe(&self) -> (s: String)
        ensures
            s@ == report_text(*self),
    {
        let mut s = String::new();
        s.push_str("=== Security Audit Report ===\n");
        s.push_str("Total findings: ");
        crate::text::push_decimal(&mut s, self.summary.total_findings as u64);
        s.push_str("\n");
        s.push_str("  Critical: ");
        crate::text::push_decimal(&mut s, self.summary.critical_count as u64);
        s.push_str("\n");
        s.push_str("  High: ");
        crate::text::push_decimal(&mut s, self.summary.high_count as u64);
        s.push_str("\n");
        s.push_str("  Medium: ");
        crate::text::push_decimal(&mut s, self.summary.medium_count as u64);
        s.push_str("\n");
        s.push_str("  Low: ");
        crate::text::push_decimal(&mut s, self.summary.low_count as u64);
        s.push_str("\n");
        s.push_str("  Info: ");
        crate::text::push_decimal(&mut s, self.summary.info_count as u64);
        s.push_str("\n");
        s.push_str("\n");
        let ghost head = s@;
        let mut i: usize = 0;
        while i < self.findings.len()
            invariant
                i <= self.findings@.len(),
                s@ == head + findings_text(self.findings@.take(i as int)),
            decreases self.findings@.len() - i,
        {
            proof {
                assert(self.findings@.take(i + 1).drop_last() == self.findings@.take(i as int));
            }
            let one = self.findings[i].describe();
            s.push_str(one.as_str());
            s.push_str("\n\n");
            i = i + 1;
        }
        proof {
            assert(self.findings@.take(self.findings@.len() as int) == self.findings@);
        }
        s
    }
}

} // verus!
