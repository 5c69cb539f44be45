//! A benchmark run: each task judged on what a strategy gave for it, the
//! verdicts counted, and whether the strategy was deterministic. A strategy
//! is run on every task several times and once more in reverse order; its
//! results must agree exactly, or it is not deterministic.

use vstd::prelude::*;
use crate::bench::judge::{judge, verdict, Judgement};
use crate::bench::task::{Outcome, StrategyOutcome, Task};
use crate::text::{str_eq, to_owned_string};

verus! {

broadcast use vstd::string::group_string_axioms;

/// The verdict on one task under one strategy.
#[derive(Debug)]
pub struct TaskResult {
    pub task_id: String,
    pub description: String,
    /// `applied`, or `refused(code)`
    pub expected: String,
    pub outcome: Outcome,
    pub detail: String,
    /// whether every comment and `#@` metadata fragment was kept
    pub comments_kept: bool,
    /// whether the repeated runs of the task gave the same result
    pub deterministic: bool,
}

/// The counts of a strategy's verdicts.
#[derive(Debug, Clone, Copy, PartialEq, Eq, Structural)]
pub struct Metrics {
    pub applied_tasks: usize,
    pub refused_tasks: usize,
    pub correct: usize,
    pub collateral: usize,
    pub wrong: usize,
    pub refused_correctly: usize,
    pub refused_wrongly: usize,
    pub applied_wrongly: usize,
    /// verdicts `Correct` or `Collateral` that kept every comment
    pub comments_kept: usize,
    /// repeated and reversed runs all agreed
    pub deterministic: bool,
}

/// Two results of a strategy are the same: the same text, or the same
/// refusal code and message.
pub open spec fn outcome_same(a: StrategyOutcome, b: StrategyOutcome) -> bool {
    match (a, b) {
        (StrategyOutcome::Applied(x), StrategyOutcome::Applied(y)) => x@ == y@,
        (
            StrategyOutcome::Refused { code: c1, message: m1 },
            StrategyOutcome::Refused { code: c2, message: m2 },
        ) => c1@ == c2@ && m1@ == m2@,
        _ => false,
    }
}

fn same_outcome(a: &StrategyOutcome, b: &StrategyOutcome) -> (r: bool)
    ensures
        r == outcome_same(*a, *b),
{
    match (a, b) {
        (StrategyOutcome::Applied(x), StrategyOutcome::Applied(y)) => str_eq(x.as_str(), y.as_str()),
        (
            StrategyOutcome::Refused { code: c1, message: m1 },
            StrategyOutcome::Refused { code: c2, message: m2 },
        ) => str_eq(c1.as_str(), c2.as_str()) && str_eq(m1.as_str(), m2.as_str()),
        _ => false,
    }
}

/// How many of the first `n` results have verdict `o`.
pub open spec fn count_outcome(rs: Seq<TaskResult>, n: int, o: Outcome) -> nat
    decreases n,
{
    if n <= 0 {
        0
    } else {
        count_outcome(rs, n - 1, o) + if rs[n - 1].outcome == o { 1nat } else { 0nat }
    }
}

/// How many of the first `n` tasks expect a refusal.
pub open spec fn count_refusal_tasks(ts: Seq<Task>, n: int) -> nat
    decreases n,
{
    if n <= 0 {
        0
    } else {
        count_refusal_tasks(ts, n - 1) + if ts[n - 1].expect.outcome@ == "refused"@ { 1nat } else { 0nat }
    }
}

/// How many of the first `n` results are edits (correct or collateral) that
/// kept every comment.
pub open spec fn count_kept(rs: Seq<TaskResult>, n: int) -> nat
    decreases n,
{
    if n <= 0 {
        0
    } else {
        count_kept(rs, n - 1) + if (rs[n - 1].outcome == Outcome::Correct || rs[n - 1].outcome == Outcome::Collateral)
            && rs[n - 1].comments_kept {
            1nat
        } else {
            0nat
        }
    }
}

/// Whether the first `n` results are all deterministic.
pub open spec fn all_deterministic(rs: Seq<TaskResult>, n: int) -> bool {
    forall|i: int| 0 <= i < n ==> (#[trigger] rs[i]).deterministic
}

/// The counts over the first `n` tasks and their results.
pub open spec fn metrics_of(ts: Seq<Task>, rs: Seq<TaskResult>, n: int, order_independent: bool, m: Metrics) -> bool {
    &&& m.refused_tasks == count_refusal_tasks(ts, n)
    &&& m.applied_tasks == n - count_refusal_tasks(ts, n)
    &&& m.correct == count_outcome(rs, n, Outcome::Correct)
    &&& m.collateral == count_outcome(rs, n, Outcome::Collateral)
    &&& m.wrong == count_outcome(rs, n, Outcome::Wrong)
    &&& m.refused_correctly == count_outcome(rs, n, Outcome::RefusedCorrectly)
    &&& m.refused_wrongly == count_outcome(rs, n, Outcome::RefusedWrongly)
    &&& m.applied_wrongly == count_outcome(rs, n, Outcome::AppliedWrongly)
    &&& m.comments_kept == count_kept(rs, n)
    &&& m.deterministic == (order_independent && all_deterministic(rs, n))
}

proof fn lemma_counts_bounded(ts: Seq<Task>, rs: Seq<TaskResult>, n: int)
    requires
        0 <= n,
    ensures
        count_refusal_tasks(ts, n) <= n,
        count_kept(rs, n) <= n,
        count_outcome(rs, n, Outcome::Correct) + count_outcome(rs, n, Outcome::Collateral) + count_outcome(
            rs,
            n,
            Outcome::Wrong,
        ) + count_outcome(rs, n, Outcome::RefusedCorrectly) + count_outcome(rs, n, Outcome::RefusedWrongly)
            + count_outcome(rs, n, Outcome::AppliedWrongly) == n,
    decreases n,
{
    if n > 0 {
        lemma_counts_bounded(ts, rs, n - 1);
    }
}

/// Every verdict is of one kind: the six counts add up to the number of
/// tasks, and so do the tasks that expect an edit and those that expect a
/// refusal.
pub proof fn lemma_metrics_add_up(ts: Seq<Task>, rs: Seq<TaskResult>, n: int, order_independent: bool, m: Metrics)
    requires
        0 <= n,
        metrics_of(ts, rs, n, order_independent, m),
    ensures
        m.correct + m.collateral + m.wrong + m.refused_correctly + m.refused_wrongly + m.applied_wrongly == n,
        m.applied_tasks + m.refused_tasks == n,
        m.comments_kept <= m.correct + m.collateral,
{
    lemma_counts_bounded(ts, rs, n);
    lemma_kept_le(rs, n);
}

proof fn lemma_kept_le(rs: Seq<TaskResult>, n: int)
    requires
        0 <= n,
    ensures
        count_kept(rs, n) <= count_outcome(rs, n, Outcome::Correct) + count_outcome(rs, n, Outcome::Collateral),
    decreases n,
{
    if n > 0 {
        lemma_kept_le(rs, n - 1);
    }
}

/// Counts the verdicts of the tasks and their results, pairing them in
/// order (as far as both go).
pub fn summarize(tasks: &Vec<Task>, results: &Vec<TaskResult>, order_independent: bool) -> (m: Metrics)
    ensures
        metrics_of(
            tasks@,
            results@,
            if tasks@.len() <= results@.len() { tasks@.len() as int } else { results@.len() as int },
            order_independent,
            m,
        ),
{
    let n = if tasks.len() <= results.len() { tasks.len() } else { results.len() };
    let mut m = Metrics {
        applied_tasks: 0,
        refused_tasks: 0,
        correct: 0,
        collateral: 0,
        wrong: 0,
        refused_correctly: 0,
        refused_wrongly: 0,
        applied_wrongly: 0,
        comments_kept: 0,
        deterministic: order_independent,
    };
    let mut i: usize = 0;
    while i < n
        invariant
            i <= n,
            n <= tasks@.len(),
            n <= results@.len(),
            metrics_of(tasks@, results@, i as int, order_independent, m),
        decreases n - i,
    {
        proof {
            lemma_counts_bounded(tasks@, results@, i as int);
        }
        if tasks[i].expects_refusal() {
            m.refused_tasks = m.refused_tasks + 1;
        } else {
            m.applied_tasks = m.applied_tasks + 1;
        }
        let r = &results[i];
        match r.outcome {
            Outcome::Correct => {
                m.correct = m.correct + 1;
                if r.comments_kept {
                    m.comments_kept = m.comments_kept + 1;
                }
            },
            Outcome::Collateral => {
                m.collateral = m.collateral + 1;
                if r.comments_kept {
                    m.comments_kept = m.comments_kept + 1;
                }
            },
            Outcome::Wrong => {
                m.wrong = m.wrong + 1;
            },
            Outcome::RefusedCorrectly => {
                m.refused_correctly = m.refused_correctly + 1;
            },
            Outcome::RefusedWrongly => {
                m.refused_wrongly = m.refused_wrongly + 1;
            },
            Outcome::AppliedWrongly => {
                m.applied_wrongly = m.applied_wrongly + 1;
            },
        }
        if !r.deterministic {
            m.deterministic = false;
        }
        proof {
            assert(all_deterministic(results@, i + 1) == (all_deterministic(results@, i as int)
                && results@[i as int].deterministic));
        }
        i = i + 1;
    }
    m
}

/// The source of document `key`, if the corpus has it.
pub open spec fn source_of(sources: Seq<(String, String)>, key: Seq<char>) -> Option<Seq<char>>
    decreases sources.len(),
{
    if sources.len() == 0 {
        None
    } else if sources[0].0@ == key {
        Some(sources[0].1@)
    } else {
        source_of(sources.drop_first(), key)
    }
}

fn find_source<'a>(sources: &'a Vec<(String, String)>, key: &str) -> (r: Option<&'a String>)
    ensures
        match source_of(sources@, key@) {
            Some(s) => r matches Some(t) && t@ == s,
            None => r is None,
        },
{
    let mut i: usize = 0;
    proof {
        assert(sources@.skip(0) =~= sources@);
    }
    while i < sources.len()
        invariant
            i <= sources@.len(),
            source_of(sources@, key@) == source_of(sources@.skip(i as int), key@),
        decreases sources@.len() - i,
    {
        proof {
            assert(sources@.skip(i as int).drop_first() =~= sources@.skip(i + 1));
        }
        if str_eq(sources[i].0.as_str(), key) {
            return Some(&sources[i].1);
        }
        i = i + 1;
    }
    None
}

/// What a task expects, as a report shows it: `applied`, or
/// `refused(code)`.
pub open spec fn expected_text(t: Task) -> Seq<char> {
    if t.expect.outcome@ == "refused"@ {
        "refused("@ + match t.expect.code {
            Some(c) => c@,
            None => Seq::<char>::empty(),
        } + ")"@
    } else {
        "applied"@
    }
}

/// Whether run `r` agrees with the first run on task `i` for all runs.
pub open spec fn task_deterministic(runs: Seq<Vec<StrategyOutcome>>, i: int) -> bool {
    forall|r: int| 0 <= r < runs.len() ==> outcome_same(#[trigger] runs[r]@[i], runs[0]@[i])
}

/// Whether the reversed run agrees with the first run on every task.
pub open spec fn order_independent(runs: Seq<Vec<StrategyOutcome>>, reverse: Seq<StrategyOutcome>) -> bool {
    forall|i: int| 0 <= i < reverse.len() ==> outcome_same(#[trigger] reverse[i], runs[0]@[i])
}

/// The message for a task whose document the corpus does not have.
pub open spec fn unknown_document_text(t: Task) -> Seq<char> {
    "任务 "@ + t.id@ + " 引用了未知文档 "@ + t.document@
}

/// Why a task cannot be judged: its document is not in the corpus, or the
/// verdict is this error.
pub open spec fn task_error(t: Task, sources: Seq<(String, String)>, result: StrategyOutcome, msg: Seq<char>) -> bool {
    match source_of(sources, t.document@) {
        None => msg == unknown_document_text(t),
        Some(src) => exists|m: String| m@ == msg && #[trigger] verdict(t, src, result, Err(m)),
    }
}

/// Some task cannot be judged, and `msg` says why.
pub open spec fn run_error(tasks: Seq<Task>, sources: Seq<(String, String)>, first: Seq<StrategyOutcome>, msg: Seq<char>) -> bool {
    exists|i: int| 0 <= i < tasks.len() && #[trigger] task_error(tasks[i], sources, first[i], msg)
}

/// Judges a strategy's runs over the tasks: `runs` holds what it gave for
/// each task, run after run (the first run is judged); `reverse` what it
/// gave with the tasks in reverse order, put back in task order. A task is
/// deterministic when all its runs agree; the strategy is when, besides,
/// the reversed run agrees with the first. A task whose document is not in
/// `sources`, or that the verdict cannot be given for, is an error.
pub fn run_tasks(
    tasks: &Vec<Task>,
    sources: &Vec<(String, String)>,
    runs: &Vec<Vec<StrategyOutcome>>,
    reverse: &Vec<StrategyOutcome>,
) -> (r: Result<(Vec<TaskResult>, Metrics), String>)
    requires
        runs@.len() >= 1,
        forall|k: int| 0 <= k < runs@.len() ==> (#[trigger] runs@[k])@.len() == tasks@.len(),
        reverse@.len() == tasks@.len(),
        forall|k: int| 0 <= k < sources@.len() ==> (#[trigger] sources@[k]).1@.len() < u32::MAX,
    ensures
        r matches Ok((rs, m)) ==> {
            &&& rs@.len() == tasks@.len()
            &&& forall|i: int|
                0 <= i < tasks@.len() ==> {
                    let t = tasks@[i];
                    let res = #[trigger] rs@[i];
                    &&& res.task_id@ == t.id@
                    &&& res.description@ == t.description@
                    &&& res.expected@ == expected_text(t)
                    &&& res.deterministic == task_deterministic(runs@, i)
                    &&& source_of(sources@, t.document@) matches Some(src) && exists|j: Judgement|
                        verdict(t, src, runs@[0]@[i], Ok(j)) && j.outcome == res.outcome && j.detail@ == res.detail@
                            && j.comments_kept == res.comments_kept
                }
            &&& metrics_of(tasks@, rs@, tasks@.len() as int, order_independent(runs@, reverse@), m)
        },
        r matches Err(msg) ==> run_error(tasks@, sources@, runs@[0]@, msg@),
{
    let first = &runs[0];
    let mut results: Vec<TaskResult> = Vec::new();
    let mut i: usize = 0;
    while i < tasks.len()
        invariant
            i <= tasks@.len(),
            runs@.len() >= 1,
            first@ == runs@[0]@,
            forall|k: int| 0 <= k < runs@.len() ==> (#[trigger] runs@[k])@.len() == tasks@.len(),
            forall|k: int| 0 <= k < sources@.len() ==> (#[trigger] sources@[k]).1@.len() < u32::MAX,
            results@.len() == i,
            forall|q: int|
                0 <= q < i ==> {
                    let t = tasks@[q];
                    let res = #[trigger] results@[q];
                    &&& res.task_id@ == t.id@
                    &&& res.description@ == t.description@
                    &&& res.expected@ == expected_text(t)
                    &&& res.deterministic == task_deterministic(runs@, q)
                    &&& source_of(sources@, t.document@) matches Some(src) && exists|j: Judgement|
                        verdict(t, src, runs@[0]@[q], Ok(j)) && j.outcome == res.outcome && j.detail@ == res.detail@
                            && j.comments_kept == res.comments_kept
                },
        decreases tasks@.len() - i,
    {
        let task = &tasks[i];
        let source = match find_source(sources, task.document.as_str()) {
            Some(s) => s,
            None => {
                let mut m = to_owned_string("任务 ");
                m.push_str(task.id.as_str());
                m.push_str(" 引用了未知文档 ");
                m.push_str(task.document.as_str());
                proof {
                    reveal_strlit("任务 ");
                    reveal_strlit(" 引用了未知文档 ");
                    assert(m@ == unknown_document_text(tasks@[i as int]));
                    assert(task_error(tasks@[i as int], sources@, runs@[0]@[i as int], m@));
                    assert(run_error(tasks@, sources@, runs@[0]@, m@));
                }
                return Err(m);
            },
        };
        proof {
            lemma_source_of_short(sources@, task.document@);
        }
        let j = match judge(task, source.as_str(), &first[i]) {
            Ok(j) => j,
            Err(m) => {
                proof {
                    assert(verdict(tasks@[i as int], source@, runs@[0]@[i as int], Err(m)));
                    assert(task_error(tasks@[i as int], sources@, runs@[0]@[i as int], m@));
                    assert(run_error(tasks@, sources@, runs@[0]@, m@));
                }
                return Err(m);
            },
        };
        let mut deterministic = true;
        let mut r: usize = 1;
        proof {
            assert(outcome_same(runs@[0]@[i as int], runs@[0]@[i as int])) by {
                match runs@[0]@[i as int] {
                    StrategyOutcome::Applied(_) => {},
                    StrategyOutcome::Refused { .. } => {},
                }
            }
        }
        while r < runs.len()
            invariant
                1 <= r <= runs@.len(),
                i < tasks@.len(),
                first@ == runs@[0]@,
                forall|k: int| 0 <= k < runs@.len() ==> (#[trigger] runs@[k])@.len() == tasks@.len(),
                outcome_same(runs@[0]@[i as int], runs@[0]@[i as int]),
                deterministic == forall|q: int| 0 <= q < r ==> outcome_same(#[trigger] runs@[q]@[i as int], runs@[0]@[i as int]),
            decreases runs@.len() - r,
        {
            if !same_outcome(&runs[r][i], &first[i]) {
                deterministic = false;
            }
            r = r + 1;
        }
        let expected = if task.expects_refusal() {
            let mut e = to_owned_string("refused(");
            match &task.expect.code {
                Some(c) => e.push_str(c.as_str()),
                None => {},
            }
            e.push_str(")");
            e
        } else {
            to_owned_string("applied")
        };
        proof {
            reveal_strlit("");
            assert(verdict(*task, source@, runs@[0]@[i as int], Ok(j)));
        }
        let ghost before = results@;
        let ghost gj = j;
        let Judgement { outcome, detail, comments_kept } = j;
        results.push(TaskResult {
            task_id: to_owned_string(task.id.as_str()),
            description: to_owned_string(task.description.as_str()),
            expected,
            outcome,
            detail,
            comments_kept,
            deterministic,
        });
        proof {
            assert forall|q: int| 0 <= q < i + 1 implies {
                let t = tasks@[q];
                let res = #[trigger] results@[q];
                &&& res.task_id@ == t.id@
                &&& res.description@ == t.description@
                &&& res.expected@ == expected_text(t)
                &&& res.deterministic == task_deterministic(runs@, q)
                &&& source_of(sources@, t.document@) matches Some(src) && exists|j: Judgement|
                    verdict(t, src, runs@[0]@[q], Ok(j)) && j.outcome == res.outcome && j.detail@ == res.detail@
                        && j.comments_kept == res.comments_kept
            } by {
                if q < i {
                    assert(results@[q] == before[q]);
                } else {
                    assert(gj.outcome == results@[q].outcome);
                }
            }
        }
        i = i + 1;
    }
    let mut independent = true;
    let mut k: usize = 0;
    while k < reverse.len()
        invariant
            k <= reverse@.len(),
            reverse@.len() == tasks@.len(),
            first@ == runs@[0]@,
            runs@.len() >= 1,
            forall|q: int| 0 <= q < runs@.len() ==> (#[trigger] runs@[q])@.len() == tasks@.len(),
            independent == forall|q: int| 0 <= q < k ==> outcome_same(#[trigger] reverse@[q], runs@[0]@[q]),
        decreases reverse@.len() - k,
    {
        if !same_outcome(&reverse[k], &first[k]) {
            independent = false;
        }
        k = k + 1;
    }
    let m = summarize(tasks, &results, independent);
    Ok((results, m))
}

proof fn lemma_source_of_short(sources: Seq<(String, String)>, key: Seq<char>)
    requires
        forall|k: int| 0 <= k < sources.len() ==> (#[trigger] sources[k]).1@.len() < u32::MAX,
    ensures
        source_of(sources, key) matches Some(s) ==> s.len() < u32::MAX,
    decreases sources.len(),
{
    if sources.len() > 0 {
        assert forall|k: int| 0 <= k < sources.drop_first().len() implies (#[trigger] sources.drop_first()[k]).1@.len()
            < u32::MAX by {
            assert(sources.drop_first()[k] == sources[k + 1]);
        }
        lemma_source_of_short(sources.drop_first(), key);
    }
}

} // verus!
