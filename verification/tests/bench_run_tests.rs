use verseconf::bench::run::{run_tasks, summarize, Metrics, TaskResult};
use verseconf::bench::task::{Expectation, Outcome, StrategyOutcome, Task};
use verseconf::edit::json::{JsonMember, JsonValue};
use verseconf::edit::plan::PathSegment;
use verseconf::edit::value::EditValue;

const SOURCE: &str = "server {\n  port = 8080\n}\n";

fn s(text: &str) -> String {
    text.to_string()
}

fn jstr(text: &str) -> JsonValue {
    JsonValue::String(s(text))
}

fn jobj(members: Vec<(&str, JsonValue)>) -> JsonValue {
    JsonValue::Object(members.into_iter().map(|(k, v)| JsonMember { key: s(k), value: v }).collect())
}

fn set_port_plan() -> JsonValue {
    let edit = jobj(vec![
        ("op", jstr("set")),
        ("path", JsonValue::Array(vec![jstr("server"), jstr("port")])),
        ("value", JsonValue::Number(s("9090"))),
    ]);
    jobj(vec![("version", jstr("1.0")), ("edits", JsonValue::Array(vec![edit]))])
}

fn task(id: &str, document: &str, outcome: &str, code: Option<&str>) -> Task {
    let (path, value) = if outcome == "applied" {
        (vec![PathSegment::Key(s("server")), PathSegment::Key(s("port"))], Some(EditValue::Integer(9090)))
    } else {
        (Vec::new(), None)
    };
    Task {
        id: s(id),
        document: s(document),
        description: s("改 port"),
        plan: set_port_plan(),
        expect: Expectation {
            outcome: s(outcome),
            path,
            value,
            code: code.map(s),
            target_file: None,
            targets: Vec::new(),
        },
    }
}

fn sources() -> Vec<(String, String)> {
    vec![(s("doc"), s(SOURCE))]
}

fn applied(text: &str) -> StrategyOutcome {
    StrategyOutcome::Applied(s(text))
}

fn refused(code: &str) -> StrategyOutcome {
    StrategyOutcome::Refused { code: s(code), message: s("no") }
}

#[test]
fn a_deterministic_strategy_is_judged_and_counted() {
    let tasks = vec![task("a", "doc", "applied", None), task("b", "doc", "refused", Some("target_not_found"))];
    let good = SOURCE.replace("8080", "9090");
    let run = || vec![applied(&good), refused("target_not_found")];
    let runs = vec![run(), run()];
    let (results, metrics) = run_tasks(&tasks, &sources(), &runs, &run()).unwrap();
    assert_eq!(results.len(), 2);
    assert_eq!(results[0].task_id, "a");
    assert_eq!(results[0].expected, "applied");
    assert_eq!(results[0].outcome, Outcome::Correct);
    assert!(results[0].deterministic);
    assert_eq!(results[1].expected, "refused(target_not_found)");
    assert_eq!(results[1].outcome, Outcome::RefusedCorrectly);
    assert_eq!(
        metrics,
        Metrics {
            applied_tasks: 1,
            refused_tasks: 1,
            correct: 1,
            collateral: 0,
            wrong: 0,
            refused_correctly: 1,
            refused_wrongly: 0,
            applied_wrongly: 0,
            comments_kept: 1,
            deterministic: true,
        }
    );
}

#[test]
fn a_repeated_run_that_differs_is_not_deterministic() {
    let tasks = vec![task("a", "doc", "applied", None)];
    let good = SOURCE.replace("8080", "9090");
    let other = SOURCE.replace("8080", "9091");
    let runs = vec![vec![applied(&good)], vec![applied(&other)]];
    let (results, metrics) = run_tasks(&tasks, &sources(), &runs, &vec![applied(&good)]).unwrap();
    assert!(!results[0].deterministic);
    assert!(!metrics.deterministic);
    assert_eq!(metrics.correct, 1);
}

#[test]
fn a_reversed_run_that_differs_is_not_deterministic() {
    let tasks = vec![task("a", "doc", "applied", None)];
    let good = SOURCE.replace("8080", "9090");
    let runs = vec![vec![applied(&good)]];
    let (results, metrics) = run_tasks(&tasks, &sources(), &runs, &vec![refused("x")]).unwrap();
    assert!(results[0].deterministic);
    assert!(!metrics.deterministic);
}

#[test]
fn a_task_on_an_unknown_document_is_an_error() {
    let tasks = vec![task("a", "missing", "applied", None)];
    let runs = vec![vec![applied(SOURCE)]];
    let err = run_tasks(&tasks, &sources(), &runs, &vec![applied(SOURCE)]).unwrap_err();
    assert_eq!(err, "任务 a 引用了未知文档 missing");
}

#[test]
fn the_six_verdict_counts_add_up_to_the_tasks() {
    let tasks = vec![
        task("a", "doc", "applied", None),
        task("b", "doc", "applied", None),
        task("c", "doc", "refused", Some("target_not_found")),
    ];
    let results: Vec<TaskResult> = [Outcome::Correct, Outcome::Wrong, Outcome::AppliedWrongly]
        .iter()
        .map(|o| TaskResult {
            task_id: s("t"),
            description: s("d"),
            expected: s("applied"),
            outcome: *o,
            detail: s(""),
            comments_kept: true,
            deterministic: true,
        })
        .collect();
    let m = summarize(&tasks, &results, true);
    assert_eq!(m.applied_tasks + m.refused_tasks, 3);
    assert_eq!(
        m.correct + m.collateral + m.wrong + m.refused_correctly + m.refused_wrongly + m.applied_wrongly,
        3
    );
    assert_eq!(m.comments_kept, 1);
}
