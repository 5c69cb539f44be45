use verseconf::bench::judge::{allowed_ranges, judge, Judgement};
use verseconf::bench::keys::read_value_at;
use verseconf::bench::task::{Expectation, Outcome, StrategyOutcome, TargetExpect, Task};
use verseconf::edit::json::{JsonMember, JsonValue};
use verseconf::edit::plan::PathSegment;
use verseconf::edit::value::{EditField, EditValue};
use verseconf::parse;

const SOURCE: &str = "server {\n  port = 8080 #@ range(1..65535)\n  host = \"0.0.0.0\"\n}\n";

fn s(text: &str) -> String {
    text.to_string()
}

fn key(name: &str) -> PathSegment {
    PathSegment::Key(s(name))
}

fn jstr(text: &str) -> JsonValue {
    JsonValue::String(s(text))
}

fn jobj(members: Vec<(&str, JsonValue)>) -> JsonValue {
    JsonValue::Object(members.into_iter().map(|(k, v)| JsonMember { key: s(k), value: v }).collect())
}

fn jpath(path: &[&str]) -> JsonValue {
    JsonValue::Array(path.iter().map(|p| jstr(p)).collect())
}

fn plan_of(edits: Vec<JsonValue>) -> JsonValue {
    jobj(vec![("version", jstr("1.0")), ("edits", JsonValue::Array(edits))])
}

fn edit_json(op: &str, path: &[&str], value: Option<JsonValue>) -> JsonValue {
    let mut members = vec![("op", jstr(op)), ("path", jpath(path))];
    if let Some(v) = value {
        members.push(("value", v));
    }
    jobj(members)
}

fn expectation(outcome: &str, path: Vec<PathSegment>, value: Option<EditValue>, code: Option<&str>) -> Expectation {
    Expectation {
        outcome: s(outcome),
        path,
        value,
        code: code.map(s),
        target_file: None,
        targets: Vec::new(),
    }
}

fn applied_task() -> Task {
    Task {
        id: s("t"),
        document: s("d"),
        description: s("改 port"),
        plan: plan_of(vec![edit_json("set", &["server", "port"], Some(JsonValue::Number(s("9090"))))]),
        expect: expectation("applied", vec![key("server"), key("port")], Some(EditValue::Integer(9090)), None),
    }
}

fn refused_task(code: &str) -> Task {
    Task {
        id: s("r"),
        document: s("d"),
        description: s("应当拒绝"),
        plan: plan_of(vec![edit_json("set", &["server", "port"], Some(JsonValue::Number(s("9090"))))]),
        expect: expectation("refused", Vec::new(), None, Some(code)),
    }
}

fn judged(task: &Task, next: &str) -> Judgement {
    judge(task, SOURCE, &StrategyOutcome::Applied(s(next))).unwrap()
}

#[test]
fn a_minimal_edit_is_correct() {
    let next = SOURCE.replace("8080", "9090");
    let judgement = judged(&applied_task(), &next);
    assert_eq!(judgement.outcome, Outcome::Correct);
    assert!(judgement.comments_kept);
}

#[test]
fn reformatting_outside_the_value_is_collateral_damage() {
    let next = "server {\n  host = \"0.0.0.0\"\n  port = 9090 #@ range(1..65535)\n}\n";
    let judgement = judged(&applied_task(), next);
    assert_eq!(judgement.outcome, Outcome::Collateral);
    assert!(judgement.detail.contains("改动区间"));
}

#[test]
fn dropping_the_inline_metadata_is_collateral_damage() {
    let next = "server {\n  port = 9090\n  host = \"0.0.0.0\"\n}\n";
    let judgement = judged(&applied_task(), next);
    assert_eq!(judgement.outcome, Outcome::Collateral);
    assert!(!judgement.comments_kept);
}

#[test]
fn a_wrong_value_is_a_mis_edit() {
    let next = SOURCE.replace("8080", "1234");
    let judgement = judged(&applied_task(), &next);
    assert_eq!(judgement.outcome, Outcome::Wrong);
    assert!(judgement.detail.contains("实际为 1234"));
}

#[test]
fn an_unparseable_result_is_a_mis_edit() {
    let judgement = judged(&applied_task(), "server {\n  port = \n");
    assert_eq!(judgement.outcome, Outcome::Wrong);
}

#[test]
fn refusing_when_the_task_expects_an_edit_is_flagged() {
    let judgement =
        judge(&applied_task(), SOURCE, &StrategyOutcome::refused("target_not_found", "找不到")).unwrap();
    assert_eq!(judgement.outcome, Outcome::RefusedWrongly);
}

#[test]
fn refusal_only_counts_when_the_code_matches() {
    let task = refused_task("target_ambiguous");
    let right = judge(&task, SOURCE, &StrategyOutcome::refused("target_ambiguous", "命中 2 个")).unwrap();
    assert_eq!(right.outcome, Outcome::RefusedCorrectly);
    let wrong_code = judge(&task, SOURCE, &StrategyOutcome::refused("target_not_found", "找不到")).unwrap();
    assert_eq!(wrong_code.outcome, Outcome::Wrong);
}

#[test]
fn applying_a_task_that_should_be_refused_is_flagged() {
    let judgement = judged(&refused_task("security_rejected"), SOURCE);
    assert_eq!(judgement.outcome, Outcome::AppliedWrongly);
}

fn insert_task(path: &[&str], value: &str) -> Task {
    Task {
        id: s("i"),
        document: s("d"),
        description: s("插入"),
        plan: plan_of(vec![edit_json("insert", path, Some(jstr(value)))]),
        expect: expectation("applied", path.iter().map(|p| key(p)).collect(), Some(EditValue::String(s(value))), None),
    }
}

fn delete_task(path: &[&str]) -> Task {
    Task {
        id: s("d"),
        document: s("d"),
        description: s("删除"),
        plan: plan_of(vec![edit_json("delete", path, None)]),
        expect: expectation("applied", path.iter().map(|p| key(p)).collect(), None, None),
    }
}

#[test]
fn a_pure_insertion_is_correct() {
    let task = insert_task(&["added"], "x");
    let next = format!("{SOURCE}added = \"x\"\n");
    let judgement = judge(&task, SOURCE, &StrategyOutcome::Applied(next)).unwrap();
    assert_eq!(judgement.outcome, Outcome::Correct, "{}", judgement.detail);
}

#[test]
fn reformatting_during_an_insert_is_collateral_damage() {
    let task = insert_task(&["added"], "x");
    let next = "server {\n  host = \"0.0.0.0\"\n  port = 8080 #@ range(1..65535)\n}\nadded = \"x\"\n";
    let judgement = judge(&task, SOURCE, &StrategyOutcome::Applied(s(next))).unwrap();
    assert_eq!(judgement.outcome, Outcome::Collateral, "{}", judgement.detail);
}

#[test]
fn an_insert_that_does_not_land_is_a_mis_edit() {
    let task = insert_task(&["added"], "x");
    let next = format!("{SOURCE}added = \"y\"\n");
    let judgement = judge(&task, SOURCE, &StrategyOutcome::Applied(next)).unwrap();
    assert_eq!(judgement.outcome, Outcome::Wrong);
}

#[test]
fn a_pure_deletion_is_correct() {
    let task = delete_task(&["server", "host"]);
    let next = "server {\n  port = 8080 #@ range(1..65535)\n}\n";
    let judgement = judge(&task, SOURCE, &StrategyOutcome::Applied(s(next))).unwrap();
    assert_eq!(judgement.outcome, Outcome::Correct, "{}", judgement.detail);
}

#[test]
fn a_deletion_that_leaves_the_value_in_place_is_a_mis_edit() {
    let task = delete_task(&["server", "host"]);
    let judgement = judge(&task, SOURCE, &StrategyOutcome::Applied(s(SOURCE))).unwrap();
    assert_eq!(judgement.outcome, Outcome::Wrong);
    assert!(judgement.detail.contains("仍然存在"));
}

#[test]
fn reformatting_during_a_deletion_is_collateral_damage() {
    let task = delete_task(&["server", "host"]);
    let next = "server {\n  port = 8080 #@ range(1..65535)\n}\n";
    let reformatted = "server {\n    port = 8080 #@ range(1..65535)\n}\n";
    let judgement = judge(&task, SOURCE, &StrategyOutcome::Applied(s(reformatted))).unwrap();
    assert_eq!(judgement.outcome, Outcome::Collateral, "{}", judgement.detail);
    let clean = judge(&task, SOURCE, &StrategyOutcome::Applied(s(next))).unwrap();
    assert_eq!(clean.outcome, Outcome::Correct);
}

#[test]
fn deleting_an_adjacent_line_too_is_collateral_damage() {
    let task = delete_task(&["server", "host"]);
    let next = "server {\n}\n";
    let judgement = judge(&task, SOURCE, &StrategyOutcome::Applied(s(next))).unwrap();
    assert_eq!(judgement.outcome, Outcome::Collateral, "{}", judgement.detail);
}

#[test]
fn inserting_an_extra_key_is_collateral_damage() {
    let task = insert_task(&["added"], "x");
    let next = format!("{SOURCE}added = \"x\"\nsneaky = 1\n");
    let judgement = judge(&task, SOURCE, &StrategyOutcome::Applied(next)).unwrap();
    assert_eq!(judgement.outcome, Outcome::Collateral, "{}", judgement.detail);
}

const MULTI_SOURCE: &str =
    "server {\n  port = 8080 #@ range(1..65535)\n  host = \"0.0.0.0\"\n}\nlogging {\n  level = \"info\" # keep\n}\n";

fn target(path: &[&str], value: Option<EditValue>) -> TargetExpect {
    TargetExpect { path: path.iter().map(|p| key(p)).collect(), value }
}

fn multi_task() -> Task {
    let mut expect = expectation("applied", Vec::new(), None, None);
    expect.targets = vec![
        target(&["server", "port"], Some(EditValue::Integer(9090))),
        target(&["logging", "level"], Some(EditValue::String(s("debug")))),
    ];
    Task {
        id: s("m"),
        document: s("d"),
        description: s("一次改两处"),
        plan: plan_of(vec![
            edit_json("set", &["server", "port"], Some(JsonValue::Number(s("9090")))),
            edit_json("set", &["logging", "level"], Some(jstr("debug"))),
        ]),
        expect,
    }
}

fn judged_multi(next: &str) -> Judgement {
    judge(&multi_task(), MULTI_SOURCE, &StrategyOutcome::Applied(s(next))).unwrap()
}

#[test]
fn a_minimal_multi_edit_is_correct() {
    let judgement = judged_multi(
        "server {\n  port = 9090 #@ range(1..65535)\n  host = \"0.0.0.0\"\n}\nlogging {\n  level = \"debug\" # keep\n}\n",
    );
    assert_eq!(judgement.outcome, Outcome::Correct, "{}", judgement.detail);
    assert!(judgement.comments_kept);
}

#[test]
fn a_multi_edit_that_touches_another_line_is_collateral() {
    let judgement = judged_multi(
        "server {\n  port = 9090 #@ range(1..65535)\n    host = \"0.0.0.0\"\n}\nlogging {\n  level = \"debug\" # keep\n}\n",
    );
    assert_eq!(judgement.outcome, Outcome::Collateral, "{}", judgement.detail);
}

#[test]
fn a_multi_edit_that_drops_a_comment_is_collateral() {
    let judgement =
        judged_multi("server {\n  port = 9090\n  host = \"0.0.0.0\"\n}\nlogging {\n  level = \"debug\" # keep\n}\n");
    assert_eq!(judgement.outcome, Outcome::Collateral, "{}", judgement.detail);
}

#[test]
fn a_multi_edit_with_one_wrong_value_is_a_mis_edit() {
    let judgement = judged_multi(
        "server {\n  port = 1234 #@ range(1..65535)\n  host = \"0.0.0.0\"\n}\nlogging {\n  level = \"debug\" # keep\n}\n",
    );
    assert_eq!(judgement.outcome, Outcome::Wrong);
    assert!(judgement.detail.contains("server.port"));
}

#[test]
fn a_whole_file_rewrite_of_a_multi_edit_is_collateral() {
    let judgement =
        judged_multi("logging {\n  level = \"debug\"\n}\nserver {\n  host = \"0.0.0.0\"\n  port = 9090\n}\n");
    assert_eq!(judgement.outcome, Outcome::Collateral, "{}", judgement.detail);
}

#[test]
fn ambiguous_named_list_cannot_be_read_back() {
    let source = "[[servers]]\nname = \"a\"\nip = \"1\"\n\n[[servers]]\nname = \"a\"\nip = \"2\"\n";
    let path = vec![
        PathSegment::Named {
            key: s("servers"),
            match_fields: vec![EditField { name: s("name"), value: EditValue::String(s("a")) }],
        },
        key("ip"),
    ];
    let ast = parse(source).unwrap();
    assert!(read_value_at(&ast.root, &path).is_none());
}

#[test]
fn allowed_ranges_cover_the_value_for_set_and_the_whole_line_for_delete() {
    let source = "a = 1\nb = 2\n";
    let set_targets = vec![target(&["b"], Some(EditValue::Integer(2)))];
    assert_eq!(allowed_ranges(source, &set_targets), Some(vec![(10, 11)]), "set 只允许改值本身（b = 2 里的那个 2）");
    let delete_targets = vec![target(&["b"], None)];
    assert_eq!(allowed_ranges(source, &delete_targets), Some(vec![(6, 12)]), "delete 允许改掉整行（含换行）");
}

#[test]
fn allowed_ranges_are_undefined_for_insert_targets() {
    let source = "a = 1\n";
    let targets = vec![target(&["c"], Some(EditValue::Integer(3)))];
    assert!(allowed_ranges(source, &targets).is_none());
}

const SAME_KEY_SOURCE: &str = "port = 8080\nworkers = 2\nserver {\n  port = 9090\n}\n";

fn same_key_task() -> Task {
    let mut expect = expectation("applied", Vec::new(), None, None);
    expect.targets = vec![
        target(&["server", "port"], Some(EditValue::Integer(9090))),
        target(&["workers"], Some(EditValue::Integer(4))),
    ];
    Task {
        id: s("same-key"),
        document: s("d"),
        description: s("根级 port 与 server.port 共用叶子名"),
        plan: plan_of(vec![
            edit_json("set", &["server", "port"], Some(JsonValue::Number(s("9090")))),
            edit_json("set", &["workers"], Some(JsonValue::Number(s("4")))),
        ]),
        expect,
    }
}

#[test]
fn a_multi_edit_that_hits_a_same_named_field_elsewhere_is_collateral() {
    let next = "port = 9090\nworkers = 4\nserver {\n  port = 9090\n}\n";
    let judgement = judge(&same_key_task(), SAME_KEY_SOURCE, &StrategyOutcome::Applied(s(next))).unwrap();
    assert_eq!(judgement.outcome, Outcome::Collateral, "{}", judgement.detail);
}

#[test]
fn the_same_key_task_is_correct_when_only_the_targets_change() {
    let next = "port = 8080\nworkers = 4\nserver {\n  port = 9090\n}\n";
    let judgement = judge(&same_key_task(), SAME_KEY_SOURCE, &StrategyOutcome::Applied(s(next))).unwrap();
    assert_eq!(judgement.outcome, Outcome::Correct, "{}", judgement.detail);
}

#[test]
fn a_multi_edit_that_swaps_two_lines_is_collateral() {
    let judgement = judged_multi(
        "server {\n  host = \"0.0.0.0\"\n  port = 9090 #@ range(1..65535)\n}\nlogging {\n  level = \"debug\" # keep\n}\n",
    );
    assert_eq!(judgement.outcome, Outcome::Collateral, "{}", judgement.detail);
}

#[test]
fn a_multi_edit_that_changes_line_endings_is_collateral() {
    let judgement = judged_multi(
        "server {\n  port = 9090 #@ range(1..65535)\r\n  host = \"0.0.0.0\"\n}\nlogging {\n  level = \"debug\" # keep\n}\n",
    );
    assert_eq!(judgement.outcome, Outcome::Collateral, "{}", judgement.detail);
}

// Exact verdict texts.

#[test]
fn a_refusal_with_the_right_code_reports_it() {
    let j = judge(&refused_task("target_ambiguous"), SOURCE, &StrategyOutcome::refused("target_ambiguous", "命中 2 个"))
        .unwrap();
    assert_eq!(j.detail, "按 target_ambiguous 拒绝：命中 2 个");
    assert!(j.comments_kept);
    let k = judged(&refused_task("security_rejected"), SOURCE);
    assert_eq!(k.detail, "应以 security_rejected 拒绝，实际改动了文件");
    assert!(!k.comments_kept);
}

#[test]
fn a_wrong_refusal_names_both_codes() {
    let j = judge(&applied_task(), SOURCE, &StrategyOutcome::refused("target_not_found", "找不到")).unwrap();
    assert_eq!(j.detail, "应当改动，实际以 target_not_found 拒绝");
    let w = judge(&refused_task("target_ambiguous"), SOURCE, &StrategyOutcome::refused("target_not_found", "找不到"))
        .unwrap();
    assert_eq!(w.detail, "应以 target_ambiguous 拒绝，实际是 target_not_found：找不到");
}

#[test]
fn correct_verdicts_say_what_was_checked() {
    let j = judged(&applied_task(), &SOURCE.replace("8080", "9090"));
    assert_eq!(j.detail, "目标值已改对，改动区间之外字节零变化");
    let d = judge(&delete_task(&["server", "host"]), SOURCE, &StrategyOutcome::Applied(s("server {\n  port = 8080 #@ range(1..65535)\n}\n")))
        .unwrap();
    assert_eq!(d.detail, "目标已删除，删除区间之外字节零变化");
    let m = judged_multi(
        "server {\n  port = 9090 #@ range(1..65535)\n  host = \"0.0.0.0\"\n}\nlogging {\n  level = \"debug\" # keep\n}\n",
    );
    assert_eq!(m.detail, "2 个目标全部成立，改动之外的行与字节零变化");
}

#[test]
fn damage_reports_give_line_counts() {
    let next = "server {\n  host = \"0.0.0.0\"\n  port = 9090 #@ range(1..65535)\n}\n";
    let j = judged(&applied_task(), next);
    assert_eq!(j.detail, "改动区间之前与之后的字节也变了：行数 4→4，不同行 2，CRLF 否→否");
}

#[test]
fn a_plan_without_an_operation_is_an_error() {
    let mut task = applied_task();
    task.plan = jobj(vec![("version", jstr("1.0"))]);
    let r = judge(&task, SOURCE, &StrategyOutcome::Applied(s(SOURCE)));
    assert_eq!(r.err().unwrap(), "任务 t 的 plan 里读不到 edits[0].op");
}

#[test]
fn an_edit_without_an_expected_value_is_an_error() {
    let mut task = applied_task();
    task.expect.value = None;
    let r = judge(&task, SOURCE, &StrategyOutcome::Applied(SOURCE.replace("8080", "9090")));
    assert_eq!(r.err().unwrap(), "任务 t 声明为 applied 但没有 expect.value");
}

#[test]
fn a_multi_edit_that_touches_another_line_names_the_missing_piece() {
    let j = judged_multi(
        "server {\n  port = 9090 #@ range(1..65535)\n    host = \"0.0.0.0\"\n}\nlogging {\n  level = \"debug\" # keep\n}\n",
    );
    assert!(j.detail.starts_with("目标之外的字节被改动或顺序被打乱：找不到 "), "{}", j.detail);
}

fn insert_and_set_task() -> Task {
    let mut expect = expectation("applied", Vec::new(), None, None);
    expect.targets = vec![target(&["a"], Some(EditValue::Integer(2))), target(&["c"], Some(EditValue::Integer(3)))];
    Task {
        id: s("is"),
        document: s("d"),
        description: s("改一处、插一处"),
        plan: plan_of(vec![
            edit_json("set", &["a"], Some(JsonValue::Number(s("2")))),
            edit_json("insert", &["c"], Some(JsonValue::Number(s("3")))),
        ]),
        expect,
    }
}

#[test]
fn an_extra_key_beside_the_targets_is_named() {
    let j = judge(&insert_and_set_task(), "a = 1\n", &StrategyOutcome::Applied(s("a = 2\nc = 3\nsneaky = 1\n"))).unwrap();
    assert_eq!(j.outcome, Outcome::Collateral);
    assert_eq!(j.detail, "改动落到目标之外：多出 [\"sneaky\"]，少了 []");
}

#[test]
fn a_changed_line_that_names_no_target_is_shown() {
    let j = judge(&insert_and_set_task(), "a = 1\n", &StrategyOutcome::Applied(s("a = 2\n\nc = 3\n"))).unwrap();
    assert_eq!(j.outcome, Outcome::Collateral);
    assert_eq!(j.detail, "有目标之外的行被改动：(空行)");
}

#[test]
fn an_insert_beside_a_set_is_judged_by_lines() {
    let j = judge(&insert_and_set_task(), "a = 1\n", &StrategyOutcome::Applied(s("a = 2\nc = 3\n"))).unwrap();
    assert_eq!(j.outcome, Outcome::Correct, "{}", j.detail);
}
