use std::collections::BTreeSet;
use verseconf::edit::apply::{apply_edit_plan, replace_range, value_span_for_path};
use verseconf::edit::outcome::EditRefusal;
use verseconf::edit::plan::{EditExpectation, EditIntent, EditOp, EditPlan, PathSegment};
use verseconf::edit::value::{EditField, EditValue};

fn s(text: &str) -> String {
    text.to_string()
}

fn key(name: &str) -> PathSegment {
    PathSegment::Key(s(name))
}

fn named(list: &str, field: &str, value: &str) -> PathSegment {
    PathSegment::Named {
        key: s(list),
        match_fields: vec![EditField { name: s(field), value: EditValue::String(s(value)) }],
    }
}

fn edit(op: EditOp, path: Vec<PathSegment>, value: Option<EditValue>) -> EditIntent {
    EditIntent { op, path, value, reason: None, expect: None }
}

fn expecting(mut e: EditIntent, value: EditValue) -> EditIntent {
    e.expect = Some(EditExpectation { value: Some(value) });
    e
}

fn because(mut e: EditIntent, reason: &str) -> EditIntent {
    e.reason = Some(s(reason));
    e
}

fn plan(edits: Vec<EditIntent>) -> EditPlan {
    EditPlan { version: s("1.0"), file: None, edits }
}

#[test]
fn set_only_touches_the_target_value() {
    let source = "# 顶部注释\nserver {\n  host = \"localhost\" # 保留我\n  port = 8080 #@ range(1..65535)\n}\n";
    let edit_plan = plan(vec![expecting(
        edit(EditOp::Assign, vec![key("server"), key("port")], Some(EditValue::Integer(9090))),
        EditValue::Integer(8080),
    )]);

    let outcome = apply_edit_plan(source, &edit_plan).expect("合法编辑应当成功");
    assert_eq!(
        outcome.source,
        "# 顶部注释\nserver {\n  host = \"localhost\" # 保留我\n  port = 9090 #@ range(1..65535)\n}\n"
    );
    assert_eq!(outcome.applied[0].before, "8080");
    assert_eq!(outcome.applied[0].after, "9090");

    let changed: Vec<usize> = source
        .lines()
        .zip(outcome.source.lines())
        .enumerate()
        .filter(|(_, (before, after))| before != after)
        .map(|(index, _)| index)
        .collect();
    assert_eq!(changed, vec![3], "只有 port 所在行应发生变化");
}

#[test]
fn set_keeps_untouched_lines_byte_identical() {
    let source = "a = \"double\"\nb    =    \"spaced\"   # 保留\n";
    let edit_plan = plan(vec![edit(EditOp::Assign, vec![key("a")], Some(EditValue::String(s("changed"))))]);
    let outcome = apply_edit_plan(source, &edit_plan).unwrap();
    assert_eq!(outcome.source, "a = \"changed\"\nb    =    \"spaced\"   # 保留\n");
    assert!(outcome.source.ends_with("b    =    \"spaced\"   # 保留\n"), "未触及行必须逐字节保持原样");
}

#[test]
fn set_preserves_crlf_line_endings() {
    let source = "server {\r\n  port = 8080\r\n}\r\n";
    let edit_plan = plan(vec![edit(EditOp::Assign, vec![key("server"), key("port")], Some(EditValue::Integer(1)))]);
    let outcome = apply_edit_plan(source, &edit_plan).unwrap();
    assert_eq!(outcome.source, "server {\r\n  port = 1\r\n}\r\n");
}

#[test]
fn set_refuses_when_expectation_does_not_match() {
    let source = "port = 8080\n";
    let edit_plan = plan(vec![expecting(
        edit(EditOp::Assign, vec![key("port")], Some(EditValue::Integer(9090))),
        EditValue::Integer(1234),
    )]);
    let refusal = apply_edit_plan(source, &edit_plan).expect_err("前置条件不符必须拒绝");
    match refusal {
        EditRefusal::ExpectationMismatch { expected, actual, .. } => {
            assert_eq!(expected, "1234");
            assert_eq!(actual, "8080");
        },
        other => panic!("期望 ExpectationMismatch，实际 {:?}", other),
    }
}

#[test]
fn set_refuses_unknown_target() {
    let source = "port = 8080\n";
    let edit_plan = plan(vec![edit(EditOp::Assign, vec![key("missing")], Some(EditValue::Integer(1)))]);
    let refusal = apply_edit_plan(source, &edit_plan).expect_err("目标不存在必须拒绝");
    assert!(matches!(refusal, EditRefusal::TargetNotFound { .. }));
}

#[test]
fn named_list_targeting_uses_names_and_refuses_ambiguity() {
    let source = "[[servers]]\nname = \"primary\"\nip = \"10.0.0.1\"\n\n[[servers]]\nname = \"secondary\"\nip = \"10.0.0.2\"\n";
    let unique = plan(vec![edit(
        EditOp::Assign,
        vec![named("servers", "name", "secondary"), key("ip")],
        Some(EditValue::String(s("10.0.0.9"))),
    )]);
    let outcome = apply_edit_plan(source, &unique).expect("唯一命中应当成功");
    assert!(outcome.source.contains("name = \"secondary\"\nip = \"10.0.0.9\""));
    assert!(outcome.source.contains("name = \"primary\"\nip = \"10.0.0.1\""));

    let no_match = plan(vec![edit(
        EditOp::Assign,
        vec![named("servers", "ip", "10.0.0.99"), key("ip")],
        Some(EditValue::String(s("x"))),
    )]);
    assert!(matches!(apply_edit_plan(source, &no_match).unwrap_err(), EditRefusal::TargetNotFound { .. }));

    let duplicate_ips = "[[servers]]\nname = \"a\"\nip = \"10.0.0.1\"\n\n[[servers]]\nname = \"b\"\nip = \"10.0.0.1\"\n";
    let ambiguous_ip = plan(vec![edit(
        EditOp::Assign,
        vec![named("servers", "ip", "10.0.0.1"), key("name")],
        Some(EditValue::String(s("c"))),
    )]);
    assert!(matches!(
        apply_edit_plan(duplicate_ips, &ambiguous_ip).unwrap_err(),
        EditRefusal::TargetAmbiguous { matches: 2, .. }
    ));
}

#[test]
fn insert_adds_one_line_and_keeps_the_rest_intact() {
    let source = "server {\n  host = \"localhost\"\n}\n";
    let edit_plan = plan(vec![because(
        edit(EditOp::Insert, vec![key("server"), key("port")], Some(EditValue::Integer(8080))),
        "补齐端口",
    )]);
    let outcome = apply_edit_plan(source, &edit_plan).unwrap();
    assert_eq!(outcome.source, "server {\n  host = \"localhost\"\n  port = 8080\n}\n");
}

#[test]
fn insert_at_root_appends_after_existing_entries() {
    let source = "a = 1\n";
    let edit_plan = plan(vec![edit(EditOp::Insert, vec![key("b")], Some(EditValue::String(s("two"))))]);
    let outcome = apply_edit_plan(source, &edit_plan).unwrap();
    assert_eq!(outcome.source, "a = 1\nb = \"two\"\n");
}

#[test]
fn insert_refuses_when_target_already_exists() {
    let source = "port = 8080\n";
    let edit_plan = plan(vec![edit(EditOp::Insert, vec![key("port")], Some(EditValue::Integer(1)))]);
    assert!(matches!(
        apply_edit_plan(source, &edit_plan).unwrap_err(),
        EditRefusal::TargetAlreadyExists { .. }
    ));
}

#[test]
fn delete_removes_only_the_target_line() {
    let source = "# 注释\nkeep = 1\nremove = 2 #@ sensitive\nkeep2 = 3\n";
    let edit_plan = plan(vec![expecting(edit(EditOp::Delete, vec![key("remove")], None), EditValue::Integer(2))]);
    let outcome = apply_edit_plan(source, &edit_plan).unwrap();
    assert_eq!(outcome.source, "# 注释\nkeep = 1\nkeep2 = 3\n");
}

#[test]
fn delete_refuses_when_target_missing() {
    let source = "keep = 1\n";
    let edit_plan = plan(vec![edit(EditOp::Delete, vec![key("gone")], None)]);
    assert!(matches!(apply_edit_plan(source, &edit_plan).unwrap_err(), EditRefusal::TargetNotFound { .. }));
}

#[test]
fn invalid_plan_is_rejected_before_touching_the_source() {
    let source = "port = 8080\n";
    let edit_plan = EditPlan {
        version: s("9.9"),
        file: None,
        edits: vec![EditIntent { op: EditOp::Delete, path: vec![key("port")], value: None, reason: None, expect: None }],
    };
    assert!(matches!(apply_edit_plan(source, &edit_plan).unwrap_err(), EditRefusal::InvalidPlan(_)));
}

#[test]
fn edits_are_applied_in_order_and_reported() {
    let source = "server {\n  port = 8080\n}\n";
    let edit_plan = plan(vec![
        because(edit(EditOp::Assign, vec![key("server"), key("port")], Some(EditValue::Integer(9090))), "改端口"),
        because(edit(EditOp::Insert, vec![key("server"), key("host")], Some(EditValue::String(s("0.0.0.0")))), "补主机"),
    ]);
    let outcome = apply_edit_plan(source, &edit_plan).unwrap();
    assert_eq!(outcome.source, "server {\n  port = 9090\n  host = \"0.0.0.0\"\n}\n");
    assert_eq!(outcome.applied.len(), 2);
    assert_eq!(outcome.applied[0].path, "server.port");
    assert_eq!(outcome.applied[0].reason.as_deref(), Some("改端口"));
    assert_eq!(outcome.applied[1].op, EditOp::Insert);
}

#[test]
fn applied_plan_is_idempotent_when_repeated_with_expectations() {
    let source = "server {\n  port = 8080\n}\n";
    let first = plan(vec![expecting(
        edit(EditOp::Assign, vec![key("server"), key("port")], Some(EditValue::Integer(9090))),
        EditValue::Integer(8080),
    )]);
    let outcome = apply_edit_plan(source, &first).unwrap();
    assert!(matches!(
        apply_edit_plan(&outcome.source, &first).unwrap_err(),
        EditRefusal::ExpectationMismatch { .. }
    ));
}

#[test]
fn security_gate_rejects_newly_introduced_high_risk_findings() {
    let source = "ssl_verify = true\n";
    let edit_plan = plan(vec![because(
        edit(EditOp::Assign, vec![key("ssl_verify")], Some(EditValue::Bool(false))),
        "临时关闭校验",
    )]);
    match apply_edit_plan(source, &edit_plan).expect_err("引入高危项必须拒绝") {
        EditRefusal::SecurityRejected { findings, .. } => {
            assert!(findings.iter().any(|rule| rule == "SEC-005"), "应指出被引入的 SEC-005，实际 {:?}", findings);
        },
        other => panic!("期望 SecurityRejected，实际 {:?}", other),
    }
}

#[test]
fn security_gate_does_not_block_edits_for_preexisting_findings() {
    let source = "ssl_verify = false\nport = 8080\n";
    let edit_plan = plan(vec![edit(EditOp::Assign, vec![key("port")], Some(EditValue::Integer(9090)))]);
    let outcome = apply_edit_plan(source, &edit_plan).expect("不应因既有问题误拒");
    assert_eq!(outcome.source, "ssl_verify = false\nport = 9090\n");
}

#[test]
fn security_gate_rejects_plaintext_credentials_before_write() {
    let source = "server {\n  host = \"localhost\"\n}\n";
    let edit_plan = plan(vec![because(
        edit(EditOp::Insert, vec![key("server"), key("password")], Some(EditValue::String(s("hunter2")))),
        "补一个口令",
    )]);
    match apply_edit_plan(source, &edit_plan).expect_err("明文口令必须被拒绝") {
        EditRefusal::SecurityRejected { findings, .. } => {
            assert!(findings.iter().any(|rule| rule == "SEC-SENS-001"), "应指出敏感数据规则，实际 {:?}", findings);
        },
        other => panic!("期望 SecurityRejected，实际 {:?}", other),
    }
}

#[test]
fn refusal_matrix_covers_every_rejection_reason() {
    let mut messages: Vec<String> = Vec::new();

    let broken = "server {\n  port = \n}\n";
    let set_port = plan(vec![edit(EditOp::Assign, vec![key("server"), key("port")], Some(EditValue::Integer(1)))]);
    let refusal = apply_edit_plan(broken, &set_port).expect_err("无法解析必须拒绝");
    assert!(matches!(refusal, EditRefusal::ParseFailed(_)));
    messages.push(refusal.describe());

    let into_scalar = plan(vec![edit(EditOp::Assign, vec![key("port"), key("nested")], Some(EditValue::Integer(1)))]);
    let refusal = apply_edit_plan("port = 8080\n", &into_scalar).expect_err("下钻标量必须拒绝");
    assert!(matches!(refusal, EditRefusal::UnsupportedTarget { .. }));
    messages.push(refusal.describe());

    let list_tail = plan(vec![edit(EditOp::Assign, vec![named("servers", "name", "a")], Some(EditValue::Integer(1)))]);
    let refusal = apply_edit_plan("[[servers]]\nname = \"a\"\n", &list_tail).expect_err("末段为列表元素必须拒绝");
    assert!(matches!(refusal, EditRefusal::UnsupportedTarget { .. }));
    messages.push(refusal.describe());

    let delete_shared_line = plan(vec![edit(EditOp::Delete, vec![key("b")], None)]);
    let refusal = apply_edit_plan("a = 1 b = 2\n", &delete_shared_line).expect_err("同行删除必须拒绝");
    assert!(matches!(refusal, EditRefusal::UnsupportedTarget { .. }));
    messages.push(refusal.describe());

    let expect_unparseable = plan(vec![expecting(
        edit(EditOp::Assign, vec![key("value")], Some(EditValue::Integer(1))),
        EditValue::Integer(2),
    )]);
    let refusal = apply_edit_plan("value = 10 / 0\n", &expect_unparseable).expect_err("当前值不可解析必须拒绝");
    assert!(matches!(refusal, EditRefusal::ExpectationMismatch { .. }));
    messages.push(refusal.describe());

    for message in &messages {
        assert!(!message.trim().is_empty(), "拒绝说明不能为空");
    }
    let unique: BTreeSet<&String> = messages.iter().collect();
    assert_eq!(unique.len(), messages.len(), "不同拒绝原因应有不同说明");
}

#[test]
fn refused_paths_never_return_a_modified_source() {
    let source = "port = 8080\n";
    let cases = vec![
        plan(vec![edit(EditOp::Assign, vec![key("missing")], Some(EditValue::Integer(1)))]),
        plan(vec![edit(EditOp::Insert, vec![key("port")], Some(EditValue::Integer(1)))]),
        plan(vec![expecting(
            edit(EditOp::Assign, vec![key("port")], Some(EditValue::Integer(9090))),
            EditValue::Integer(1),
        )]),
        plan(vec![edit(EditOp::Delete, vec![key("missing")], None)]),
    ];
    for edit_plan in &cases {
        assert!(apply_edit_plan(source, edit_plan).is_err(), "该用例必须被拒绝：{:?}", edit_plan);
        assert_eq!(source, "port = 8080\n");
    }
}

#[test]
fn range_edit_replaces_exactly_the_given_bytes() {
    let source = "port = 8080\nhost = \"localhost\"\n";
    let start = source.find("8080").expect("示例包含端口");
    let outcome = replace_range(source, start, start + 4, "9090").expect("合法区间应当成功");

    assert_eq!(outcome.source, "port = 9090\nhost = \"localhost\"\n");
    assert_eq!(outcome.applied[0].before, "8080");
    assert_eq!(outcome.applied[0].after, "9090");
    assert_eq!(outcome.applied[0].path, format!("bytes[{}, {})", start, start + 4));
}

#[test]
fn range_edit_refuses_out_of_bounds_and_split_characters() {
    let source = "port = 8080\n";
    assert!(matches!(replace_range(source, 5, 3, "x").unwrap_err(), EditRefusal::UnsupportedTarget { .. }));
    assert!(matches!(
        replace_range(source, 0, source.len() + 1, "x").unwrap_err(),
        EditRefusal::UnsupportedTarget { .. }
    ));

    let unicode = "name = \"配置\"\n";
    let inside = unicode.find('配').expect("示例包含多字节字符") + 1;
    assert!(matches!(
        replace_range(unicode, inside, inside + 1, "x").unwrap_err(),
        EditRefusal::UnsupportedTarget { .. }
    ));
}

#[test]
fn a_range_edit_that_breaks_parsing_is_refused() {
    let source = "port = 8080\n";
    let start = source.find("8080").expect("示例包含端口");
    assert!(matches!(
        replace_range(source, start, start + 4, "").unwrap_err(),
        EditRefusal::ValidationFailed { .. }
    ));
}

#[test]
fn value_spans_cover_exactly_the_value() {
    let source = "server {\n  port = 8080 # 端口\n}\n";
    let (start, end) = value_span_for_path(source, &vec![key("server"), key("port")]).expect("值区间应能确定");
    assert_eq!(&source[start..end], "8080");

    let quoted = "name = \"a b\"   #@ required\n";
    let (start, end) = value_span_for_path(quoted, &vec![key("name")]).unwrap();
    assert_eq!(&quoted[start..end], "\"a b\"");
}

#[test]
fn value_spans_are_refused_like_edits() {
    assert!(matches!(
        value_span_for_path("port = 1\n", &vec![key("missing")]).unwrap_err(),
        EditRefusal::TargetNotFound { .. }
    ));
    assert!(matches!(value_span_for_path("port = 1\n", &vec![]).unwrap_err(), EditRefusal::InvalidPlan(_)));
    assert!(matches!(value_span_for_path("port = \n", &vec![key("port")]).unwrap_err(), EditRefusal::ParseFailed(_)));
}

#[test]
fn a_deletion_refuses_a_field_sharing_its_line() {
    let refusal = apply_edit_plan("a = 1 b = 2\n", &plan(vec![edit(EditOp::Delete, vec![key("a")], None)])).unwrap_err();
    match refusal {
        EditRefusal::UnsupportedTarget { path, .. } => assert_eq!(path, "a"),
        other => panic!("期望 UnsupportedTarget，实际 {:?}", other),
    }
}

#[test]
fn an_insert_into_an_element_goes_after_its_last_field() {
    let source = "[[servers]]\nname = \"a\"\nip = \"1\"\n\n[[servers]]\nname = \"b\"\n";
    let edit_plan = plan(vec![edit(
        EditOp::Insert,
        vec![named("servers", "name", "a"), key("port")],
        Some(EditValue::Integer(80)),
    )]);
    let outcome = apply_edit_plan(source, &edit_plan).unwrap();
    assert_eq!(outcome.source, "[[servers]]\nname = \"a\"\nip = \"1\"\nport = 80\n\n[[servers]]\nname = \"b\"\n");
}
