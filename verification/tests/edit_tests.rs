use verseconf::ast::{Key, ScalarValue, Value};
use verseconf::edit::json::{JsonMember, JsonValue};
use verseconf::edit::outcome::EditRefusal;
use verseconf::edit::plan::{
    check_contract_shape, describe_path, EditExpectation, EditIntent, EditOp, EditPlan, PathSegment, PlanViolation,
    EDIT_PLAN_VERSION,
};
use verseconf::edit::value::{key_for, EditField, EditValue};
use verseconf::engine::pretty_printer::render_value;

fn s(text: &str) -> String {
    text.to_string()
}

fn key(name: &str) -> PathSegment {
    PathSegment::Key(s(name))
}

fn intent(op: EditOp, path: Vec<PathSegment>, value: Option<EditValue>) -> EditIntent {
    EditIntent { op, path, value, reason: None, expect: None }
}

fn plan(version: &str, edits: Vec<EditIntent>) -> EditPlan {
    EditPlan { version: s(version), file: None, edits }
}

fn codes(violations: &[PlanViolation]) -> Vec<String> {
    violations.iter().map(|v| v.code.clone()).collect()
}

fn member(k: &str, value: JsonValue) -> JsonMember {
    JsonMember { key: s(k), value }
}

fn valid_plan() -> EditPlan {
    EditPlan {
        version: s(EDIT_PLAN_VERSION),
        file: Some(s("config.vcf")),
        edits: vec![EditIntent {
            op: EditOp::Assign,
            path: vec![key("server"), key("port")],
            value: Some(EditValue::Integer(9090)),
            reason: Some(s("端口冲突")),
            expect: Some(EditExpectation { value: Some(EditValue::Integer(8080)) }),
        }],
    }
}

#[test]
fn version_constant_matches_the_contract() {
    assert_eq!(EDIT_PLAN_VERSION, "1.0");
}

#[test]
fn a_valid_plan_passes_validation() {
    assert!(valid_plan().validate().is_ok());
}

#[test]
fn named_list_segment_is_part_of_the_contract() {
    let path = vec![
        PathSegment::Named {
            key: s("servers"),
            match_fields: vec![EditField { name: s("name"), value: EditValue::String(s("primary")) }],
        },
        key("ip"),
    ];
    assert_eq!(describe_path(&path), "servers[name=\"primary\"].ip");
    let p = plan("1.0", vec![intent(EditOp::Assign, path, Some(EditValue::String(s("10.0.0.9"))))]);
    assert!(p.validate().is_ok());
}

#[test]
fn contract_rejects_unknown_fields() {
    let raw = JsonValue::Object(vec![
        member("version", JsonValue::String(s("1.0"))),
        member(
            "edits",
            JsonValue::Array(vec![JsonValue::Object(vec![
                member("guess", JsonValue::Bool(true)),
                member("op", JsonValue::String(s("set"))),
                member("path", JsonValue::Array(vec![JsonValue::String(s("a"))])),
                member("value", JsonValue::Number(s("1"))),
            ])]),
        ),
    ]);
    let decoded = plan("1.0", vec![intent(EditOp::Assign, vec![key("a")], Some(EditValue::Integer(1)))]);
    let violations = EditPlan::from_json_parts(&raw, Ok(decoded)).expect_err("未知字段必须被拒绝");
    assert_eq!(codes(&violations), vec![s("unknown_field")]);
    assert_eq!(violations[0].message, "编辑不支持字段 'guess'");
    assert_eq!(violations[0].edit_index, Some(0));
}

#[test]
fn contract_rejects_index_based_list_targeting() {
    let raw = JsonValue::Object(vec![
        member(
            "edits",
            JsonValue::Array(vec![JsonValue::Object(vec![
                member("op", JsonValue::String(s("set"))),
                member(
                    "path",
                    JsonValue::Array(vec![
                        JsonValue::Object(vec![
                            member("index", JsonValue::Number(s("0"))),
                            member("key", JsonValue::String(s("servers"))),
                        ]),
                        JsonValue::String(s("ip")),
                    ]),
                ),
                member("value", JsonValue::String(s("1"))),
            ])]),
        ),
        member("version", JsonValue::String(s("1.0"))),
    ]);
    let mut out = Vec::new();
    check_contract_shape(&raw, &mut out);
    assert_eq!(codes(&out), vec![s("unknown_field")]);
    assert_eq!(out[0].message, "路径段不支持字段 'index'");
    let violations =
        EditPlan::from_json_parts(&raw, Err(s("data did not match any variant"))).expect_err("按下标定位必须被拒绝");
    assert_eq!(codes(&violations), vec![s("invalid_shape")]);
    assert_eq!(violations[0].message, "data did not match any variant");
}

#[test]
fn contract_rejects_inconsistent_operations() {
    let missing_value = plan("1.0", vec![intent(EditOp::Insert, vec![key("a")], None)]).validate().expect_err("insert 缺少 value 必须被拒绝");
    assert_eq!(codes(&missing_value), vec![s("missing_value")]);
    assert_eq!(missing_value[0].message, "op 'insert' 必须提供 value");

    let value_on_delete = plan("1.0", vec![intent(EditOp::Delete, vec![key("a")], Some(EditValue::Integer(1)))])
        .validate()
        .expect_err("delete 带 value 必须被拒绝");
    assert_eq!(codes(&value_on_delete), vec![s("unexpected_value")]);
}

#[test]
fn contract_rejects_unsupported_version_and_empty_plan() {
    let bad_version = plan("2.0", vec![intent(EditOp::Delete, vec![key("a")], None)]).validate().expect_err("不支持的版本必须被拒绝");
    assert_eq!(codes(&bad_version), vec![s("unsupported_version")]);
    assert_eq!(bad_version[0].message, "契约版本 '2.0' 不受支持，当前只接受 1.0");

    let empty = plan("1.0", vec![]).validate().expect_err("空计划必须被拒绝");
    assert_eq!(codes(&empty), vec![s("empty_edits")]);
}

#[test]
fn contract_rejects_duplicate_targets() {
    let p = plan(
        "1.0",
        vec![
            intent(EditOp::Assign, vec![key("a")], Some(EditValue::Integer(1))),
            intent(EditOp::Delete, vec![key("b")], None),
            intent(EditOp::Delete, vec![key("a")], None),
        ],
    );
    let violations = p.validate().expect_err("重复目标必须被拒绝");
    assert_eq!(codes(&violations), vec![s("duplicate_target")]);
    assert_eq!(violations[0].message, "同一目标在一次计划中出现多次（edits[0] 与 edits[2] 都指向 a）");
    assert_eq!(violations[0].edit_index, Some(2));
    assert_eq!(violations[0].describe(), "edits[2] duplicate_target: 同一目标在一次计划中出现多次（edits[0] 与 edits[2] 都指向 a）");
}

#[test]
fn the_latest_earlier_edit_is_named_in_a_duplicate() {
    let p = plan(
        "1.0",
        vec![
            intent(EditOp::Delete, vec![key("a")], None),
            intent(EditOp::Delete, vec![key("a")], None),
            intent(EditOp::Delete, vec![key("a")], None),
        ],
    );
    let violations = p.validate().unwrap_err();
    assert_eq!(violations.len(), 2);
    assert_eq!(violations[1].message, "同一目标在一次计划中出现多次（edits[1] 与 edits[2] 都指向 a）");
}

#[test]
fn contract_rejects_empty_named_list_match() {
    let p = plan(
        "1.0",
        vec![intent(EditOp::Delete, vec![PathSegment::Named { key: s("servers"), match_fields: vec![] }], None)],
    );
    let violations = p.validate().expect_err("空 match 必须被拒绝");
    assert_eq!(codes(&violations), vec![s("empty_match")]);
}

#[test]
fn every_violation_is_reported_in_order() {
    let p = EditPlan {
        version: s("0.9"),
        file: None,
        edits: vec![EditIntent {
            op: EditOp::Assign,
            path: vec![],
            value: None,
            reason: None,
            expect: Some(EditExpectation { value: None }),
        }, intent(EditOp::Assign, vec![key("  ")], Some(EditValue::Bool(true)))],
    };
    let violations = p.validate().unwrap_err();
    assert_eq!(
        codes(&violations),
        vec![s("unsupported_version"), s("empty_path"), s("missing_value"), s("empty_expect"), s("empty_key")]
    );
    assert_eq!(violations[0].describe(), "unsupported_version: 契约版本 '0.9' 不受支持，当前只接受 1.0");
    assert_eq!(violations[4].edit_index, Some(1));
}

#[test]
fn a_plan_that_is_not_an_object_has_the_wrong_shape() {
    let mut out = Vec::new();
    check_contract_shape(&JsonValue::Array(vec![]), &mut out);
    assert_eq!(codes(&out), vec![s("invalid_shape")]);
    assert_eq!(out[0].message, "编辑计划必须是对象");

    let mut out = Vec::new();
    let raw = JsonValue::Object(vec![
        member("edits", JsonValue::Array(vec![JsonValue::Null, JsonValue::Object(vec![
            member("expect", JsonValue::Object(vec![member("value", JsonValue::Null), member("was", JsonValue::Null)])),
        ])])),
        member("extra", JsonValue::Null),
    ]);
    check_contract_shape(&raw, &mut out);
    assert_eq!(codes(&out), vec![s("unknown_field"), s("invalid_shape"), s("unknown_field")]);
    assert_eq!(out[0].message, "编辑计划不支持字段 'extra'");
    assert_eq!(out[0].edit_index, None);
    assert_eq!(out[1].edit_index, Some(0));
    assert_eq!(out[2].message, "expect 不支持字段 'was'");
}

#[test]
fn a_consistent_decoded_plan_is_accepted() {
    let raw = JsonValue::Object(vec![member("edits", JsonValue::Array(vec![])), member("version", JsonValue::String(s("1.0")))]);
    let accepted = EditPlan::from_json_parts(&raw, Ok(valid_plan())).expect("合法计划应当通过");
    assert_eq!(accepted.edits.len(), 1);
    assert_eq!(accepted.file.as_deref(), Some("config.vcf"));
}

#[test]
fn refusal_codes_are_stable_and_unique() {
    let refusals = vec![
        EditRefusal::InvalidPlan(vec![]),
        EditRefusal::ParseFailed(s("x")),
        EditRefusal::TargetNotFound { path: s("a") },
        EditRefusal::TargetAmbiguous { path: s("a"), matches: 2 },
        EditRefusal::TargetAlreadyExists { path: s("a") },
        EditRefusal::ExpectationMismatch { path: s("a"), expected: s("1"), actual: s("2") },
        EditRefusal::UnsupportedTarget { path: s("a"), reason: s("r") },
        EditRefusal::ValidationFailed { path: s("a"), message: s("m") },
        EditRefusal::SecurityRejected { path: s("a"), findings: vec![s("SEC-005")], instances: vec![s("SEC-005 @ a")] },
    ];
    let mut codes: Vec<&str> = refusals.iter().map(EditRefusal::code).collect();
    codes.sort();
    codes.dedup();
    assert_eq!(codes.len(), refusals.len(), "每个拒绝原因都要有独立稳定的码");
    for refusal in &refusals {
        assert!(!refusal.code().is_empty());
        assert!(refusal.details().is_object(), "结构化细节必须是对象");
    }
}

#[test]
fn refusals_read_as_sentences() {
    let ambiguous = EditRefusal::TargetAmbiguous { path: s("servers[name=\"a\"]"), matches: 2 };
    assert_eq!(ambiguous.describe(), "目标有歧义：servers[name=\"a\"] 命中了 2 个元素，必须唯一命中");
    let invalid = EditRefusal::InvalidPlan(vec![
        PlanViolation::new("empty_edits", "编辑计划至少要包含一条编辑", None),
        PlanViolation::new("empty_path", "路径不能为空", Some(3)),
    ]);
    assert_eq!(
        invalid.describe(),
        "编辑计划不合法：empty_edits: 编辑计划至少要包含一条编辑; edits[3] empty_path: 路径不能为空"
    );
    let rejected = EditRefusal::SecurityRejected {
        path: s("<result>"),
        findings: vec![s("SEC-001"), s("SEC-005")],
        instances: vec![s("SEC-001 @ password"), s("SEC-005 @ tls_verify")],
    };
    assert_eq!(rejected.describe(), "改动引入新的安全风险：<result>（SEC-001, SEC-005）");
}

#[test]
fn refusal_details_carry_the_fields() {
    let details = EditRefusal::TargetAmbiguous { path: s("a"), matches: 3 }.details();
    match details {
        JsonValue::Object(ms) => {
            assert_eq!(ms.len(), 2);
            assert_eq!(ms[0].key, "matches");
            assert!(matches!(&ms[0].value, JsonValue::Number(n) if n == "3"));
            assert_eq!(ms[1].key, "path");
        },
        _ => panic!("details must be an object"),
    }
    let invalid = EditRefusal::InvalidPlan(vec![PlanViolation::new("empty_path", "路径不能为空", None)]).details();
    let violations = invalid.get("violations").expect("violations member");
    match violations {
        JsonValue::Array(items) => {
            assert_eq!(items.len(), 1);
            assert!(matches!(items[0].get("edit_index"), Some(JsonValue::Null)));
            assert!(matches!(items[0].get("code"), Some(JsonValue::String(c)) if c == "empty_path"));
        },
        _ => panic!("violations must be an array"),
    }
}

#[test]
fn contract_values_render_through_the_formatter_escaping_rules() {
    let value = EditValue::String(s("say \"hi\"\n"));
    let rendered = render_value(&value.to_ast_value(), 0);
    assert_eq!(rendered, "\"say \\\"hi\\\"\\n\"");
}

#[test]
fn contract_values_become_tree_values() {
    let table = EditValue::Table(vec![
        EditField { name: s("count"), value: EditValue::Integer(3) },
        EditField { name: s("my key"), value: EditValue::Array(vec![EditValue::Bool(true), EditValue::Float(s("1.5"))]) },
    ]);
    match table.to_ast_value() {
        Value::InlineTable(t) => {
            assert_eq!(t.entries.len(), 2);
            assert_eq!(t.entries[0].key, Key::BareKey(s("count")));
            assert_eq!(t.entries[1].key, Key::QuotedKey(s("my key")));
            assert!(matches!(t.entries[0].value, Value::Scalar(ScalarValue::Number(_))));
            assert!(matches!(&t.entries[1].value, Value::Array(a) if a.elements.len() == 2));
        },
        _ => panic!("a table becomes an inline table"),
    }
}

#[test]
fn keys_are_bare_only_when_safe() {
    assert_eq!(key_for("server_port"), Key::BareKey(s("server_port")));
    assert_eq!(key_for("_a-1"), Key::BareKey(s("_a-1")));
    assert_eq!(key_for("1abc"), Key::QuotedKey(s("1abc")));
    assert_eq!(key_for(""), Key::QuotedKey(s("")));
    assert_eq!(key_for("a.b"), Key::QuotedKey(s("a.b")));
    assert_eq!(key_for("名字"), Key::QuotedKey(s("名字")));
}

#[test]
fn contract_values_print_as_compact_json() {
    let value = EditValue::Table(vec![
        EditField { name: s("enabled"), value: EditValue::Bool(true) },
        EditField { name: s("name"), value: EditValue::String(s("a\"b\u{1}")) },
        EditField { name: s("tags"), value: EditValue::Array(vec![EditValue::Integer(-3), EditValue::Float(s("1.5"))]) },
    ]);
    assert_eq!(value.to_text(), "{\"enabled\":true,\"name\":\"a\\\"b\\u0001\",\"tags\":[-3,1.5]}");
    assert_eq!(EditValue::Array(vec![]).to_text(), "[]");
    assert_eq!(EditOp::Assign.as_str(), "set");
    assert_eq!(EditOp::Insert.as_str(), "insert");
    assert_eq!(EditOp::Delete.as_str(), "delete");
}

#[test]
fn ast_scalars_are_readable_as_contract_values() {
    let ast = verseconf::parse("port = 8080\ntimeout = 30s\ncreated = 2024-01-15T10:30:00Z\n").unwrap();
    let root = &ast.root;

    assert_eq!(EditValue::from_ast_value(&root.get("port").unwrap().value), Some(EditValue::Integer(8080)));
    assert_eq!(EditValue::from_ast_value(&root.get("timeout").unwrap().value), Some(EditValue::String(s("30s"))));
    assert_eq!(
        EditValue::from_ast_value(&root.get("created").unwrap().value),
        Some(EditValue::String(s("2024-01-15T10:30:00Z")))
    );
}

#[test]
fn tables_read_as_maps_in_name_order_with_the_last_value_kept() {
    let ast = verseconf::parse("t = { b = 1, a = \"x\", b = 2 }\nlist = [1, 2.5, true]\n").unwrap();
    let t = EditValue::from_ast_value(&ast.root.get("t").unwrap().value);
    assert_eq!(
        t,
        Some(EditValue::Table(vec![
            EditField { name: s("a"), value: EditValue::String(s("x")) },
            EditField { name: s("b"), value: EditValue::Integer(2) },
        ]))
    );
    let list = EditValue::from_ast_value(&ast.root.get("list").unwrap().value);
    assert_eq!(
        list,
        Some(EditValue::Array(vec![EditValue::Integer(1), EditValue::Float(s("2.5")), EditValue::Bool(true)]))
    );
}

#[test]
fn table_blocks_read_as_nested_maps() {
    let ast = verseconf::parse("server {\n  port = 80\n  tls {\n    on = true\n  }\n}\n").unwrap();
    let whole = Value::TableBlock(ast.root);
    assert_eq!(
        EditValue::from_ast_value(&whole),
        Some(EditValue::Table(vec![EditField {
            name: s("server"),
            value: EditValue::Table(vec![
                EditField { name: s("port"), value: EditValue::Integer(80) },
                EditField {
                    name: s("tls"),
                    value: EditValue::Table(vec![EditField { name: s("on"), value: EditValue::Bool(true) }]),
                },
            ]),
        }]))
    );
}

#[test]
fn values_that_cannot_be_read_for_sure_are_not_guessed() {
    let ast = verseconf::parse("value = 10 / 0\nsum = 1 + 2\n").unwrap();
    assert_eq!(EditValue::from_ast_value(&ast.root.get("value").unwrap().value), None);
    assert_eq!(EditValue::from_ast_value(&ast.root.get("sum").unwrap().value), None);
    let with_include = verseconf::parse("@include \"other.vcf\"\na = 1\n").unwrap();
    assert_eq!(EditValue::from_ast_value(&Value::TableBlock(with_include.root)), None);
}

#[test]
fn contract_values_read_back_after_rendering() {
    let value = EditValue::Table(vec![
        EditField { name: s("a key"), value: EditValue::Array(vec![EditValue::Integer(-1), EditValue::Float(s("0.25"))]) },
        EditField { name: s("flag"), value: EditValue::Bool(false) },
        EditField {
            name: s("inner"),
            value: EditValue::Table(vec![EditField { name: s("x"), value: EditValue::String(s("y\n")) }]),
        },
    ]);
    let back = EditValue::from_ast_value(&value.to_ast_value());
    assert_eq!(back, Some(value));
}
