use verseconf::edit::guard::{check_write, check_write_with, WriteGuard};
use verseconf::edit::json::JsonValue;
use verseconf::edit::outcome::EditRefusal;

fn string_replace(source: &str, from: &str, to: &str) -> String {
    source.replacen(from, to, 1)
}

fn instances_of(refusal: &EditRefusal) -> Vec<String> {
    match refusal.details().get("instances") {
        Some(JsonValue::Array(items)) => items
            .iter()
            .map(|item| match item {
                JsonValue::String(t) => t.clone(),
                other => panic!("instances 必须是字符串数组，实际 {:?}", other),
            })
            .collect(),
        other => panic!("instances 必须是字符串数组，实际 {:?}", other),
    }
}

#[test]
fn a_preexisting_risk_is_not_blamed_on_this_edit() {
    let baseline = "tls_verify = false\nport = 8080\n";
    let candidate = string_replace(baseline, "8080", "9090");

    check_write(baseline, &candidate).expect("不因文件本来就有的问题拒绝这次改动");
}

#[test]
fn a_safe_equivalent_writing_is_accepted() {
    let baseline = "host = \"db.internal\"\n";
    let candidate = "host = \"db.internal\"\ndb_password = \"${DB_PASSWORD}\"\n";

    check_write(baseline, candidate).expect("等价安全写法必须被接受");
}

#[test]
fn a_benign_edit_beside_a_secret_reference_is_accepted() {
    let baseline = "api_key = \"${API_KEY}\"\nport = 8080\n";
    let candidate = string_replace(baseline, "8080", "9090");

    check_write(baseline, &candidate).expect("与安全无关的改动必须放行");
}

#[test]
fn an_unparseable_candidate_is_refused() {
    let refusal = check_write("port = 8080\n", "port = \n").expect_err("候选无法解析必须拒绝");
    assert_eq!(refusal.code(), "validation_failed");
}

#[test]
fn the_schema_block_itself_is_required_when_a_sidecar_is_given() {
    let refusal = check_write_with("port = 8080\n", "port = 9090\n", &WriteGuard::with_schema("port = 1\n"))
        .expect_err("旁挂文本里没有 #@schema 块时必须拒绝");
    assert_eq!(refusal.code(), "validation_failed");
    assert!(refusal.describe().contains("#@schema"));
}

#[test]
fn audit_can_be_turned_off_explicitly() {
    let schema = "#@schema {\n  tls_verify {\n    type = \"boolean\"\n  }\n}\n";
    let baseline = "tls_verify = true\n";
    let candidate = "tls_verify = false\n";

    check_write_with(baseline, candidate, &WriteGuard::schema_only(schema)).expect("显式关掉审计时不应因安全规则拒绝");
}

#[test]
fn a_newly_introduced_high_risk_instance_is_refused() {
    let baseline = "tls_verify = true\n";
    let candidate = string_replace(baseline, "true", "false");

    let refusal = check_write(baseline, &candidate).expect_err("关掉证书校验必须被拒绝");
    assert_eq!(refusal.code(), "security_rejected");
    assert!(instances_of(&refusal)[0].contains("tls_verify"));
}

#[test]
fn a_second_instance_of_an_existing_rule_is_refused() {
    let baseline = "primary_ssl_verify = false\nsecondary_ssl_verify = true\n";
    let candidate = string_replace(baseline, "secondary_ssl_verify = true", "secondary_ssl_verify = false");

    let refusal = check_write(baseline, &candidate).expect_err("同规则的新实例必须被拒绝");
    assert_eq!(refusal.code(), "security_rejected");
    let instances = instances_of(&refusal).join(", ");
    assert!(instances.contains("secondary_ssl_verify"), "拒绝信息必须指出是哪个实例，实际 {instances}");
}

#[test]
fn a_refusal_names_each_new_instance_as_rule_at_location() {
    let refusal = check_write("tls_verify = true\n", "tls_verify = false\n").expect_err("必须拒绝");
    match &refusal {
        EditRefusal::SecurityRejected { path, findings, instances } => {
            assert_eq!(path, "<result>");
            assert_eq!(findings.len(), 1);
            assert_eq!(instances.len(), 1);
            assert_eq!(instances[0], format!("{} @ tls_verify", findings[0]));
        },
        other => panic!("期望 SecurityRejected，实际 {:?}", other),
    }
}

#[test]
fn a_side_schema_that_does_not_parse_is_refused_as_the_schema() {
    let refusal = check_write_with("port = 8080\n", "port = 9090\n", &WriteGuard::with_schema("port = \n"))
        .expect_err("旁挂 schema 无法解析时必须拒绝");
    match refusal {
        EditRefusal::ValidationFailed { path, message } => {
            assert_eq!(path, "<schema>");
            assert!(message.starts_with("schema 无法解析："));
        },
        other => panic!("期望 ValidationFailed，实际 {:?}", other),
    }
}

#[test]
fn the_default_guard_audits_with_the_candidates_own_schema() {
    let guard = WriteGuard::default();
    assert!(guard.audit);
    assert!(guard.schema.is_none());
    let only = WriteGuard::schema_only("#@schema {\n}\n");
    assert!(!only.audit);
}

#[test]
fn the_candidate_is_never_returned_on_refusal() {
    let result = check_write("tls_verify = true\n", "tls_verify = false\n");
    assert!(result.is_err());
}
