use verseconf::engine::audit::{
    high_risk_instances, introduced_high_risk_instances, render_risk_instance, AuditEngine, AuditFinding, AuditReport,
    AuditSeverity,
};

#[test]
fn test_sensitive_data_detection() {
    let engine = AuditEngine::new();
    let report = engine.audit_source("\ndb_password = \"super_secret_123\"\napi_key = \"sk-1234567890\"\n");
    assert!(report.findings.iter().any(|f| f.rule_id == "SEC-SENS-001"));
}

#[test]
fn test_numeric_sensitive_looking_key_is_advisory_not_blocking() {
    let engine = AuditEngine::new();
    let report = engine.audit_source("max_tokens = 4096\ntoken_budget = 8192\n");
    let sensitive: Vec<&AuditFinding> = report.findings.iter().filter(|f| f.rule_id == "SEC-SENS-001").collect();
    assert_eq!(sensitive.len(), 2);
    assert!(sensitive.iter().all(|f| matches!(f.severity, AuditSeverity::Low)));
}

#[test]
fn test_literal_credentials_stay_blocking() {
    let engine = AuditEngine::new();
    let report = engine.audit_source("db_password = \"hunter2\"\napi_key = \"sk-live-1\"\n");
    let sensitive: Vec<&AuditFinding> = report.findings.iter().filter(|f| f.rule_id == "SEC-SENS-001").collect();
    assert_eq!(sensitive.len(), 2);
    assert!(sensitive.iter().all(|f| matches!(f.severity, AuditSeverity::Critical)));
}

#[test]
fn test_environment_reference_is_not_a_hardcoded_credential() {
    let engine = AuditEngine::new();
    for source in ["api_key = ${ENV:API_KEY}\n", "api_key = \"${ENV:API_KEY}\"\n", "password = \"${ENV:DB_PASSWORD:-default}\"\n"] {
        let report = engine.audit_source(source);
        assert!(report
            .findings
            .iter()
            .filter(|f| f.rule_id == "SEC-SENS-001")
            .all(|f| !matches!(f.severity, AuditSeverity::Critical)), "{source:?}");
    }
}

#[test]
fn test_literal_prefix_before_interpolation_still_blocks() {
    let engine = AuditEngine::new();
    let report = engine.audit_source("api_key = \"sk-live-${ENV:SUFFIX}\"\n");
    assert!(report
        .findings
        .iter()
        .any(|f| f.rule_id == "SEC-SENS-001" && matches!(f.severity, AuditSeverity::Critical)));
}

#[test]
fn test_weak_encryption_detection() {
    let report = AuditEngine::new().audit_source("\nhash_algorithm = \"md5\"\n");
    assert!(report.findings.iter().any(|f| f.rule_id == "SEC-001"));
}

#[test]
fn test_debug_mode_detection() {
    let report = AuditEngine::new().audit_source("\ndebug = true\n");
    assert!(report.findings.iter().any(|f| f.rule_id == "SEC-003"));
}

#[test]
fn test_wildcard_host_detection() {
    let report = AuditEngine::new().audit_source("\nhost = \"0.0.0.0\"\n");
    assert!(report.findings.iter().any(|f| f.rule_id == "SEC-004"));
}

#[test]
fn test_ssl_verification_disabled() {
    let report = AuditEngine::new().audit_source("\nssl_verify = false\n");
    assert!(report.findings.iter().any(|f| f.rule_id == "SEC-005"));
}

#[test]
fn test_audit_report_summary() {
    let report = AuditEngine::new().audit_source("\ndb_password = \"secret\"\ndebug = true\nhost = \"0.0.0.0\"\n");
    assert!(report.summary.total_findings >= 3);
    assert!(report.summary.critical_count >= 1);
}

#[test]
fn test_clean_config() {
    let report = AuditEngine::new().audit_source("\nport = 8080\nhost = \"127.0.0.1\"\ndebug = false\nssl_verify = true\n");
    assert_eq!(report.findings.len(), 0);
}

#[test]
fn test_array_table_values_are_audited() {
    let source = "\n[[servers]]\nname = \"primary\"\npassword = \"hunter2\"\n\n[[servers]]\nname = \"replica\"\n";
    let report = AuditEngine::new().audit_source(source);
    let sensitive: Vec<&AuditFinding> = report.findings.iter().filter(|f| f.rule_id == "SEC-SENS-001").collect();
    assert_eq!(sensitive.len(), 1);
    assert!(matches!(sensitive[0].severity, AuditSeverity::Critical));
    assert_eq!(sensitive[0].location, "servers[0].password");
}

#[test]
fn test_array_table_without_secrets_stays_clean() {
    let source = "\n[[bench]]\nname = \"throughput\"\nharness = false\nmax_tokens = 4096\n";
    let report = AuditEngine::new().audit_source(source);
    assert!(high_risk_instances(&report).is_empty());
}

#[test]
fn second_array_element_is_numbered() {
    let source = "[[s]]\nname = \"a\"\n[[s]]\ntoken = \"x\"\n";
    let report = AuditEngine::new().audit_source(source);
    assert_eq!(report.findings.len(), 1);
    assert_eq!(report.findings[0].location, "s[1].token");
}

#[test]
fn nested_and_array_values_are_located() {
    let source = "db {\n  password = \"p\"\n}\nkeys = [\"a\", \"b\"]\ntokens = [\"t\"]\n";
    let report = AuditEngine::new().audit_source(source);
    let locations: Vec<&str> = report.findings.iter().map(|f| f.location.as_str()).collect();
    assert_eq!(locations, vec!["db.password", "tokens[0]"]);
}

#[test]
fn high_risk_instances_are_sorted_and_counted() {
    let engine = AuditEngine::new();
    let report = engine.audit_source("b_ssl = false\na_password = \"x\"\nc_ssl = false\n");
    let instances = high_risk_instances(&report);
    let keys: Vec<(String, String)> = instances.iter().map(|(k, _)| k.clone()).collect();
    assert_eq!(
        keys,
        vec![
            ("SEC-005".to_string(), "b_ssl".to_string()),
            ("SEC-005".to_string(), "c_ssl".to_string()),
            ("SEC-SENS-001".to_string(), "a_password".to_string()),
        ]
    );
    assert!(instances.iter().all(|(_, n)| *n == 1));
}

#[test]
fn only_newly_introduced_instances_are_reported() {
    let engine = AuditEngine::new();
    let before = high_risk_instances(&engine.audit_source("primary_ssl_verify = false\nsecondary_ssl_verify = true\n"));
    let after = high_risk_instances(&engine.audit_source("primary_ssl_verify = false\nsecondary_ssl_verify = false\n"));
    let introduced = introduced_high_risk_instances(&before, &after);
    assert_eq!(introduced, vec![("SEC-005".to_string(), "secondary_ssl_verify".to_string())]);
    assert_eq!(render_risk_instance(&introduced[0]), "SEC-005 @ secondary_ssl_verify");
    assert!(introduced_high_risk_instances(&after, &before).is_empty());
}

#[test]
fn report_text_lists_counts_and_findings() {
    let report = AuditEngine::new().audit_source("debug = true\n");
    let text = report.describe();
    assert!(text.starts_with("=== Security Audit Report ===\nTotal findings: 1\n  Critical: 0\n  High: 0\n  Medium: 1\n"), "{text}");
    assert!(text.contains("[MEDIUM] SEC-003 - Debug mode enabled\n  Category: Insecure Configuration\n  Location: debug\n"), "{text}");
    let empty = AuditReport::new(Vec::new());
    assert_eq!(empty.summary.total_findings, 0);
}

#[test]
fn unparseable_source_gives_an_empty_report() {
    let report = AuditEngine::new().audit_source("password = $");
    assert_eq!(report.findings.len(), 0);
}
