use verseconf::engine::multi_env::{merge_configs, EnvironmentManager, MultiEnvBuilder};

fn manager() -> EnvironmentManager {
    EnvironmentManager::new(".".to_string())
}

#[test]
fn test_basic_environment() {
    let base_config = r#"
app_name = "myapp"
port = 8080
debug = false
"#;

    let mut manager = manager();
    manager.add_environment("base", base_config, None).unwrap();

    let resolved = manager.resolve_environment("base").unwrap();
    assert!(resolved.contains("app_name = \"myapp\""));
    assert!(resolved.contains("port = 8080"));
}

#[test]
fn test_environment_with_override() {
    let base_config = r#"
app_name = "myapp"
port = 8080
debug = false
"#;

    let dev_config = r#"
port = 3000
debug = true
"#;

    let mut manager = manager();
    manager.add_environment("base", base_config, None).unwrap();
    manager.add_environment("dev", dev_config, Some("base")).unwrap();

    let resolved = manager.resolve_environment("dev").unwrap();
    assert!(resolved.contains("app_name = \"myapp\""));
    assert!(resolved.contains("port = 3000"));
    assert!(resolved.contains("debug = true"));
}

#[test]
fn test_multi_level_inheritance() {
    let base_config = r#"
app_name = "myapp"
port = 8080
debug = false
log_level = "info"
"#;

    let staging_config = r#"
port = 9090
log_level = "warn"
"#;

    let prod_config = r#"
port = 443
log_level = "error"
"#;

    let mut manager = manager();
    manager.add_environment("base", base_config, None).unwrap();
    manager.add_environment("staging", staging_config, Some("base")).unwrap();
    manager.add_environment("prod", prod_config, Some("staging")).unwrap();

    let resolved_prod = manager.resolve_environment("prod").unwrap();
    assert!(resolved_prod.contains("app_name = \"myapp\""));
    assert!(resolved_prod.contains("port = 443"));
    assert!(resolved_prod.contains("log_level = \"error\""));
    assert!(resolved_prod.contains("debug = false"));
}

#[test]
fn test_environment_not_found() {
    let manager = manager();
    let result = manager.resolve_environment("nonexistent");
    assert!(result.is_err());
    assert_eq!(result.unwrap_err(), "Environment 'nonexistent' not found");
}

#[test]
fn test_list_environments() {
    let mut manager = manager();
    manager.add_environment("base", "key = \"value\"", None).unwrap();
    manager.add_environment("dev", "key = \"dev\"", Some("base")).unwrap();
    manager.add_environment("prod", "key = \"prod\"", Some("base")).unwrap();

    let envs = manager.list_environments();
    assert_eq!(envs.len(), 3);
    assert!(envs.contains(&"base"));
    assert!(envs.contains(&"dev"));
    assert!(envs.contains(&"prod"));
}

#[test]
fn test_multi_env_builder() {
    let builder = MultiEnvBuilder::new()
        .with_base(
            r#"
app_name = "myapp"
port = 8080
"#,
        )
        .with_environment(
            "dev",
            r#"
port = 3000
debug = true
"#,
        )
        .with_environment(
            "prod",
            r#"
port = 443
debug = false
"#,
        )
        .extends("dev", "base")
        .extends("prod", "base");

    let manager = builder.build(".".to_string()).unwrap();

    let dev_resolved = manager.resolve_environment("dev").unwrap();
    assert!(dev_resolved.contains("app_name = \"myapp\""));
    assert!(dev_resolved.contains("port = 3000"));
    assert!(dev_resolved.contains("debug = true"));

    let prod_resolved = manager.resolve_environment("prod").unwrap();
    assert!(prod_resolved.contains("app_name = \"myapp\""));
    assert!(prod_resolved.contains("port = 443"));
    assert!(prod_resolved.contains("debug = false"));
}

#[test]
fn test_environment_with_new_fields() {
    let base_config = r#"
app_name = "myapp"
port = 8080
"#;

    let dev_config = r#"
port = 3000
debug = true
log_file = "/tmp/dev.log"
"#;

    let mut manager = manager();
    manager.add_environment("base", base_config, None).unwrap();
    manager.add_environment("dev", dev_config, Some("base")).unwrap();

    let resolved = manager.resolve_environment("dev").unwrap();
    assert!(resolved.contains("app_name = \"myapp\""));
    assert!(resolved.contains("port = 3000"));
    assert!(resolved.contains("debug = true"));
    assert!(resolved.contains("log_file = \"/tmp/dev.log\""));
}

#[test]
fn test_resolve_environment_ast() {
    let base_config = r#"
app_name = "myapp"
port = 8080
"#;

    let dev_config = r#"
port = 3000
"#;

    let mut manager = manager();
    manager.add_environment("base", base_config, None).unwrap();
    manager.add_environment("dev", dev_config, Some("base")).unwrap();

    let ast = manager.resolve_environment_ast("dev").unwrap();
    assert!(!ast.root.entries.is_empty());
}

#[test]
fn overriding_lines_replace_by_key_and_append_otherwise() {
    let merged = merge_configs("a = 1\n# note\nsrv {\nb = 2\n", "  b = 3\n\n# skip\nsrv { x }\nc = 4\nplain\n");
    assert_eq!(merged, "a = 1\n# note\nsrv { x }\nb = 3\nc = 4\nplain");
    assert_eq!(merge_configs("", ""), "");
    assert_eq!(merge_configs("x = 1\r\nx = 2\r\n", "x = 9"), "x = 9\nx = 2");
}

#[test]
fn a_missing_parent_is_reported_by_name() {
    let mut manager = manager();
    manager.add_environment("dev", "a = 1", Some("base")).unwrap();
    assert_eq!(manager.resolve_environment("dev").unwrap_err(), "Environment 'base' not found");
    assert!(manager.get_environment("dev").unwrap().ast.is_some());
    assert!(manager.get_environment("nope").is_none());
}

#[test]
fn adding_a_name_again_replaces_it_in_place() {
    let mut manager = manager();
    manager.add_environment("a", "x = 1", None).unwrap();
    manager.add_environment("b", "x = 2", None).unwrap();
    manager.add_environment("a", "x = 3", None).unwrap();
    assert_eq!(manager.list_environments(), vec!["a", "b"]);
    assert_eq!(manager.resolve_environment("a").unwrap(), "x = 3");
}
