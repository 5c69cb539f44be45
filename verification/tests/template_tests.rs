use verseconf::engine::template::{
    validate_variables, RenderContext, Template, TemplateError, TemplateVariable, VariableType,
};
use verseconf::engine::template_enhanced::{template_name_from_stem, EnhancedTemplate, TemplateRegistry};
use verseconf::engine::template_renderer::{extract_variables, merge_contexts, render_template};

fn create_test_template() -> Template {
    Template {
        name: "test".to_string(),
        description: Some("Test template".to_string()),
        version: "1.0".to_string(),
        variables: vec![
            TemplateVariable {
                name: "host".to_string(),
                var_type: VariableType::Hostname,
                default: Some("localhost".to_string()),
                description: Some("Server hostname".to_string()),
                required: false,
                choices: None,
            },
            TemplateVariable {
                name: "port".to_string(),
                var_type: VariableType::Port,
                default: Some("8080".to_string()),
                description: Some("Server port".to_string()),
                required: true,
                choices: None,
            },
        ],
        content: "server {\n    host = \"{{host}}\"\n    port = {{port}}\n}".to_string(),
    }
}

#[test]
fn test_render_template_basic() {
    let template = create_test_template();
    let context = RenderContext::new().with_value("host", "example.com").with_value("port", "3000");
    let result = render_template(&template, &context).unwrap();
    assert!(result.contains("host = \"example.com\""));
    assert!(result.contains("port = 3000"));
}

#[test]
fn test_render_template_undefined_strict() {
    let template = create_test_template();
    let context = RenderContext::new();
    let result = render_template(&template, &context);
    assert!(result.is_err());
}

#[test]
fn test_render_template_non_strict() {
    let template = create_test_template();
    let context = RenderContext::new().strict_mode(false);
    let result = render_template(&template, &context).unwrap();
    assert!(result.contains("{{host}}"));
    assert!(result.contains("{{port}}"));
}

#[test]
fn test_extract_variables() {
    let content = "host = \"{{host}}\"\nport = {{port}}\nname = \"{{name}}\"";
    let vars = extract_variables(content);
    assert_eq!(vars.len(), 3);
    assert!(vars.contains(&"host".to_string()));
    assert!(vars.contains(&"port".to_string()));
    assert!(vars.contains(&"name".to_string()));
}

#[test]
fn test_merge_contexts() {
    let ctx1 = RenderContext::new().with_value("a", "1");
    let ctx2 = RenderContext::new().with_value("b", "2");
    let merged = merge_contexts(&[ctx1, ctx2]);
    assert_eq!(merged.get("a").unwrap(), "1");
    assert_eq!(merged.get("b").unwrap(), "2");
}

fn create_base_template() -> Template {
    Template {
        name: "base".to_string(),
        description: Some("Base template".to_string()),
        version: "1.0".to_string(),
        variables: vec![TemplateVariable {
            name: "app_name".to_string(),
            var_type: VariableType::String,
            default: Some("MyApp".to_string()),
            description: None,
            required: false,
            choices: None,
        }],
        content: "app_name = \"{{app_name}}\"\n\n{% block server %}\nhost = \"localhost\"\nport = 8080\n{% endblock %}\n\n{% block database %}\ndb_host = \"localhost\"\ndb_port = 5432\n{% endblock %}".to_string(),
    }
}

fn create_server_template() -> Template {
    Template {
        name: "server_config".to_string(),
        description: None,
        version: "1.0".to_string(),
        variables: Vec::new(),
        content: "server {\n    host = \"{{host}}\"\n    port = {{port}}\n}".to_string(),
    }
}

fn empty_template(name: &str, content: &str) -> Template {
    Template {
        name: name.to_string(),
        description: None,
        version: "1.0".to_string(),
        variables: Vec::new(),
        content: content.to_string(),
    }
}

#[test]
fn test_enhanced_template_inheritance() {
    let mut registry = TemplateRegistry::new();
    registry.register(create_base_template());
    let enhanced = EnhancedTemplate::new(empty_template("production", ""))
        .extends("base")
        .add_block("server", "host = \"prod.example.com\"\nport = 443")
        .add_block("database", "db_host = \"db.prod.example.com\"\ndb_port = 5432");
    registry.register_enhanced(enhanced);
    let context = RenderContext::new().with_value("app_name", "ProductionApp");
    let result = registry.render_enhanced("production", &context).unwrap();
    assert!(result.contains("app_name = \"ProductionApp\""));
    assert!(result.contains("host = \"prod.example.com\""));
    assert!(result.contains("port = 443"));
    assert!(result.contains("db_host = \"db.prod.example.com\""));
}

#[test]
fn test_enhanced_template_include() {
    let mut registry = TemplateRegistry::new();
    registry.register(create_server_template());
    let main_template = empty_template(
        "main",
        "# Main configuration\n{% include server_config %}\n\nlogging {\n    level = \"{{log_level}}\"\n}",
    );
    let enhanced = EnhancedTemplate::new(main_template).add_include("server_config");
    registry.register_enhanced(enhanced);
    let context = RenderContext::new()
        .with_value("host", "example.com")
        .with_value("port", "8080")
        .with_value("log_level", "info");
    let result = registry.render_enhanced("main", &context).unwrap();
    assert!(result.contains("host = \"example.com\""));
    assert!(result.contains("port = 8080"));
    assert!(result.contains("level = \"info\""));
}

#[test]
fn test_enhanced_template_missing_base() {
    let registry = TemplateRegistry::new();
    let enhanced = EnhancedTemplate::new(empty_template("child", "")).extends("nonexistent_base");
    let mut registry = registry;
    registry.register_enhanced(enhanced);
    let context = RenderContext::new();
    let result = registry.render_enhanced("child", &context);
    assert!(result.is_err());
}

#[test]
fn test_multiple_includes() {
    let mut registry = TemplateRegistry::new();
    registry.register(empty_template("database", "database {\n    host = \"{{db_host}}\"\n    port = {{db_port}}\n}"));
    registry.register(empty_template("cache", "cache {\n    host = \"{{cache_host}}\"\n    port = {{cache_port}}\n}"));
    let enhanced = EnhancedTemplate::new(empty_template("full_config", "{% include database %}\n{% include cache %}"))
        .add_include("database")
        .add_include("cache");
    registry.register_enhanced(enhanced);
    let context = RenderContext::new()
        .with_value("db_host", "db.example.com")
        .with_value("db_port", "5432")
        .with_value("cache_host", "cache.example.com")
        .with_value("cache_port", "6379");
    let result = registry.render_enhanced("full_config", &context).unwrap();
    assert!(result.contains("host = \"db.example.com\""));
    assert!(result.contains("port = 5432"));
    assert!(result.contains("host = \"cache.example.com\""));
    assert!(result.contains("port = 6379"));
}

#[test]
fn test_template_registry_from_file() {
    let mut registry = TemplateRegistry::new();
    registry.register_file_content("test.vcf", "/tmp/test.vcf.tpl", "name = \"{{name}}\"".to_string());
    assert!(registry.get("test").is_some());
}

#[test]
fn missing_template_is_a_parse_error() {
    let registry = TemplateRegistry::new();
    match registry.render_enhanced("nope", &RenderContext::new()) {
        Err(TemplateError::ParseError(m)) => assert_eq!(m, "Template 'nope' not found"),
        other => panic!("unexpected {other:?}"),
    }
}

#[test]
fn later_values_override_earlier_ones() {
    let ctx = RenderContext::new().with_value("a", "1").with_value("a", "2");
    assert_eq!(ctx.get("a").unwrap(), "2");
    let merged = merge_contexts(&[RenderContext::new().with_value("k", "x"), RenderContext::new().with_value("k", "y")]);
    assert_eq!(merged.get("k").unwrap(), "y");
}

#[test]
fn placeholder_names_are_trimmed_and_deduplicated() {
    let vars = extract_variables("{{ a }} {{a}} {{b}}");
    assert_eq!(vars, vec!["a".to_string(), "b".to_string()]);
}

#[test]
fn rendering_replaces_every_occurrence() {
    let t = empty_template("t", "{{x}}-{{x}}");
    let out = render_template(&t, &RenderContext::new().with_value("x", "7")).unwrap();
    assert_eq!(out, "7-7");
}

#[test]
fn undefined_variable_error_names_the_variable() {
    let t = empty_template("t", "{{ missing }}");
    match render_template(&t, &RenderContext::new()) {
        Err(TemplateError::UndefinedVariable(n)) => assert_eq!(n, "missing"),
        other => panic!("unexpected {other:?}"),
    }
    assert_eq!(TemplateError::UndefinedVariable("x".to_string()).describe(), "undefined variable: x");
}

fn var(name: &str, t: VariableType, required: bool, choices: Option<Vec<String>>) -> TemplateVariable {
    TemplateVariable { name: name.to_string(), var_type: t, default: None, description: None, required, choices }
}

#[test]
fn validation_reports_each_kind_of_problem() {
    let mut t = empty_template("t", "");
    t.variables = vec![var("port", VariableType::Port, true, None)];
    match validate_variables(&t, &vec![]) {
        Err(TemplateError::MissingRequired(n)) => assert_eq!(n, "port"),
        other => panic!("unexpected {other:?}"),
    }
    let vals = vec![("port".to_string(), "0".to_string())];
    match validate_variables(&t, &vals) {
        Err(TemplateError::InvalidValue(m)) => assert_eq!(m, "port 0 is out of range (1-65535)"),
        other => panic!("unexpected {other:?}"),
    }
    let vals = vec![("port".to_string(), "http".to_string())];
    match validate_variables(&t, &vals) {
        Err(TemplateError::InvalidValue(m)) => assert_eq!(m, "'http' is not a valid port number"),
        other => panic!("unexpected {other:?}"),
    }
    assert!(validate_variables(&t, &vec![("port".to_string(), "8080".to_string())]).is_ok());

    t.variables = vec![var("n", VariableType::Integer, false, None), var("b", VariableType::Boolean, false, None)];
    assert!(validate_variables(&t, &vec![("n".to_string(), "-12".to_string()), ("b".to_string(), "TRUE".to_string())]).is_ok());
    match validate_variables(&t, &vec![("n".to_string(), "1.5".to_string())]) {
        Err(TemplateError::InvalidValue(m)) => assert_eq!(m, "'1.5' is not a valid integer"),
        other => panic!("unexpected {other:?}"),
    }
    match validate_variables(&t, &vec![("b".to_string(), "yes".to_string())]) {
        Err(TemplateError::InvalidValue(m)) => assert_eq!(m, "'yes' is not a valid boolean"),
        other => panic!("unexpected {other:?}"),
    }

    t.variables = vec![var("f", VariableType::Float, false, None)];
    assert!(validate_variables(&t, &vec![("f".to_string(), "1e3".to_string())]).is_ok());
    match validate_variables(&t, &vec![("f".to_string(), "one".to_string())]) {
        Err(TemplateError::InvalidValue(m)) => assert_eq!(m, "'one' is not a valid float"),
        other => panic!("unexpected {other:?}"),
    }

    t.variables = vec![var("mode", VariableType::Enum, false, Some(vec!["a".to_string(), "b".to_string()]))];
    match validate_variables(&t, &vec![("mode".to_string(), "c".to_string())]) {
        Err(TemplateError::InvalidValue(m)) => {
            assert_eq!(m, format!("'c' is not one of the allowed values: {:?}", vec!["a", "b"]))
        }
        other => panic!("unexpected {other:?}"),
    }
}

#[test]
fn template_names_drop_vcf_suffixes() {
    assert_eq!(template_name_from_stem("test.vcf"), "test");
    assert_eq!(template_name_from_stem("a.vcf.vcf"), "a");
    assert_eq!(template_name_from_stem("plain"), "plain");
}

#[test]
fn a_placeholder_takes_the_characters_up_to_the_first_closing_brace() {
    let vars = extract_variables("{{{a}} {{b}c}} {{}} {{ d }}");
    assert_eq!(vars, vec!["{a".to_string(), "d".to_string()]);
}
