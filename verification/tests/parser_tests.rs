use verseconf::parser::{ParseConfig, Parser, WarningCategory};
use verseconf::{parse, parse_with_config};

#[test]
fn test_parser_basic() {
    let parser = Parser::new("\nname = \"test\"\nversion = \"1.0.0\"\n".to_string());
    assert!(parser.parse().is_ok());
}

#[test]
fn test_parser_with_table() {
    let parser = Parser::new("\ndatabase {\n    host = \"localhost\"\n    port = 5432\n}\n".to_string());
    assert!(parser.parse().is_ok());
}

#[test]
fn test_parser_with_array() {
    let parser = Parser::new("\nfeatures = [\n    \"auth\",\n    \"logging\",\n]\n".to_string());
    assert!(parser.parse().is_ok());
}

#[test]
fn test_parser_with_metadata() {
    let parser = Parser::new("\nport = 8080 #@ range(1024..65535), description=\"服务器端口\"\n".to_string());
    assert!(parser.parse().is_ok());
}

#[test]
fn parse_keeps_the_source() {
    let ast = parse("a = 1\n").unwrap();
    assert_eq!(ast.source.content, "a = 1\n");
    assert!(ast.source.path.is_none());
}

#[test]
fn lexical_and_syntax_errors_are_told_apart() {
    let e = Parser::new("a = $".to_string()).parse().unwrap_err();
    assert!(e.is_lexical());
    let e = Parser::new("= 1".to_string()).parse().unwrap_err();
    assert!(!e.is_lexical());
}

#[test]
fn tolerant_mode_reports_duplicate_keys() {
    let config = ParseConfig { tolerant: true, collect_warnings: true };
    let res = parse_with_config("a = 1\na = 2\nt {\n  b = 1\n  b = 2\n}\n", config).unwrap();
    assert_eq!(res.warnings.len(), 2);
    assert!(res.warnings[0].message.contains("'a'"));
    assert!(res.warnings[1].message.contains("'t.b'"));
    assert_eq!(res.warnings[0].category, WarningCategory::Other);
    assert!(res.has_warnings());
}

#[test]
fn tolerant_mode_reports_an_empty_document() {
    let config = ParseConfig { tolerant: true, collect_warnings: false };
    let res = parse_with_config("  \n\t", config).unwrap();
    assert_eq!(res.warnings.len(), 1);
    assert_eq!(res.warnings[0].message, "文件为空，没有任何配置项");
}

#[test]
fn strict_mode_collects_no_warnings() {
    let res = parse_with_config("a = 1\na = 2\n", ParseConfig::default()).unwrap();
    assert!(!res.has_warnings());
}

#[test]
fn schema_field_properties_are_read_in_order() {
    let source = "#@schema {\n  password {\n    type = \"string\"\n    required = true\n    sensitive = true\n    desc = \"secret\"\n    enum = [\"x\", \"y\"]\n  }\n  port {\n    type = \"integer\"\n    required = false\n    range = (1..65535)\n  }\n  db {\n    host {\n      required = true\n    }\n  }\n}\npassword = \"x\"\nport = 1\n";
    let ast = verseconf::parse(source).unwrap();
    let schema = ast.schema.unwrap();
    assert_eq!(schema.fields.len(), 3);
    let db = &schema.fields[2];
    assert!(matches!(db.field_type, verseconf::ast::SchemaType::Table));
    assert_eq!(db.nested_fields.len(), 1);
    assert_eq!(db.nested_fields[0].name, "host");
    assert!(db.nested_fields[0].required);
    let password = &schema.fields[0];
    assert_eq!(password.name, "password");
    assert!(password.required);
    assert!(password.sensitive);
    assert_eq!(password.desc.as_deref(), Some("secret"));
    let texts: Vec<String> = password
        .enum_values
        .as_ref()
        .unwrap()
        .iter()
        .map(|v| match v {
            verseconf::ast::ScalarValue::String(t) => t.clone(),
            _ => String::new(),
        })
        .collect();
    assert_eq!(texts, vec!["x".to_string(), "y".to_string()]);
    let port = &schema.fields[1];
    assert_eq!(port.name, "port");
    assert!(!port.required);
    assert!(!port.sensitive);
    assert!(matches!(port.field_type, verseconf::ast::SchemaType::Integer));
    let range = port.range.as_ref().unwrap();
    assert_eq!((range.min, range.max), (Some(1), Some(65535)));
}
