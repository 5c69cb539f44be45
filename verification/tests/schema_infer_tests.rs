use verseconf::engine::schema_infer::infer_schema;
use verseconf::parse;

#[test]
fn infers_scalar_types() {
    let schema = infer_schema("name = \"svc\"\nport = 8080\nratio = 0.5\ndebug = true\ntimeout = 30s\n").unwrap();
    assert!(schema.contains("type = \"string\""), "{schema}");
    assert!(schema.contains("type = \"integer\""), "{schema}");
    assert!(schema.contains("type = \"float\""), "{schema}");
    assert!(schema.contains("type = \"boolean\""), "{schema}");
    assert!(schema.contains("type = \"duration\""), "{schema}");
}

#[test]
fn infers_nested_tables() {
    let schema = infer_schema("server {\n  host = \"127.0.0.1\"\n  port = 8080\n}\n").unwrap();
    assert!(schema.contains("server {"), "{schema}");
    assert!(schema.contains("type = \"table\""), "{schema}");
    assert!(schema.contains("host {"), "{schema}");
    assert!(schema.contains("port {"), "{schema}");
}

#[test]
fn infers_arrays_and_array_tables() {
    let schema = infer_schema("features = [\"a\", \"b\"]\n[[servers]]\nname = \"primary\"\n").unwrap();
    assert!(schema.contains("features {"), "{schema}");
    assert!(schema.contains("type = \"array\""), "{schema}");
    assert!(schema.contains("servers {"), "{schema}");
}

#[test]
fn does_not_invent_constraints() {
    let schema = infer_schema("port = 8080\n").unwrap();
    assert!(!schema.contains("range"), "{schema}");
    assert!(!schema.contains("enum"), "{schema}");
    assert!(!schema.contains("default"), "{schema}");
    assert!(!schema.contains("pattern"), "{schema}");
}

#[test]
fn marks_present_fields_required() {
    let schema = infer_schema("name = \"x\"\n").unwrap();
    assert!(schema.contains("required = true"), "{schema}");
}

#[test]
fn emits_a_valid_schema_block_that_round_trips() {
    let source = "app_name = \"svc\"\nserver {\n  host = \"127.0.0.1\"\n}\nfeatures = [\"a\"]\n";
    let schema = infer_schema(source).unwrap();
    let combined = format!("{schema}\n{source}");
    parse(&combined).expect("the inferred schema block must parse");
}

#[test]
fn empty_document_is_reported_not_faked() {
    let schema = infer_schema("").unwrap();
    assert!(schema.contains("没有可推断的字段"), "{schema}");
}

#[test]
fn single_field_schema_is_exact() {
    let schema = infer_schema("port = 8080\n").unwrap();
    assert_eq!(
        schema,
        "#@schema {\n  version = \"1.0\"\n\n  port {\n    type = \"integer\"\n    required = true\n  }\n}"
    );
}

#[test]
fn division_by_zero_is_not_given_a_type() {
    let schema = infer_schema("x = 10 / 0\n").unwrap();
    assert!(schema.contains("无法从当前值确定 'x' 的类型"), "{schema}");
}

#[test]
fn unparseable_source_is_an_error() {
    assert!(infer_schema("a = $").is_err());
}
