use verseconf::ast::{Key, KeyValue, MergeStrategy, NumberValue, ScalarValue, TableBlock, TableEntry, Value};
use verseconf::engine::merger::{apply_merge_strategy, AstMerger, FileLoader, MergerConfig};
use verseconf::span::Span;
use verseconf::{parse, parse_with_loader, LoadOptions};

struct MockFileLoader {
    files: Vec<(String, String)>,
}

impl FileLoader for MockFileLoader {
    fn load_file(&self, path: &str) -> Result<String, String> {
        self.files
            .iter()
            .find(|(p, _)| p == path)
            .map(|(_, c)| c.clone())
            .ok_or_else(|| format!("File not found: {}", path))
    }
}

fn loader(files: &[(&str, &str)]) -> MockFileLoader {
    MockFileLoader { files: files.iter().map(|(p, c)| (p.to_string(), c.to_string())).collect() }
}

fn int_kv(key: &str, n: i64) -> TableEntry {
    TableEntry::KeyValue(KeyValue {
        key: Key::BareKey(key.to_string()),
        value: Value::Scalar(ScalarValue::Number(NumberValue::Integer(n))),
        metadata: None,
        comment: None,
        span: Span::unknown(),
    })
}

fn keys(entries: &[TableEntry]) -> Vec<String> {
    entries
        .iter()
        .map(|e| match e {
            TableEntry::KeyValue(kv) => kv.key.as_str().to_string(),
            TableEntry::TableBlock(tb) => format!("{}{{}}", tb.name.clone().unwrap_or_default()),
            TableEntry::ArrayTable(at) => format!("[[{}]]", at.key.as_str()),
            TableEntry::IncludeDirective(i) => format!("@include {}", i.path),
            TableEntry::Comment(_) => "#".to_string(),
        })
        .collect()
}

fn int_of(e: &TableEntry) -> i64 {
    match e {
        TableEntry::KeyValue(kv) => match &kv.value {
            Value::Scalar(ScalarValue::Number(NumberValue::Integer(n))) => *n,
            Value::Expression(verseconf::ast::Expression::Literal(ScalarValue::Number(NumberValue::Integer(n)))) => *n,
            _ => panic!("not an integer"),
        },
        _ => panic!("not a pair"),
    }
}

#[test]
fn test_merge_strategy_override() {
    let target = vec![int_kv("a", 1)];
    let source = TableBlock { name: None, entries: vec![int_kv("a", 2)], span: Span::unknown() };
    let result = apply_merge_strategy(MergeStrategy::Override, target, source);
    assert_eq!(result.len(), 1);
    assert_eq!(int_of(&result[0]), 2);
}

#[test]
fn keyed_merges_keep_one_entry_per_key() {
    let source = || TableBlock { name: None, entries: vec![int_kv("b", 2), int_kv("a", 3), int_kv("b", 4)], span: Span::unknown() };
    let appended = apply_merge_strategy(MergeStrategy::Append, vec![int_kv("a", 1)], source());
    assert_eq!(keys(&appended), vec!["a", "b", "a", "b"]);
    let merged = apply_merge_strategy(MergeStrategy::Merge, vec![int_kv("a", 1)], source());
    assert_eq!(keys(&merged), vec!["a", "b"]);
    assert_eq!(int_of(&merged[0]), 3);
    assert_eq!(int_of(&merged[1]), 4);
}

#[test]
fn deep_merges_append_blocks_of_the_same_name() {
    let block = |entries: Vec<TableEntry>| {
        TableEntry::TableBlock(TableBlock { name: Some("srv".to_string()), entries, span: Span::unknown() })
    };
    let source = TableBlock { name: None, entries: vec![block(vec![int_kv("y", 2)]), int_kv("z", 3)], span: Span::unknown() };
    let merged = apply_merge_strategy(MergeStrategy::DeepMerge, vec![block(vec![int_kv("x", 1)])], source);
    assert_eq!(keys(&merged), vec!["srv{}", "z"]);
    match &merged[0] {
        TableEntry::TableBlock(tb) => assert_eq!(keys(&tb.entries), vec!["x", "y"]),
        _ => panic!("a block"),
    }
}

#[test]
fn includes_are_replaced_by_the_included_entries() {
    let mut ast = parse("a = 1\n@include \"x.vcf\"\nb = 2\n").unwrap();
    let mut merger = AstMerger::new(loader(&[("x.vcf", "c = 3\n@include \"y.vcf\"\n"), ("y.vcf", "d = 4\n")]));
    merger.merge_includes(&mut ast, ".").unwrap();
    assert_eq!(keys(&ast.root.entries), vec!["a", "c", "d", "b"]);
}

#[test]
fn circular_includes_are_refused() {
    let mut ast = parse("@include \"x.vcf\"\n").unwrap();
    let mut merger = AstMerger::new(loader(&[("x.vcf", "@include \"x.vcf\"\n")]));
    let error = merger.merge_includes(&mut ast, ".").unwrap_err();
    assert_eq!(error, "Circular include detected: \"x.vcf\"");
    assert!(ast.root.entries.is_empty());
}

#[test]
fn nesting_deeper_than_the_limit_is_refused() {
    let mut ast = parse("@include \"a.vcf\"\n").unwrap();
    let files = loader(&[("a.vcf", "@include \"b.vcf\"\n"), ("b.vcf", "k = 1\n")]);
    let mut merger = AstMerger::new(files).with_config(MergerConfig { max_include_depth: 2, strategy: MergeStrategy::DeepMerge });
    let error = merger.merge_includes(&mut ast, ".").unwrap_err();
    assert_eq!(error, "Maximum include depth exceeded: 2");
}

#[test]
fn missing_and_broken_files_are_reported() {
    let mut ast = parse("@include \"none.vcf\"\n").unwrap();
    let mut merger = AstMerger::new(loader(&[]));
    assert_eq!(merger.merge_includes(&mut ast, ".").unwrap_err(), "File not found: none.vcf");
    let mut ast = parse("@include \"bad.vcf\"\n").unwrap();
    let mut merger = AstMerger::new(loader(&[("bad.vcf", "a = \n")]));
    assert!(merger.merge_includes(&mut ast, ".").unwrap_err().starts_with("Parse error in bad.vcf: "));
}

#[test]
fn parsing_with_a_loader_resolves_includes_only_when_asked() {
    let source = "@include \"x.vcf\"\n";
    let resolved = parse_with_loader(source, Some("."), &LoadOptions::default(), loader(&[("x.vcf", "k = 1\n")])).unwrap();
    assert_eq!(keys(&resolved.root.entries), vec!["k"]);
    let kept = parse_with_loader(source, Some("."), &LoadOptions::without_includes(), loader(&[])).unwrap();
    assert_eq!(keys(&kept.root.entries), vec!["@include x.vcf"]);
    let unknown_file = parse_with_loader(source, None, &LoadOptions::default(), loader(&[])).unwrap();
    assert_eq!(keys(&unknown_file.root.entries), vec!["@include x.vcf"]);
    let failed = parse_with_loader(source, Some("."), &LoadOptions::default(), loader(&[])).unwrap_err();
    assert_eq!(failed.describe(), "Include error: File not found: x.vcf");
}
