use verseconf::engine::diff::{DiffEntry, DiffResult, DiffType};
use verseconf::engine::diff_comparator::{diff_sources, AstDiffer};
use verseconf::engine::diff_formatter::{escape_json_string, DiffFormat, DiffFormatter};
use verseconf::parse;

#[test]
fn test_diff_added_key() {
    let old = "name = \"test\"";
    let new = "name = \"test\"\nport = 8080";
    let diff = AstDiffer::diff(&parse(old).unwrap(), &parse(new).unwrap());
    assert!(diff.entries.iter().any(|e| e.path == "port" && e.diff_type == DiffType::Added));
}

#[test]
fn test_diff_removed_key() {
    let old = "name = \"test\"\nport = 8080";
    let new = "name = \"test\"";
    let diff = AstDiffer::diff(&parse(old).unwrap(), &parse(new).unwrap());
    assert!(diff.entries.iter().any(|e| e.path == "port" && e.diff_type == DiffType::Removed));
}

#[test]
fn test_diff_modified_value() {
    let diff = AstDiffer::diff(&parse("port = 8080").unwrap(), &parse("port = 9090").unwrap());
    assert!(diff.entries.iter().any(|e| {
        e.path == "port"
            && e.diff_type == DiffType::Modified
            && e.old_value == Some("8080".to_string())
            && e.new_value == Some("9090".to_string())
    }));
}

#[test]
fn test_diff_nested_tables() {
    let old = "server {\n    host = \"localhost\"\n    port = 8080\n}";
    let new = "server {\n    host = \"0.0.0.0\"\n    port = 8080\n}";
    let diff = AstDiffer::diff(&parse(old).unwrap(), &parse(new).unwrap());
    assert!(diff.entries.iter().any(|e| e.path == "server.host" && e.diff_type == DiffType::Modified));
}

#[test]
fn test_diff_stats() {
    let old = "a = 1\nb = 2\nc = 3";
    let new = "a = 1\nb = 20\nd = 4";
    let diff = AstDiffer::diff(&parse(old).unwrap(), &parse(new).unwrap());
    let stats = diff.stats();
    assert_eq!(stats.added, 1);
    assert_eq!(stats.removed, 1);
    assert_eq!(stats.modified, 1);
    assert_eq!(stats.unchanged, 1);
}

fn create_test_diff() -> DiffResult {
    let old = "name = \"test\"\nport = 8080";
    let new = "name = \"test\"\nport = 9090\nhost = \"localhost\"";
    AstDiffer::diff(&parse(old).unwrap(), &parse(new).unwrap())
}

#[test]
fn test_format_text() {
    let output = DiffFormatter::format(&create_test_diff(), DiffFormat::Text);
    assert!(output.contains("+ host:"));
    assert!(output.contains("~ port:"));
    assert!(output.contains("added"));
    assert!(output.contains("modified"));
}

#[test]
fn test_format_json() {
    let output = DiffFormatter::format(&create_test_diff(), DiffFormat::Json);
    assert!(output.contains("\"type\":\"added\""));
    assert!(output.contains("\"type\":\"modified\""));
    assert!(output.contains("\"path\":\"host\""));
}

#[test]
fn test_format_markdown() {
    let output = DiffFormatter::format(&create_test_diff(), DiffFormat::Markdown);
    assert!(output.contains("# Configuration Diff"));
    assert!(output.contains("| Type | Path |"));
    assert!(output.contains("➕ Added"));
    assert!(output.contains("✏️ Modified"));
}

#[test]
fn stats_count_every_entry_once() {
    let mut d = DiffResult::new();
    d.add_entry(DiffEntry::added("a", "1"));
    d.add_entry(DiffEntry::removed("b", "2"));
    d.add_entry(DiffEntry::modified("c", "3", "4"));
    let s = d.stats();
    assert_eq!((s.added, s.removed, s.modified, s.unchanged, s.total), (1, 1, 1, 0, 3));
    assert_eq!(s.describe(), "1 added, 1 removed, 1 modified, 0 unchanged (3 total)");
}

#[test]
fn text_format_is_exact() {
    let mut d = DiffResult::new().with_sources("old.vcf", "new.vcf");
    d.add_entry(DiffEntry::modified("port", "8080", "9090"));
    let out = DiffFormatter::format(&d, DiffFormat::Text);
    assert_eq!(
        out,
        "--- old.vcf\n+++ new.vcf\n\n~ port: 8080 -> 9090\n\n0 added, 0 removed, 1 modified, 0 unchanged (1 total)\n"
    );
}

#[test]
fn json_format_is_exact_and_escaped() {
    let mut d = DiffResult::new();
    d.add_entry(DiffEntry::added("a\"b", "x\ny"));
    let out = DiffFormatter::format(&d, DiffFormat::Json);
    assert_eq!(
        out,
        "{\"entries\":[{\"type\":\"added\",\"path\":\"a\\\"b\",\"old_value\":null,\"new_value\":\"x\\ny\"}],\"stats\":{\"added\":1,\"removed\":0,\"modified\":0,\"unchanged\":0,\"total\":1}}"
    );
    assert_eq!(escape_json_string("\\\t\r"), "\\\\\\t\\r");
}

#[test]
fn each_key_appears_exactly_once() {
    let diff = diff_sources("a = 1\na = 2\nb = 3", "a = 2\nc = 1").unwrap();
    let mut paths: Vec<&str> = diff.entries.iter().map(|e| e.path.as_str()).collect();
    paths.sort();
    assert_eq!(paths, vec!["a", "b", "c"]);
    let a = diff.entries.iter().find(|e| e.path == "a").unwrap();
    assert_eq!(a.diff_type, DiffType::Unchanged);
}

#[test]
fn diff_sources_reports_parse_errors() {
    assert!(diff_sources("a = $", "a = 1").is_err());
}

#[test]
fn array_tables_and_values_render_in_diffs() {
    let diff = diff_sources("[[s]]\nx = 1\n", "t = [1, \"a\"]\nu = { k = true }\n").unwrap();
    let get = |p: &str| diff.entries.iter().find(|e| e.path == p).unwrap();
    assert_eq!(get("[[s]]").old_value.as_deref(), Some("[array table with 1 entries]"));
    assert_eq!(get("t").new_value.as_deref(), Some("[1, \"a\"]"));
    assert_eq!(get("u").new_value.as_deref(), Some("{ k = true }"));
}

#[test]
fn diffing_the_other_way_swaps_additions_and_removals() {
    let a = "name = \"x\"\nport = 1\nold_key = true";
    let b = "name = \"x\"\nport = 2\nnew_key = false";
    let forward = diff_sources(a, b).unwrap();
    let backward = diff_sources(b, a).unwrap();
    for e in &forward.entries {
        let r = backward.entries.iter().find(|r| r.path == e.path).expect("each key in both diffs");
        let expected = match e.diff_type {
            DiffType::Added => DiffType::Removed,
            DiffType::Removed => DiffType::Added,
            other => other,
        };
        assert_eq!(r.diff_type, expected, "{}", e.path);
        assert_eq!(r.old_value, e.new_value);
        assert_eq!(r.new_value, e.old_value);
    }
    assert_eq!(forward.entries.len(), backward.entries.len());
}
