use verseconf::engine::reporter::{diagnostic_from_parse, Colors, Diagnostic, Reporter, Severity};

#[test]
fn test_diagnostic_basic() {
    let diag = Diagnostic::error("unexpected token")
        .with_code("E001")
        .with_location("test.vcf", 10, 5)
        .with_suggestion("Did you mean to use a quoted key?");
    assert_eq!(diag.severity, Severity::Error);
    assert_eq!(diag.code, Some("E001".to_string()));
    assert_eq!(diag.file, Some("test.vcf".to_string()));
    assert_eq!(diag.line, Some(10));
    assert_eq!(diag.suggestions.len(), 1);
}

#[test]
fn test_reporter_format() {
    let reporter = Reporter::new(Colors::disabled());
    let diag = Diagnostic::error("test error");
    let output = reporter.format_diagnostic(&diag);
    assert!(output.contains("error"));
    assert!(output.contains("test error"));
}

#[test]
fn plain_diagnostic_has_exact_layout() {
    let reporter = Reporter::new(Colors::disabled());
    let diag = Diagnostic::warning("deprecated key")
        .with_code("W7")
        .with_location("a.vcf", 3, 9)
        .with_source_line("old = 1")
        .with_suggestion("rename it");
    let output = reporter.format_diagnostic(&diag);
    assert_eq!(
        output,
        "⚠ warning: [W7] deprecated key\n  --> a.vcf:3:9\n   |\n 3 old = 1\n   |\n  help: rename it\n"
    );
}

#[test]
fn several_diagnostics_are_separated_by_blank_lines() {
    let reporter = Reporter::new(Colors::disabled());
    let out = reporter.format_diagnostics(&vec![Diagnostic::error("a"), Diagnostic::error("b")]);
    assert_eq!(out, "✖ error: a\n\n✖ error: b\n\n");
}

#[test]
fn enabled_colors_wrap_the_severity() {
    let reporter = Reporter::new(Colors::enabled());
    let out = reporter.format_diagnostic(&Diagnostic::error("x"));
    assert!(out.starts_with("\x1b[1m\x1b[31m✖\x1b[0m\x1b[1m error\x1b[0m: x\n"), "{out:?}");
}

#[test]
fn parse_diagnostic_defaults_to_line_one() {
    let d = diagnostic_from_parse("bad", Some("f.vcf"), None);
    assert_eq!(d.line, Some(1));
    assert_eq!(d.column, Some(1));
    let d = diagnostic_from_parse("bad", None, Some(4));
    assert_eq!(d.file, None);
    assert_eq!(d.line, None);
}

#[test]
fn auto_colors_are_all_or_nothing() {
    let c = Colors::auto();
    assert!(c.reset.is_empty() == c.red.is_empty());
}
