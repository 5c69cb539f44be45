use verseconf::error::{ErrorReport, VerseconfError};
use verseconf::parse;
use verseconf::span::Span;

#[test]
fn report_points_at_the_error() {
    let source = "a = 1\nb = $\nc = 3\n";
    let err = parse(source).unwrap_err();
    assert_eq!(err.kind(), "lexical error");
    let report = ErrorReport::with_path(err, source.to_string(), "cfg.vcf".to_string());
    let text = report.format();
    assert!(text.starts_with("cfg.vcf:2:5: lexical error: "), "{text}");
    assert!(text.contains("  --> cfg.vcf:2:5\n"), "{text}");
    assert!(text.contains("   2 | b = $\n     |     ^\n"), "{text}");
}

#[test]
fn unknown_location_has_no_context() {
    let report = ErrorReport::new(VerseconfError::Template("boom".to_string()), "x = 1".to_string());
    assert_eq!(report.location(), "<source>");
    assert_eq!(report.format(), "<source>: template error: boom\n");
}

#[test]
fn kinds_and_messages() {
    let e = VerseconfError::Semantic { message: "m".to_string(), span: Span::at(0, 1, 4, 2) };
    assert_eq!(e.kind(), "semantic error");
    assert_eq!(e.message(), "m");
    assert_eq!(e.span().line, 4);
    assert_eq!(VerseconfError::Io("gone".to_string()).kind(), "io error");
    assert!(VerseconfError::Include("x".to_string()).span().is_unknown());
}

#[test]
fn context_window_is_limited() {
    let source = "1\n2\n3\n4\n5\n6\n7\n8\n9\n";
    let e = VerseconfError::Semantic { message: "m".to_string(), span: Span::at(0, 1, 5, 1) };
    let mut report = ErrorReport::new(e, source.to_string());
    report.context_lines = 1;
    assert_eq!(report.format(), "<source>:5:1: semantic error: m\n  --> <source>:5:1\n   4 | 4\n   5 | 5\n     | ^\n   6 | 6\n");
}
