use verseconf::engine::pretty_printer::{quote_string, render_duration, PrettyPrintConfig, PrettyPrinter};
use verseconf::parser::Parser;
use verseconf::format_with_config;

#[test]
fn test_pretty_print_basic() {
    let ast = Parser::new("\nname = \"test\"\nport = 8080\n".to_string()).parse().unwrap();
    let output = PrettyPrinter::print(&ast);
    assert!(output.contains("name = \"test\""));
    assert!(output.contains("port = 8080"));
}

#[test]
fn test_pretty_print_custom_indent() {
    let ast = Parser::new("\napp {\n    name = \"test\"\n}\n".to_string()).parse().unwrap();
    let config = PrettyPrintConfig { indent_size: 4, ..Default::default() };
    let output = PrettyPrinter::print_with_config(&ast, config);
    assert!(output.contains("    name = \"test\""));
}

#[test]
fn test_pretty_print_array() {
    let ast = Parser::new("\nitems = [1, 2, 3]\n".to_string()).parse().unwrap();
    let output = PrettyPrinter::print(&ast);
    assert!(output.contains("[1, 2, 3]"));
}

#[test]
fn test_pretty_print_preserves_comments_metadata_and_schema() {
    let source = "# Keep this schema comment\n#@schema {\n  version = \"1.0\"\n  settings {\n    type = \"table\"\n    value {\n      type = \"string\"\n      default = \"ready\"\n    }\n  }\n}\n# Keep this config comment\nsettings {\n  value = \"original\" #@ description=\"A \\\"quoted\\\" value\" # inline note\n}\n";
    let ast = Parser::new(source.to_string()).parse().unwrap();
    let formatted = PrettyPrinter::print(&ast);
    assert!(formatted.contains("# Keep this schema comment"));
    assert!(formatted.contains("#@schema {"));
    assert!(formatted.contains("# Keep this config comment"));
    assert!(formatted.contains("description=\"A \\\"quoted\\\" value\""));
    assert!(formatted.contains("# inline note"));
    let reparsed = Parser::new(formatted.clone()).parse().unwrap();
    let reformatted = PrettyPrinter::print(&reparsed);
    assert_eq!(formatted, reformatted);
}

#[test]
fn test_pretty_print_escapes_strings_and_preserves_block_comments() {
    let source = "value = \"a \\\"quote\\\" and \\\\path\\nnext\"\n/* block note */\n";
    let ast = Parser::new(source.to_string()).parse().unwrap();
    let formatted = PrettyPrinter::print(&ast);
    assert!(formatted.contains("value = \"a \\\"quote\\\" and \\\\path\\nnext\""));
    assert!(formatted.contains("/* block note */"));
    let reparsed = Parser::new(formatted.clone()).parse().unwrap();
    assert_eq!(formatted, PrettyPrinter::print(&reparsed));
}

#[test]
fn test_pretty_print_inline_table_preserves_comments_and_metadata() {
    let source = "settings = { port = 8080 #@ required, description=\"service port\" # stable port\n }\n";
    let ast = Parser::new(source.to_string()).parse().unwrap();
    let formatted = PrettyPrinter::print(&ast);
    assert!(formatted.contains("#@ required, description=\"service port\""));
    assert!(formatted.contains("# stable port"));
    let reparsed = Parser::new(formatted.clone()).parse().unwrap();
    assert_eq!(formatted, PrettyPrinter::print(&reparsed));
}

#[test]
fn test_pretty_print_array_table_real_comment_key() {
    let ast = Parser::new("[[servers]]\n_comment = \"application data\"\n".to_string()).parse().unwrap();
    let formatted = PrettyPrinter::print(&ast);
    assert!(formatted.contains("_comment = \"application data\""));
}

#[test]
fn test_pretty_print_array_table_comment_placeholder() {
    let ast = Parser::new("[[servers]]\n# server note\nname = \"primary\"\n".to_string()).parse().unwrap();
    let formatted = PrettyPrinter::print(&ast);
    assert!(formatted.contains("# server note"));
    assert!(!formatted.contains("_comment ="));
}

#[test]
fn canonical_mode_sorts_keys_stably() {
    let out = format_with_config("b = 1\na = 2\nc { z = 1\n y = 2 }\n", PrettyPrintConfig::ai_canonical()).unwrap();
    assert_eq!(out, "a = 2\nb = 1\nc {\n  y = 2\n  z = 1\n}\n");
}

#[test]
fn long_arrays_go_one_per_line() {
    let out = verseconf::format("xs = [1, 2, 3, 4]\n").unwrap();
    assert_eq!(out, "xs = [\n  1,\n  2,\n  3,\n  4,\n]\n");
}

#[test]
fn tabs_indent_nested_tables() {
    let config = PrettyPrintConfig { indent_style: verseconf::engine::pretty_printer::IndentStyle::Tabs, ..Default::default() };
    let out = format_with_config("a {\n b = 1\n}\n", config).unwrap();
    assert_eq!(out, "a {\n\tb = 1\n}\n");
}

#[test]
fn durations_use_the_largest_whole_unit() {
    assert_eq!(render_duration(172800), "2d");
    assert_eq!(render_duration(7200), "2h");
    assert_eq!(render_duration(120), "2m");
    assert_eq!(render_duration(61), "61s");
    assert_eq!(render_duration(0), "0s");
}

#[test]
fn quoting_escapes_specials() {
    assert_eq!(quote_string("a\"b\\c\nd\te\rf"), "\"a\\\"b\\\\c\\nd\\te\\rf\"");
}

#[test]
fn formatting_twice_changes_nothing() {
    let once = verseconf::format("x = 1 # note\nt { y = \"z\" }\n").unwrap();
    let twice = verseconf::format(&once).unwrap();
    assert_eq!(once, twice);
}
