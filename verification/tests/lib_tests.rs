use verseconf::engine::template::{RenderContext, VariableType};
use verseconf::{parse_template, render_template, LoadOptions};

#[test]
fn parsed_templates_list_their_variables() {
    let t = parse_template("a = {{x}}\nb = {{ y }}\nc = {{x}}").unwrap();
    assert_eq!(t.name, "unnamed");
    assert_eq!(t.version, "1.0");
    let names: Vec<&str> = t.variables.iter().map(|v| v.name.as_str()).collect();
    assert_eq!(names, vec!["x", "y"]);
    assert!(t.variables.iter().all(|v| v.required && v.var_type == VariableType::String));
}

#[test]
fn rendering_errors_become_template_errors() {
    let t = parse_template("a = {{x}}").unwrap();
    let err = render_template(&t, &RenderContext::new()).unwrap_err();
    assert_eq!(err.message(), "undefined variable: x");
    let ok = render_template(&t, &RenderContext::new().with_value("x", "1")).unwrap();
    assert_eq!(ok, "a = 1");
}

#[test]
fn load_options() {
    let d = LoadOptions::default();
    assert!(d.resolve_includes && !d.interpolate_env);
    let o = LoadOptions::without_includes().with_env();
    assert!(!o.resolve_includes && o.interpolate_env);
}
