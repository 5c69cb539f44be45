//! Tooling around the tree: diffs, diagnostics, templates, schema
//! inference, pretty printing and auditing.

pub mod diff;
pub mod diff_formatter;
pub mod diff_comparator;
pub mod reporter;
pub mod template;
pub mod template_renderer;
pub mod template_enhanced;
pub mod pretty_printer;
pub mod schema_infer;
pub mod audit;
pub mod multi_env;
pub mod version_manager;
pub mod merger;
pub mod perf_cache;
