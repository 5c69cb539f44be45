//! VerseConf: a configuration language with a context-sensitive lexer,
//! a recursive-descent AST builder, and tooling around the tree.

pub mod span;
pub mod text;
pub mod token;
pub mod context;
pub mod chars;
pub mod lexer;
pub mod ast;
pub mod numeric;
pub mod builder;
pub mod parser;
pub mod error;
pub mod pairs;
pub mod engine;
pub mod edit;
pub mod bench;

use vstd::prelude::*;
use crate::ast::Ast;
use crate::error::VerseconfError;
use crate::parser::{parse_failure, parses, ParseConfig, ParseResult, ParseStageError, Parser};
use crate::engine::pretty_printer::{default_config, printed, PrettyPrintConfig, PrettyPrinter};
use crate::engine::template::{RenderContext, Template, TemplateVariable, VariableType, template_error_text};
use crate::engine::template_renderer::{capture_names, distinct, placeholder_captures, render_steps};
use crate::pairs::pairs_view;
use crate::engine::merger::{includes_resolved, AstMerger, FileLoader};

verus! {

/// Parses `source` into a tree that keeps the source text.
pub fn parse(source: &str) -> (r: Result<Ast, VerseconfError>)
    requires
        source@.len() < u32::MAX,
    ensures
        r matches Ok(ast) ==> ast.source.content@ == source@ && ast.source.path is None && parses(source@),
        r matches Err(e) ==> parse_failure(source@, e),
{
    let parser = Parser::new(crate::text::to_owned_string(source));
    match parser.parse() {
        Ok(ast) => Ok(ast),
        Err(e) => Err(VerseconfError::from(e)),
    }
}

/// Parses `source` with the given options; tolerant mode adds warnings.
pub fn parse_with_config(source: &str, config: ParseConfig) -> (r: Result<ParseResult<Ast>, VerseconfError>)
    requires
        source@.len() < u32::MAX,
    ensures
        r matches Ok(res) ==> {
            &&& res.value.source.content@ == source@
            &&& config.tolerant ==> crate::parser::tolerant_warnings(res.warnings@, res.value.root, source@)
            &&& !config.tolerant ==> res.warnings@.len() == 0
            &&& parses(source@)
        },
        r matches Err(e) ==> parse_failure(source@, e),
{
    let parser = Parser::with_config(crate::text::to_owned_string(source), config);
    match parser.parse_with_warnings() {
        Ok(res) => Ok(res),
        Err(e) => Err(VerseconfError::from(e)),
    }
}


/// What a file is loaded with: `@include` resolution and `${VAR}`
/// interpolation.
#[derive(Debug, Clone, Copy)]
pub struct LoadOptions {
    /// Resolve and merge the files `@include` names.
    pub resolve_includes: bool,
    /// Replace `${VAR|default}` in string values from the environment.
    pub interpolate_env: bool,
}

impl Default for LoadOptions {
    fn default() -> (o: LoadOptions)
        ensures
            o.resolve_includes && !o.interpolate_env,
    {
        LoadOptions { resolve_includes: true, interpolate_env: false }
    }
}

impl LoadOptions {
    /// Neither includes nor interpolation.
    pub fn without_includes() -> (o: LoadOptions)
        ensures
            !o.resolve_includes && !o.interpolate_env,
    {
        LoadOptions { resolve_includes: false, interpolate_env: false }
    }

    /// The same options with interpolation on.
    pub fn with_env(self) -> (o: LoadOptions)
        ensures
            o.resolve_includes == self.resolve_includes,
            o.interpolate_env,
    {
        let mut this = self;
        this.interpolate_env = true;
        this
    }
}

/// Parses `source` and prints it back with the default options.
pub fn format(source: &str) -> (r: Result<String, VerseconfError>)
    requires
        source@.len() < u32::MAX,
    ensures
        r matches Ok(s) ==> parses(source@) && exists|ast: Ast| ast.source.content@ == source@ && forall|c: PrettyPrintConfig|
            default_config(c) ==> #[trigger] printed(ast, c, s@),
        r matches Err(e) ==> parse_failure(source@, e),
{
    let ast = match parse(source) {
        Ok(a) => a,
        Err(e) => {
            return Err(e);
        },
    };
    let s = PrettyPrinter::print(&ast);
    assert(ast.source.content@ == source@ && forall|c: PrettyPrintConfig| default_config(c) ==> #[trigger] printed(ast, c, s@));
    Ok(s)
}

/// Parses `source` and prints it back with `config`.
pub fn format_with_config(source: &str, config: PrettyPrintConfig) -> (r: Result<String, VerseconfError>)
    requires
        source@.len() < u32::MAX,
    ensures
        r matches Ok(s) ==> parses(source@) && exists|ast: Ast| ast.source.content@ == source@ && #[trigger] printed(ast, config, s@),
        r matches Err(e) ==> parse_failure(source@, e),
{
    let ast = match parse(source) {
        Ok(a) => a,
        Err(e) => {
            return Err(e);
        },
    };
    let s = PrettyPrinter::print_with_config(&ast, config);
    assert(ast.source.content@ == source@ && printed(ast, config, s@));
    let r: Result<String, VerseconfError> = Ok(s);
    assert(r matches Ok(x) && x@ == s@);
    r
}

/// The tree printed with the default options.
pub fn pretty_print(ast: &Ast) -> (s: String)
    ensures
        forall|c: PrettyPrintConfig| default_config(c) ==> printed(*ast, c, s@),
{
    PrettyPrinter::print(ast)
}

/// Renders a template; a failure becomes a template error with the
/// template error's text.
pub fn render_template(template: &Template, context: &RenderContext) -> (r: Result<String, VerseconfError>)
    ensures
        match render_steps(template.content@, placeholder_captures(template.content@), pairs_view(context.values@), context.strict) {
            Ok(t) => r matches Ok(s) && s@ == t,
            Err(n) => r matches Err(VerseconfError::Template(m)) && m@ == "undefined variable: "@ + n,
        },
{
    match crate::engine::template_renderer::render_template(template, context) {
        Ok(s) => Ok(s),
        Err(e) => Err(VerseconfError::Template(e.describe())),
    }
}

/// A template named `unnamed`, version `1.0`, whose variables are the
/// distinct placeholder names of `content`, each a required string.
pub fn parse_template(content: &str) -> (r: Result<Template, VerseconfError>)
    ensures
        r matches Ok(t) && t.name@ == "unnamed"@ && t.version@ == "1.0"@ && t.description is None
            && t.content@ == content@ && t.variables@.len() == distinct(capture_names(placeholder_captures(content@))).len()
            && forall|i: int| 0 <= i < t.variables@.len() ==> {
                let v = #[trigger] t.variables@[i];
                &&& v.name@ == distinct(capture_names(placeholder_captures(content@)))[i]
                &&& v.var_type == VariableType::String
                &&& v.default is None
                &&& v.description is None
                &&& v.required
                &&& v.choices is None
            },
{
    let names = crate::engine::template_renderer::extract_variables(content);
    let ghost nv = names@.map_values(|s: String| s@);
    let mut variables: Vec<TemplateVariable> = Vec::new();
    let mut i: usize = 0;
    while i < names.len()
        invariant
            i <= names@.len(),
            nv == names@.map_values(|s: String| s@),
            variables@.len() == i,
            forall|k: int| 0 <= k < i ==> {
                let v = #[trigger] variables@[k];
                &&& v.name@ == nv[k]
                &&& v.var_type == VariableType::String
                &&& v.default is None
                &&& v.description is None
                &&& v.required
                &&& v.choices is None
            },
        decreases names@.len() - i,
    {
        variables.push(TemplateVariable {
            name: names[i].clone(),
            var_type: VariableType::String,
            default: None,
            description: None,
            required: true,
            choices: None,
        });
        i = i + 1;
    }
    Ok(Template {
        name: crate::text::to_owned_string("unnamed"),
        description: None,
        version: crate::text::to_owned_string("1.0"),
        variables,
        content: crate::text::to_owned_string(content),
    })
}

/// Parses `source`. When the file it came from is known (`base`) and
/// `options` ask for it, its `@include`s are resolved with files from
/// `loader`, each merged by its directive's strategy; a failure to resolve
/// them is an include error.
pub fn parse_with_loader<L: FileLoader>(source: &str, base: Option<&str>, options: &LoadOptions, loader: L) -> (r: Result<
    Ast,
    VerseconfError,
>)
    requires
        source@.len() < u32::MAX,
    ensures
        r matches Ok(ast) ==> ast.source.content@ == source@ && parses(source@) && (options.resolve_includes && base is Some
            ==> includes_resolved(ast.root)),
        r matches Err(e) ==> parse_failure(source@, e) || (e is Include && parses(source@) && options.resolve_includes
            && base is Some),
{
    let mut ast = match parse(source) {
        Ok(a) => a,
        Err(e) => {
            return Err(e);
        },
    };
    if options.resolve_includes {
        match base {
            Some(b) => {
                let mut merger = AstMerger::new(loader);
                match merger.merge_includes(&mut ast, b) {
                    Ok(()) => {},
                    Err(m) => {
                        return Err(VerseconfError::Include(m));
                    },
                }
            },
            None => {},
        }
    }
    Ok(ast)
}

} // verus!
