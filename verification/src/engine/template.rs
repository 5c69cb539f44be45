//! Templates, their variables, and the values a rendering uses.

use vstd::prelude::*;
use crate::numeric::{float_text, i64_of, is_float_text, parse_i64, parse_u16, u16_of};
use crate::pairs::{find_last, has_key, last_value, lemma_last_value_append, pairs_view};
use crate::text::{chars_of, str_eq, to_owned_string};

verus! {

broadcast use vstd::string::group_string_axioms;

/// A variable a template declares.
#[derive(Debug, Clone)]
pub struct TemplateVariable {
    pub name: String,
    pub var_type: VariableType,
    pub default: Option<String>,
    pub description: Option<String>,
    pub required: bool,
    /// The allowed values of an enum variable.
    pub choices: Option<Vec<String>>,
}

/// What kind of value a variable takes.
#[derive(Debug, Clone, Copy, PartialEq, Eq, Structural)]
pub enum VariableType {
    String,
    Integer,
    Float,
    Boolean,
    Enum,
    Password,
    Hostname,
    Port,
    Path,
    Url,
}

/// The name of each variable type.
pub open spec fn variable_type_name(t: VariableType) -> Seq<char> {
    match t {
        VariableType::String => "string"@,
        VariableType::Integer => "integer"@,
        VariableType::Float => "float"@,
        VariableType::Boolean => "boolean"@,
        VariableType::Enum => "enum"@,
        VariableType::Password => "password"@,
        VariableType::Hostname => "hostname"@,
        VariableType::Port => "port"@,
        VariableType::Path => "path"@,
        VariableType::Url => "url"@,
    }
}

impl VariableType {
    /// The type's name, such as `integer`.
    pub fn name(&self) -> (s: &'static str)
        ensures
            s@ == variable_type_name(*self),
    {
        match self {
            VariableType::String => "string",
            VariableType::Integer => "integer",
            VariableType::Float => "float",
            VariableType::Boolean => "boolean",
            VariableType::Enum => "enum",
            VariableType::Password => "password",
            VariableType::Hostname => "hostname",
            VariableType::Port => "port",
            VariableType::Path => "path",
            VariableType::Url => "url",
        }
    }
}

/// A template: text in VerseConf syntax with `{{name}}` placeholders.
#[derive(Debug, Clone)]
pub struct Template {
    pub name: String,
    pub description: Option<String>,
    pub version: String,
    pub variables: Vec<TemplateVariable>,
    pub content: String,
}

/// A value the user gave for a variable.
#[derive(Debug, Clone)]
pub struct VariableValue {
    pub name: String,
    pub value: String,
}

/// The values a rendering uses. `values` is read as a map: the last pair
/// with a name gives its value.
#[derive(Debug, Clone)]
pub struct RenderContext {
    pub values: Vec<(String, String)>,
    /// Whether an undefined variable is an error (otherwise it is kept).
    pub strict: bool,
}

impl RenderContext {
    /// The value of `name` in this context.
    pub open spec fn lookup(&self, name: Seq<char>) -> Option<Seq<char>> {
        last_value(pairs_view(self.values@), name)
    }

    /// No values, strict.
    pub fn new() -> (c: RenderContext)
        ensures
            c.values@.len() == 0,
            c.strict,
    {
        RenderContext { values: Vec::new(), strict: true }
    }

    /// The same context with `name` set to `value`; other names keep their values.
    pub fn with_value(self, name: &str, value: &str) -> (c: RenderContext)
        ensures
            pairs_view(c.values@) == pairs_view(self.values@).push((name@, value@)),
            c.strict == self.strict,
            c.lookup(name@) == Some(value@),
            forall|n: Seq<char>| n != name@ ==> c.lookup(n) == self.lookup(n),
    {
        let mut this = self;
        let ghost before = pairs_view(this.values@);
        this.values.push((to_owned_string(name), to_owned_string(value)));
        proof {
            assert(pairs_view(this.values@) == before.push((name@, value@)));
            assert(pairs_view(this.values@).drop_last() == before);
        }
        this
    }

    /// The same context with all of `values` added; they override earlier values.
    pub fn with_values(self, values: Vec<(String, String)>) -> (c: RenderContext)
        ensures
            pairs_view(c.values@) == pairs_view(self.values@) + pairs_view(values@),
            c.strict == self.strict,
            forall|n: Seq<char>| c.lookup(n) == match last_value(pairs_view(values@), n) {
                Some(v) => Some(v),
                None => self.lookup(n),
            },
    {
        let mut this = self;
        let mut extra = values;
        let ghost before = pairs_view(this.values@);
        let ghost added = pairs_view(extra@);
        this.values.append(&mut extra);
        proof {
            assert(pairs_view(this.values@) == before + added);
            assert forall|n: Seq<char>| this.lookup(n) == match last_value(added, n) {
                Some(v) => Some(v),
                None => last_value(before, n),
            } by {
                lemma_last_value_append(before, added, n);
            }
        }
        this
    }

    /// The same context in strict mode or not.
    pub fn strict_mode(self, strict: bool) -> (c: RenderContext)
        ensures
            c.values@ == self.values@,
            c.strict == strict,
    {
        let mut this = self;
        this.strict = strict;
        this
    }

    /// The value of `name`, if set.
    pub fn get(&self, name: &str) -> (r: Option<String>)
        ensures
            match self.lookup(name@) {
                Some(v) => r matches Some(s) && s@ == v,
                None => r is None,
            },
    {
        find_last(&self.values, &to_owned_string(name))
    }
}

impl Default for RenderContext {
    fn default() -> (c: RenderContext)
        ensures
            c.values@.len() == 0,
            c.strict,
    {
        RenderContext::new()
    }
}

/// Why rendering or validating failed.
#[derive(Debug, Clone)]
pub enum TemplateError {
    UndefinedVariable(String),
    InvalidValue(String),
    ParseError(String),
    MissingRequired(String),
}

/// How each error reads.
pub open spec fn template_error_text(e: TemplateError) -> Seq<char> {
    match e {
        TemplateError::UndefinedVariable(s) => "undefined variable: "@ + s@,
        TemplateError::InvalidValue(s) => "invalid variable value: "@ + s@,
        TemplateError::ParseError(s) => "template parse error: "@ + s@,
        TemplateError::MissingRequired(s) => "missing required variable: "@ + s@,
    }
}

impl TemplateError {
    /// The error as a sentence.
    pub fn describe(&self) -> (s: String)
        ensures
            s@ == template_error_text(*self),
    {
        let mut s = String::new();
        match self {
            TemplateError::UndefinedVariable(x) => {
                s.push_str("undefined variable: ");
                s.push_str(x.as_str());
            },
            TemplateError::InvalidValue(x) => {
                s.push_str("invalid variable value: ");
                s.push_str(x.as_str());
            },
            TemplateError::ParseError(x) => {
                s.push_str("template parse error: ");
                s.push_str(x.as_str());
            },
            TemplateError::MissingRequired(x) => {
                s.push_str("missing required variable: ");
                s.push_str(x.as_str());
            },
        }
        s
    }
}

/// What `str::to_lowercase` returns for `s` (Unicode lower-case mapping).
pub uninterp spec fn lowercase_of(s: Seq<char>) -> Seq<char>;

/// `str::to_lowercase`: the Unicode lower case of `s`. The result depends on
/// `s` alone; which characters map to what is not stated here.
#[verifier::external_body]
pub(crate) fn to_lowercase(s: &str) -> (r: String)
    ensures
        r@ == lowercase_of(s@),
{
    s.to_lowercase()
}

/// `s` as `{:?}` shows a string: in quotes, with backslash, quote, newline,
/// carriage return, tab and NUL escaped.
pub open spec fn debug_quoted(s: Seq<char>) -> Seq<char> {
    seq!['"'] + debug_escape(s) + seq!['"']
}

/// The escapes of [`debug_quoted`].
pub open spec fn debug_escape(s: Seq<char>) -> Seq<char>
    decreases s.len(),
{
    if s.len() == 0 {
        Seq::empty()
    } else {
        let c = s.last();
        debug_escape(s.drop_last()) + if c == '\\' {
            seq!['\\', '\\']
        } else if c == '"' {
            seq!['\\', '"']
        } else if c == '\n' {
            seq!['\\', 'n']
        } else if c == '\r' {
            seq!['\\', 'r']
        } else if c == '\t' {
            seq!['\\', 't']
        } else if c == '\0' {
            seq!['\\', '0']
        } else {
            seq![c]
        }
    }
}

/// A list of strings as `{:?}` shows it: `["a", "b"]`.
pub open spec fn debug_list(items: Seq<String>) -> Seq<char> {
    seq!['['] + debug_items(items) + seq![']']
}

/// The items of [`debug_list`], separated by `, `.
pub open spec fn debug_items(items: Seq<String>) -> Seq<char>
    decreases items.len(),
{
    if items.len() == 0 {
        Seq::empty()
    } else if items.len() == 1 {
        debug_quoted(items[0]@)
    } else {
        debug_items(items.drop_last()) + ", "@ + debug_quoted(items.last()@)
    }
}

/// Whether `v` is one of `choices`.
pub open spec fn is_choice(choices: Seq<String>, v: Seq<char>) -> bool {
    exists|i: int| 0 <= i < choices.len() && (#[trigger] choices[i])@ == v
}

/// The message when `value` is not valid for `var`, or `None` when it is.
pub open spec fn value_problem(var: TemplateVariable, value: Seq<char>) -> Option<Seq<char>> {
    let q = seq!['\''] + value + seq!['\''];
    match var.var_type {
        VariableType::Integer => if i64_of(value) is Some { None } else { Some(q + " is not a valid integer"@) },
        VariableType::Float => if float_text(value) { None } else { Some(q + " is not a valid float"@) },
        VariableType::Boolean => {
            let l = lowercase_of(value);
            if l == "true"@ || l == "false"@ || l == "1"@ || l == "0"@ {
                None
            } else {
                Some(q + " is not a valid boolean"@)
            }
        },
        VariableType::Port => match u16_of(value) {
            Some(p) => if p == 0 { Some("port 0 is out of range (1-65535)"@) } else { None },
            None => Some(q + " is not a valid port number"@),
        },
        VariableType::Enum => match var.choices {
            Some(cs) => if is_choice(cs@, value) {
                None
            } else {
                Some(q + " is not one of the allowed values: "@ + debug_list(cs@))
            },
            None => None,
        },
        _ => None,
    }
}

/// The problem with one variable given the values: a required variable
/// without value or default, or a value of the wrong form.
pub open spec fn variable_problem(var: TemplateVariable, values: Seq<(Seq<char>, Seq<char>)>) -> Option<
    (bool, Seq<char>),
> {
    if var.required && !has_key(values, var.name@) && var.default is None {
        Some((true, var.name@))
    } else {
        match last_value(values, var.name@) {
            Some(v) => match value_problem(var, v) {
                Some(m) => Some((false, m)),
                None => None,
            },
            None => None,
        }
    }
}

/// `e` reports `problem`: a missing variable, or an invalid value.
pub open spec fn reports(e: TemplateError, problem: (bool, Seq<char>)) -> bool {
    if problem.0 {
        e matches TemplateError::MissingRequired(n) && n@ == problem.1
    } else {
        e matches TemplateError::InvalidValue(m) && m@ == problem.1
    }
}

/// The outcome of checking `vars` in order: the first problem, if any.
pub open spec fn validation_outcome(
    vars: Seq<TemplateVariable>,
    values: Seq<(Seq<char>, Seq<char>)>,
    r: Result<(), TemplateError>,
) -> bool
    decreases vars.len(),
{
    if vars.len() == 0 {
        r is Ok
    } else {
        match variable_problem(vars[0], values) {
            Some(p) => r matches Err(e) && reports(e, p),
            None => validation_outcome(vars.drop_first(), values, r),
        }
    }
}

proof fn lemma_validation_skip(
    vars: Seq<TemplateVariable>,
    values: Seq<(Seq<char>, Seq<char>)>,
    r: Result<(), TemplateError>,
    i: int,
)
    requires
        0 <= i <= vars.len(),
        forall|k: int| 0 <= k < i ==> variable_problem(#[trigger] vars[k], values) is None,
    ensures
        validation_outcome(vars, values, r) == validation_outcome(vars.skip(i), values, r),
    decreases i,
{
    if i > 0 {
        assert(vars.drop_first().skip(i - 1) == vars.skip(i));
        assert forall|k: int| 0 <= k < i - 1 implies variable_problem(#[trigger] vars.drop_first()[k], values) is None by {
            assert(vars.drop_first()[k] == vars[k + 1]);
        }
        lemma_validation_skip(vars.drop_first(), values, r, i - 1);
    } else {
        assert(vars.skip(0) == vars);
    }
}

/// Checks the values against the template's variables, in order, and
/// reports the first problem.
pub fn validate_variables(template: &Template, values: &Vec<(String, String)>) -> (r: Result<(), TemplateError>)
    ensures
        validation_outcome(template.variables@, pairs_view(values@), r),
{
    let ghost vars = template.variables@;
    let ghost vals = pairs_view(values@);
    let mut i: usize = 0;
    while i < template.variables.len()
        invariant
            i <= vars.len(),
            vars == template.variables@,
            vals == pairs_view(values@),
            forall|k: int| 0 <= k < i ==> variable_problem(#[trigger] vars[k], vals) is None,
        decreases vars.len() - i,
    {
        let var = &template.variables[i];
        let found = find_last(values, &var.name);
        proof {
            crate::pairs::lemma_last_value_some(vals, var.name@);
        }
        if var.required && found.is_none() && var.default.is_none() {
            let r = Err(TemplateError::MissingRequired(var.name.clone()));
            proof {
                lemma_validation_skip(vars, vals, r, i as int);
                assert(vars.skip(i as int)[0] == vars[i as int]);
            }
            return r;
        }
        match found {
            Some(value) => {
                match validate_variable_value(var, value.as_str()) {
                    Ok(()) => {},
                    Err(e) => {
                        let r = Err(e);
                        proof {
                            lemma_validation_skip(vars, vals, r, i as int);
                            assert(vars.skip(i as int)[0] == vars[i as int]);
                        }
                        return r;
                    },
                }
            },
            None => {},
        }
        i = i + 1;
    }
    proof {
        lemma_validation_skip(vars, vals, Ok(()), vars.len() as int);
        assert(vars.skip(vars.len() as int).len() == 0);
    }
    Ok(())
}

fn invalid(value: &str, tail: &str) -> (e: TemplateError)
    ensures
        e matches TemplateError::InvalidValue(m) && m@ == seq!['\''] + value@ + seq!['\''] + tail@,
{
    let mut m = String::new();
    m.push('\'');
    m.push_str(value);
    m.push('\'');
    m.push_str(tail);
    TemplateError::InvalidValue(m)
}

pub(crate) fn push_debug_quoted(out: &mut String, s: &String)
    ensures
        final(out)@ == old(out)@ + debug_quoted(s@),
{
    let v = chars_of(s.as_str());
    out.push('"');
    let ghost start = out@;
    let mut i: usize = 0;
    while i < v.len()
        invariant
            i <= v@.len(),
            v@ == s@,
            out@ == start + debug_escape(v@.take(i as int)),
        decreases v@.len() - i,
    {
        proof {
            assert(v@.take(i + 1).drop_last() == v@.take(i as int));
        }
        let c = v[i];
        if c == '\\' {
            out.push('\\');
            out.push('\\');
        } else if c == '"' {
            out.push('\\');
            out.push('"');
        } else if c == '\n' {
            out.push('\\');
            out.push('n');
        } else if c == '\r' {
            out.push('\\');
            out.push('r');
        } else if c == '\t' {
            out.push('\\');
            out.push('t');
        } else if c == '\0' {
            out.push('\\');
            out.push('0');
        } else {
            out.push(c);
        }
        i = i + 1;
    }
    proof {
        assert(v@.take(v@.len() as int) == v@);
    }
    out.push('"');
}

pub(crate) fn push_debug_list(out: &mut String, items: &Vec<String>)
    ensures
        final(out)@ == old(out)@ + debug_list(items@),
{
    out.push('[');
    let ghost start = out@;
    let mut i: usize = 0;
    while i < items.len()
        invariant
            i <= items@.len(),
            out@ == start + debug_items(items@.take(i as int)),
        decreases items@.len() - i,
    {
        proof {
            assert(items@.take(i + 1).drop_last() == items@.take(i as int));
            assert(items@.take(i + 1)[0] == items@[0]);
        }
        if i > 0 {
            out.push_str(", ");
        }
        push_debug_quoted(out, &items[i]);
        i = i + 1;
    }
    proof {
        assert(items@.take(items@.len() as int) == items@);
    }
    out.push(']');
}

fn contains_string(items: &Vec<String>, v: &str) -> (b: bool)
    ensures
        b == is_choice(items@, v@),
{
    let mut i: usize = 0;
    while i < items.len()
        invariant
            i <= items@.len(),
            forall|k: int| 0 <= k < i ==> items@[k]@ != v@,
        decreases items@.len() - i,
    {
        if str_eq(items[i].as_str(), v) {
            return true;
        }
        i = i + 1;
    }
    false
}

fn validate_variable_value(var: &TemplateVariable, value: &str) -> (r: Result<(), TemplateError>)
    ensures
        match value_problem(*var, value@) {
            Some(m) => r matches Err(TemplateError::InvalidValue(x)) && x@ == m,
            None => r is Ok,
        },
{
    let v = chars_of(value);
    match var.var_type {
        VariableType::Integer => {
            if parse_i64(&v).is_none() {
                return Err(invalid(value, " is not a valid integer"));
            }
        },
        VariableType::Float => {
            if !is_float_text(&v) {
                return Err(invalid(value, " is not a valid float"));
            }
        },
        VariableType::Boolean => {
            let lower = to_lowercase(value);
            let l = lower.as_str();
            if !(str_eq(l, "true") || str_eq(l, "false") || str_eq(l, "1") || str_eq(l, "0")) {
                return Err(invalid(value, " is not a valid boolean"));
            }
        },
        VariableType::Port => {
            match parse_u16(&v) {
                Some(port) => {
                    if port == 0 {
                        return Err(TemplateError::InvalidValue(to_owned_string("port 0 is out of range (1-65535)")));
                    }
                },
                None => {
                    return Err(invalid(value, " is not a valid port number"));
                },
            }
        },
        VariableType::Enum => {
            match &var.choices {
                Some(choices) => {
                    if !contains_string(choices, value) {
                        let mut m = String::new();
                        m.push('\'');
                        m.push_str(value);
                        m.push('\'');
                        m.push_str(" is not one of the allowed values: ");
                        push_debug_list(&mut m, choices);
                        return Err(TemplateError::InvalidValue(m));
                    }
                },
                None => {},
            }
        },
        _ => {},
    }
    Ok(())
}

} // verus!
