//! Rendering `{{name}}` placeholders.
//!
//! The placeholders are found with the `regex` crate; what is done with
//! each one is this module's own logic: its trimmed name is looked up, and
//! every occurrence of the placeholder's text is replaced by the value.

use vstd::prelude::*;
use crate::engine::template::{RenderContext, Template, TemplateError};
use crate::pairs::{last_value, lemma_last_value_append, pairs_view};
use crate::text::{chars_of, replace_all, replace_all_str, str_eq, trim_chars, trimmed};

verus! {

broadcast use vstd::string::group_string_axioms;

/// Past the run of characters other than `}` that starts at `i`.
pub open spec fn brace_run_end(s: Seq<char>, i: int) -> int
    decreases s.len() - i,
{
    if i < 0 || i >= s.len() || s[i] == '}' {
        i
    } else {
        brace_run_end(s, i + 1)
    }
}

/// Where the match of `\{\{([^}]+)\}\}` that starts at `i` ends, if one
/// starts there: `{{`, one or more characters other than `}`, then `}}`.
pub open spec fn placeholder_at(s: Seq<char>, i: int) -> Option<int> {
    let k = brace_run_end(s, i + 2);
    if 0 <= i && i + 1 < s.len() && s[i] == '{' && s[i + 1] == '{' && k > i + 2 && k + 1 < s.len() && s[k]
        == '}' && s[k + 1] == '}' {
        Some(k + 2)
    } else {
        None
    }
}

/// The matches from `i` on, leftmost first and not overlapping: each
/// whole match with its group.
pub open spec fn placeholders_from(s: Seq<char>, i: int) -> Seq<(Seq<char>, Seq<char>)>
    decreases s.len() - i,
{
    if i < 0 || i >= s.len() {
        Seq::empty()
    } else {
        match placeholder_at(s, i) {
            Some(e) => seq![(s.subrange(i, e), s.subrange(i + 2, e - 2))] + placeholders_from(s, e),
            None => placeholders_from(s, i + 1),
        }
    }
}

/// The matches of the pattern `\{\{([^}]+)\}\}` in `content`, left to
/// right and not overlapping: each whole match with its first group.
pub open spec fn placeholder_captures(content: Seq<char>) -> Seq<(Seq<char>, Seq<char>)> {
    placeholders_from(content, 0)
}

/// `Regex::new(r"\{\{([^}]+)\}\}")` and `captures_iter` on `content`: each
/// match's text with the text of its group, as `placeholder_captures` states
/// them. The pattern is valid and its group takes part in every match, so
/// nothing here panics.
#[verifier::external_body]
fn find_placeholders(content: &str) -> (r: Vec<(String, String)>)
    ensures
        pairs_view(r@) == placeholder_captures(content@),
{
    let re = regex::Regex::new(r"\{\{([^}]+)\}\}").unwrap();
    re.captures_iter(content).map(|cap| (cap[0].to_string(), cap[1].to_string())).collect()
}

/// The text a placeholder named `name` becomes: its value, or in lenient
/// mode the placeholder itself; `Err(name)` when strict and undefined.
pub open spec fn resolve(values: Seq<(Seq<char>, Seq<char>)>, strict: bool, name: Seq<char>) -> Result<
    Seq<char>,
    Seq<char>,
> {
    match last_value(values, name) {
        Some(v) => Ok(v),
        None => if strict { Err(name) } else { Ok("{{"@ + name + "}}"@) },
    }
}

/// Rendering `text` with the captured placeholders, in order: each
/// placeholder's text is replaced everywhere by what its trimmed name
/// resolves to. `Err(name)` for the first name that does not resolve.
pub open spec fn render_steps(
    text: Seq<char>,
    caps: Seq<(Seq<char>, Seq<char>)>,
    values: Seq<(Seq<char>, Seq<char>)>,
    strict: bool,
) -> Result<Seq<char>, Seq<char>>
    decreases caps.len(),
{
    if caps.len() == 0 {
        Ok(text)
    } else {
        match render_steps(text, caps.drop_last(), values, strict) {
            Err(n) => Err(n),
            Ok(t) => match resolve(values, strict, trimmed(caps.last().1)) {
                Err(n) => Err(n),
                Ok(v) => Ok(replace_all(t, caps.last().0, v)),
            },
        }
    }
}

/// The result of a rendering, as the template error it gives.
pub open spec fn rendered(
    r: Result<String, TemplateError>,
    text: Seq<char>,
    caps: Seq<(Seq<char>, Seq<char>)>,
    ctx: RenderContext,
) -> bool {
    match render_steps(text, caps, pairs_view(ctx.values@), ctx.strict) {
        Ok(t) => r matches Ok(s) && s@ == t,
        Err(n) => r matches Err(TemplateError::UndefinedVariable(m)) && m@ == n,
    }
}

fn resolve_variable(var_name: &String, context: &RenderContext) -> (r: Result<String, TemplateError>)
    ensures
        match resolve(pairs_view(context.values@), context.strict, var_name@) {
            Ok(v) => r matches Ok(s) && s@ == v,
            Err(n) => r matches Err(TemplateError::UndefinedVariable(m)) && m@ == n,
        },
{
    match crate::pairs::find_last(&context.values, var_name) {
        Some(v) => Ok(v),
        None => {
            if context.strict {
                Err(TemplateError::UndefinedVariable(var_name.clone()))
            } else {
                let mut s = String::new();
                s.push_str("{{");
                s.push_str(var_name.as_str());
                s.push_str("}}");
                Ok(s)
            }
        },
    }
}

/// Renders `content` given its placeholder matches `captures` (whole match,
/// group), in order.
pub fn render_with_captures(content: &str, captures: &Vec<(String, String)>, context: &RenderContext) -> (r: Result<
    String,
    TemplateError,
>)
    ensures
        rendered(r, content@, pairs_view(captures@), *context),
{
    let mut result = crate::text::to_owned_string(content);
    let mut i: usize = 0;
    while i < captures.len()
        invariant
            i <= captures@.len(),
            render_steps(content@, pairs_view(captures@).take(i as int), pairs_view(context.values@), context.strict)
                == Ok::<Seq<char>, Seq<char>>(result@),
        decreases captures@.len() - i,
    {
        let ghost caps = pairs_view(captures@);
        proof {
            assert(caps.take(i + 1).drop_last() == caps.take(i as int));
            assert(caps.take(i + 1).last() == (captures@[i as int].0@, captures@[i as int].1@));
        }
        let name_chars = chars_of(captures[i].1.as_str());
        let var_name = trim_chars(&name_chars);
        let replacement = match resolve_variable(&var_name, context) {
            Ok(v) => v,
            Err(e) => {
                proof {
                    lemma_render_steps_err(content@, caps, pairs_view(context.values@), context.strict, i + 1);
                }
                return Err(e);
            },
        };
        result = replace_all_str(result.as_str(), captures[i].0.as_str(), replacement.as_str());
        i = i + 1;
    }
    proof {
        assert(pairs_view(captures@).take(captures@.len() as int) == pairs_view(captures@));
    }
    Ok(result)
}

/// An error after the first `n` captures stays the error of the whole list.
proof fn lemma_render_steps_err(
    text: Seq<char>,
    caps: Seq<(Seq<char>, Seq<char>)>,
    values: Seq<(Seq<char>, Seq<char>)>,
    strict: bool,
    n: int,
)
    requires
        0 <= n <= caps.len(),
        render_steps(text, caps.take(n), values, strict) is Err,
    ensures
        render_steps(text, caps, values, strict) == render_steps(text, caps.take(n), values, strict),
    decreases caps.len() - n,
{
    if n < caps.len() {
        assert(caps.take(n + 1).drop_last() == caps.take(n));
        lemma_render_steps_err(text, caps, values, strict, n + 1);
    } else {
        assert(caps.take(n) == caps);
    }
}

/// Renders the template's content with the values of `context`.
pub fn render_template(template: &Template, context: &RenderContext) -> (r: Result<String, TemplateError>)
    ensures
        rendered(r, template.content@, placeholder_captures(template.content@), *context),
{
    let captures = find_placeholders(template.content.as_str());
    render_with_captures(template.content.as_str(), &captures, context)
}

/// The distinct items of `s`, in the order they first appear.
pub open spec fn distinct(s: Seq<Seq<char>>) -> Seq<Seq<char>>
    decreases s.len(),
{
    if s.len() == 0 {
        Seq::empty()
    } else {
        let d = distinct(s.drop_last());
        if d.contains(s.last()) { d } else { d.push(s.last()) }
    }
}

/// The trimmed names of the captured placeholders.
pub open spec fn capture_names(caps: Seq<(Seq<char>, Seq<char>)>) -> Seq<Seq<char>> {
    caps.map_values(|c: (Seq<char>, Seq<char>)| trimmed(c.1))
}

/// The distinct variable names among the captured placeholders.
pub fn variables_in_captures(captures: &Vec<(String, String)>) -> (r: Vec<String>)
    ensures
        r@.map_values(|s: String| s@) == distinct(capture_names(pairs_view(captures@))),
{
    let ghost names = capture_names(pairs_view(captures@));
    let mut r: Vec<String> = Vec::new();
    let mut i: usize = 0;
    while i < captures.len()
        invariant
            i <= captures@.len(),
            names == capture_names(pairs_view(captures@)),
            r@.map_values(|s: String| s@) == distinct(names.take(i as int)),
        decreases captures@.len() - i,
    {
        proof {
            assert(names.take(i + 1).drop_last() == names.take(i as int));
            assert(names.take(i + 1).last() == trimmed(captures@[i as int].1@));
        }
        let name_chars = chars_of(captures[i].1.as_str());
        let name = trim_chars(&name_chars);
        let mut found = false;
        let mut j: usize = 0;
        while j < r.len()
            invariant
                j <= r@.len(),
                !found ==> forall|k: int| 0 <= k < j ==> r@[k]@ != name@,
                found ==> exists|k: int| 0 <= k < r@.len() && r@[k]@ == name@,
            decreases r@.len() - j,
        {
            if str_eq(r[j].as_str(), name.as_str()) {
                found = true;
            }
            j = j + 1;
        }
        let ghost view = r@.map_values(|s: String| s@);
        proof {
            if found {
                let k = choose|k: int| 0 <= k < r@.len() && r@[k]@ == name@;
                assert(view[k] == name@);
            } else {
                assert forall|k: int| 0 <= k < view.len() implies view[k] != name@ by {
                    assert(view[k] == r@[k]@);
                }
            }
        }
        if !found {
            r.push(name);
            proof {
                assert(r@.map_values(|s: String| s@) == view.push(name@));
            }
        }
        i = i + 1;
    }
    proof {
        assert(names.take(captures@.len() as int) == names);
    }
    r
}

/// The distinct variable names used in `content`.
pub fn extract_variables(content: &str) -> (r: Vec<String>)
    ensures
        r@.map_values(|s: String| s@) == distinct(capture_names(placeholder_captures(content@))),
{
    let captures = find_placeholders(content);
    variables_in_captures(&captures)
}

/// The value of `name` across `contexts`: the last context that sets it wins.
pub open spec fn merged_lookup(contexts: Seq<RenderContext>, name: Seq<char>) -> Option<Seq<char>>
    decreases contexts.len(),
{
    if contexts.len() == 0 {
        None
    } else {
        match contexts.last().lookup(name) {
            Some(v) => Some(v),
            None => merged_lookup(contexts.drop_last(), name),
        }
    }
}

/// One context holding the values of all of them, later ones overriding
/// earlier ones, strict as the last one is (strict when there are none).
pub fn merge_contexts(contexts: &[RenderContext]) -> (merged: RenderContext)
    ensures
        forall|n: Seq<char>| #[trigger] merged.lookup(n) == merged_lookup(contexts@, n),
        merged.strict == if contexts@.len() == 0 { true } else { contexts@.last().strict },
{
    let mut merged = RenderContext::new();
    let mut i: usize = 0;
    while i < contexts.len()
        invariant
            i <= contexts@.len(),
            forall|n: Seq<char>| #[trigger] merged.lookup(n) == merged_lookup(contexts@.take(i as int), n),
            merged.strict == if i == 0 { true } else { contexts@[i - 1].strict },
        decreases contexts@.len() - i,
    {
        let ghost before = pairs_view(merged.values@);
        let ghost added = pairs_view(contexts@[i as int].values@);
        proof {
            assert forall|n: Seq<char>| last_value(before, n) == merged_lookup(contexts@.take(i as int), n) by {
                assert(merged.lookup(n) == merged_lookup(contexts@.take(i as int), n));
            }
        }
        let mut extra = crate::pairs::clone_pairs(&contexts[i].values);
        merged.values.append(&mut extra);
        merged.strict = contexts[i].strict;
        proof {
            assert(contexts@.take(i + 1).drop_last() == contexts@.take(i as int));
            assert(contexts@.take(i + 1).last() == contexts@[i as int]);
            assert(pairs_view(merged.values@) == before + added);
            assert forall|n: Seq<char>| #[trigger] merged.lookup(n) == merged_lookup(contexts@.take(i + 1), n) by {
                lemma_last_value_append(before, added, n);
            }
        }
        i = i + 1;
    }
    proof {
        assert(contexts@.take(contexts@.len() as int) == contexts@);
    }
    merged
}

/// Renders the placeholders found in `text` itself.
pub fn render_template_text(text: &String, context: &RenderContext) -> (r: Result<String, TemplateError>)
    ensures
        match render_steps(text@, placeholder_captures(text@), pairs_view(context.values@), context.strict) {
            Ok(t) => r matches Ok(s) && s@ == t,
            Err(n) => r matches Err(TemplateError::UndefinedVariable(m)) && m@ == n,
        },
{
    let captures = find_placeholders(text.as_str());
    render_with_captures(text.as_str(), &captures, context)
}

} // verus!
