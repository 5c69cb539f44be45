//! Templates that extend a base template, override its blocks and include
//! other templates, and a registry to look them up by name.

use vstd::prelude::*;
use crate::engine::template::{RenderContext, Template, TemplateError};
use crate::engine::template_renderer::{placeholder_captures, render_steps, render_template, render_with_captures, rendered};
use crate::pairs::pairs_view;
use crate::text::{replace_all, replace_all_str, str_eq, to_owned_string};

verus! {

broadcast use vstd::string::group_string_axioms;

/// A named block of text that replaces `{% block name %}`.
#[derive(Debug, Clone)]
pub struct TemplateBlock {
    pub name: String,
    pub content: String,
}

/// The base a template extends and the blocks it overrides.
#[derive(Debug, Clone)]
pub struct TemplateInheritance {
    pub base_template: String,
    /// Read by name: a later block with the same name replaces an earlier one.
    pub blocks: Vec<TemplateBlock>,
}

/// A template with inheritance and includes.
#[derive(Debug, Clone)]
pub struct EnhancedTemplate {
    pub template: Template,
    pub inheritance: Option<TemplateInheritance>,
    /// Names of registered templates whose rendering replaces `{% include name %}`.
    pub includes: Vec<String>,
    /// Blocks given without a base; kept, not applied.
    pub blocks: Vec<TemplateBlock>,
}

impl EnhancedTemplate {
    /// A template with no base, includes or blocks.
    pub fn new(template: Template) -> (t: EnhancedTemplate)
        ensures
            t.template == template,
            t.inheritance is None,
            t.includes@.len() == 0,
            t.blocks@.len() == 0,
    {
        EnhancedTemplate { template, inheritance: None, includes: Vec::new(), blocks: Vec::new() }
    }

    /// The same template extending `base_template`, with no overridden blocks yet.
    pub fn extends(self, base_template: &str) -> (t: EnhancedTemplate)
        ensures
            t.template == self.template,
            t.includes == self.includes,
            t.blocks == self.blocks,
            t.inheritance matches Some(inh) && inh.base_template@ == base_template@ && inh.blocks@.len() == 0,
    {
        let mut this = self;
        this.inheritance = Some(TemplateInheritance { base_template: to_owned_string(base_template), blocks: Vec::new() });
        this
    }

    /// The same template with block `name` set to `content`: an override of
    /// the base when there is one, a block of its own otherwise.
    pub fn add_block(self, name: &str, content: &str) -> (t: EnhancedTemplate)
        ensures
            t.template == self.template,
            t.includes == self.includes,
            match self.inheritance {
                Some(inh) => t.blocks == self.blocks && (t.inheritance matches Some(i2) && i2.base_template
                    == inh.base_template && i2.blocks@.len() == inh.blocks@.len() + 1 && i2.blocks@.drop_last()
                    == inh.blocks@ && i2.blocks@.last().name@ == name@ && i2.blocks@.last().content@ == content@),
                None => t.inheritance is None && t.blocks@.len() == self.blocks@.len() + 1 && t.blocks@.drop_last()
                    == self.blocks@ && t.blocks@.last().name@ == name@ && t.blocks@.last().content@ == content@,
            },
    {
        let mut this = self;
        let block = TemplateBlock { name: to_owned_string(name), content: to_owned_string(content) };
        match this.inheritance {
            Some(mut inheritance) => {
                inheritance.blocks.push(block);
                this.inheritance = Some(inheritance);
            },
            None => {
                this.blocks.push(block);
            },
        }
        this
    }

    /// The same template also including the registered template `template_path`.
    pub fn add_include(self, template_path: &str) -> (t: EnhancedTemplate)
        ensures
            t.template == self.template,
            t.inheritance == self.inheritance,
            t.blocks == self.blocks,
            t.includes@.len() == self.includes@.len() + 1,
            t.includes@.drop_last() == self.includes@,
            t.includes@.last()@ == template_path@,
    {
        let mut this = self;
        this.includes.push(to_owned_string(template_path));
        this
    }
}

/// Templates by name.
pub struct TemplateRegistry {
    templates: Vec<Template>,
    enhanced_templates: Vec<EnhancedTemplate>,
    template_paths: Vec<(String, String)>,
}

/// The index of the template registered last under `name`.
pub open spec fn template_index(ts: Seq<Template>, name: Seq<char>) -> Option<int>
    decreases ts.len(),
{
    if ts.len() == 0 {
        None
    } else if ts.last().name@ == name {
        Some(ts.len() - 1)
    } else {
        template_index(ts.drop_last(), name)
    }
}

/// The index of the enhanced template registered last under `name`.
pub open spec fn enhanced_index(ts: Seq<EnhancedTemplate>, name: Seq<char>) -> Option<int>
    decreases ts.len(),
{
    if ts.len() == 0 {
        None
    } else if ts.last().template.name@ == name {
        Some(ts.len() - 1)
    } else {
        enhanced_index(ts.drop_last(), name)
    }
}

proof fn lemma_template_index_bounds(ts: Seq<Template>, name: Seq<char>)
    ensures
        template_index(ts, name) matches Some(i) ==> 0 <= i < ts.len() && ts[i].name@ == name,
    decreases ts.len(),
{
    if ts.len() > 0 {
        lemma_template_index_bounds(ts.drop_last(), name);
    }
}

proof fn lemma_enhanced_index_bounds(ts: Seq<EnhancedTemplate>, name: Seq<char>)
    ensures
        enhanced_index(ts, name) matches Some(i) ==> 0 <= i < ts.len() && ts[i].template.name@ == name,
    decreases ts.len(),
{
    if ts.len() > 0 {
        lemma_enhanced_index_bounds(ts.drop_last(), name);
    }
}

/// The template registered last under `name`.
pub open spec fn find_template(ts: Seq<Template>, name: Seq<char>) -> Option<Template> {
    match template_index(ts, name) {
        Some(i) => Some(ts[i]),
        None => None,
    }
}

/// `{% block name %}`.
pub open spec fn block_placeholder(name: Seq<char>) -> Seq<char> {
    "{% block "@ + name + " %}"@
}

/// `{% include name %}`.
pub open spec fn include_placeholder(name: Seq<char>) -> Seq<char> {
    "{% include "@ + name + " %}"@
}

/// Whether a block after index `i` has the same name (and so replaces it).
pub open spec fn superseded(blocks: Seq<TemplateBlock>, i: int) -> bool {
    exists|j: int| i < j < blocks.len() && (#[trigger] blocks[j]).name@ == blocks[i].name@
}

/// The base text with the first `n` blocks applied; a block replaced by a
/// later one of the same name is skipped.
pub open spec fn apply_blocks(text: Seq<char>, blocks: Seq<TemplateBlock>, n: int) -> Seq<char>
    decreases n,
{
    if n <= 0 {
        text
    } else {
        let t = apply_blocks(text, blocks, n - 1);
        if superseded(blocks, n - 1) {
            t
        } else {
            replace_all(t, block_placeholder(blocks[n - 1].name@), blocks[n - 1].content@)
        }
    }
}

/// A rendering result: text, or an error that is a parse error (`true`)
/// or an undefined variable (`false`) with its text.
pub open spec fn outcome_is(r: Result<String, TemplateError>, s: Result<Seq<char>, (bool, Seq<char>)>) -> bool {
    match s {
        Ok(t) => r matches Ok(x) && x@ == t,
        Err((true, m)) => r matches Err(TemplateError::ParseError(x)) && x@ == m,
        Err((false, n)) => r matches Err(TemplateError::UndefinedVariable(x)) && x@ == n,
    }
}

/// Rendering a plain template.
pub open spec fn plain_render(t: Template, ctx: RenderContext) -> Result<Seq<char>, (bool, Seq<char>)> {
    match render_steps(t.content@, placeholder_captures(t.content@), pairs_view(ctx.values@), ctx.strict) {
        Ok(x) => Ok(x),
        Err(n) => Err((false, n)),
    }
}

/// The text with the first `n` includes applied: each include that names a
/// registered template is rendered and replaces its placeholder.
pub open spec fn apply_includes(
    text: Seq<char>,
    includes: Seq<String>,
    ts: Seq<Template>,
    ctx: RenderContext,
    n: int,
) -> Result<Seq<char>, (bool, Seq<char>)>
    decreases n,
{
    if n <= 0 {
        Ok(text)
    } else {
        match apply_includes(text, includes, ts, ctx, n - 1) {
            Err(e) => Err(e),
            Ok(t) => match find_template(ts, includes[n - 1]@) {
                None => Ok(t),
                Some(inc) => match plain_render(inc, ctx) {
                    Err(e) => Err(e),
                    Ok(body) => Ok(replace_all(t, include_placeholder(includes[n - 1]@), body)),
                },
            },
        }
    }
}

/// The text an enhanced template starts from: its base with the blocks
/// applied, or its own content when it has no base.
pub open spec fn enhanced_start(e: EnhancedTemplate, ts: Seq<Template>) -> Result<Seq<char>, (bool, Seq<char>)> {
    match e.inheritance {
        Some(inh) => match find_template(ts, inh.base_template@) {
            None => Err((true, "Base template '"@ + inh.base_template@ + "' not found"@)),
            Some(base) => Ok(apply_blocks(base.content@, inh.blocks@, inh.blocks@.len() as int)),
        },
        None => Ok(e.template.content@),
    }
}

/// Rendering an enhanced template against the registered templates.
pub open spec fn enhanced_render(e: EnhancedTemplate, ts: Seq<Template>, ctx: RenderContext) -> Result<
    Seq<char>,
    (bool, Seq<char>),
> {
    match enhanced_start(e, ts) {
        Err(x) => Err(x),
        Ok(s) => match apply_includes(s, e.includes@, ts, ctx, e.includes@.len() as int) {
            Err(x) => Err(x),
            Ok(t) => match render_steps(t, placeholder_captures(t), pairs_view(ctx.values@), ctx.strict) {
                Ok(x) => Ok(x),
                Err(n) => Err((false, n)),
            },
        },
    }
}

impl TemplateRegistry {
    /// The registered plain templates, in registration order.
    pub closed spec fn templates(&self) -> Seq<Template> {
        self.templates@
    }

    /// The registered enhanced templates, in registration order.
    pub closed spec fn enhanced(&self) -> Seq<EnhancedTemplate> {
        self.enhanced_templates@
    }

    /// The files templates were read from, by template name.
    pub closed spec fn paths(&self) -> Seq<(Seq<char>, Seq<char>)> {
        pairs_view(self.template_paths@)
    }

    /// An empty registry.
    pub fn new() -> (r: TemplateRegistry)
        ensures
            r.templates().len() == 0,
            r.enhanced().len() == 0,
            r.paths().len() == 0,
    {
        TemplateRegistry { templates: Vec::new(), enhanced_templates: Vec::new(), template_paths: Vec::new() }
    }

    /// Registers `template` under its name, replacing any earlier one.
    pub fn register(&mut self, template: Template)
        ensures
            final(self).templates() == old(self).templates().push(template),
            final(self).enhanced() == old(self).enhanced(),
            final(self).paths() == old(self).paths(),
    {
        self.templates.push(template);
    }

    /// Registers an enhanced template under its name, replacing any earlier one.
    pub fn register_enhanced(&mut self, template: EnhancedTemplate)
        ensures
            final(self).enhanced() == old(self).enhanced().push(template),
            final(self).templates() == old(self).templates(),
            final(self).paths() == old(self).paths(),
    {
        self.enhanced_templates.push(template);
    }

    /// Registers the content of a template file: the name is the file stem
    /// without trailing `.vcf` suffixes, the version `1.0`, and the path is
    /// remembered.
    pub fn register_file_content(&mut self, file_stem: &str, path: &str, content: String)
        ensures
            final(self).templates().len() == old(self).templates().len() + 1,
            final(self).templates().drop_last() == old(self).templates(),
            final(self).templates().last().name@ == template_name_of(file_stem@),
            final(self).templates().last().content == content,
            final(self).templates().last().version@ == "1.0"@,
            final(self).templates().last().description is None,
            final(self).templates().last().variables@.len() == 0,
            final(self).paths() == old(self).paths().push((template_name_of(file_stem@), path@)),
            final(self).enhanced() == old(self).enhanced(),
    {
        let name = template_name_from_stem(file_stem);
        let ghost before = pairs_view(self.template_paths@);
        self.template_paths.push((name.clone(), to_owned_string(path)));
        proof {
            assert(pairs_view(self.template_paths@) == before.push((name@, path@)));
        }
        let template = Template {
            name,
            description: None,
            version: to_owned_string("1.0"),
            variables: Vec::new(),
            content,
        };
        self.register(template);
    }

    /// The plain template registered last under `name`.
    pub fn get(&self, name: &str) -> (r: Option<&Template>)
        ensures
            match template_index(self.templates(), name@) {
                Some(i) => r == Some(&self.templates()[i]),
                None => r is None,
            },
    {
        let mut j: usize = self.templates.len();
        proof {
            assert(self.templates@.take(j as int) == self.templates@);
        }
        while j > 0
            invariant
                j <= self.templates@.len(),
                template_index(self.templates@, name@) == template_index(self.templates@.take(j as int), name@),
            decreases j,
        {
            proof {
                assert(self.templates@.take(j as int).drop_last() == self.templates@.take(j - 1));
            }
            if str_eq(self.templates[j - 1].name.as_str(), name) {
                return Some(&self.templates[j - 1]);
            }
            j = j - 1;
        }
        None
    }

    /// The enhanced template registered last under `name`.
    pub fn get_enhanced(&self, name: &str) -> (r: Option<&EnhancedTemplate>)
        ensures
            match enhanced_index(self.enhanced(), name@) {
                Some(i) => r == Some(&self.enhanced()[i]),
                None => r is None,
            },
    {
        let mut j: usize = self.enhanced_templates.len();
        proof {
            assert(self.enhanced_templates@.take(j as int) == self.enhanced_templates@);
        }
        while j > 0
            invariant
                j <= self.enhanced_templates@.len(),
                enhanced_index(self.enhanced_templates@, name@) == enhanced_index(
                    self.enhanced_templates@.take(j as int),
                    name@,
                ),
            decreases j,
        {
            proof {
                assert(self.enhanced_templates@.take(j as int).drop_last() == self.enhanced_templates@.take(j - 1));
            }
            if str_eq(self.enhanced_templates[j - 1].template.name.as_str(), name) {
                return Some(&self.enhanced_templates[j - 1]);
            }
            j = j - 1;
        }
        None
    }

    /// Renders the template named `name`: an enhanced one if registered,
    /// else a plain one; a parse error when neither is.
    pub fn render_enhanced(&self, name: &str, context: &RenderContext) -> (r: Result<String, TemplateError>)
        ensures
            match enhanced_index(self.enhanced(), name@) {
                Some(i) => outcome_is(r, enhanced_render(self.enhanced()[i], self.templates(), *context)),
                None => match find_template(self.templates(), name@) {
                    Some(t) => outcome_is(r, plain_render(t, *context)),
                    None => outcome_is(r, Err((true, "Template '"@ + name@ + "' not found"@))),
                },
            },
    {
        proof {
            lemma_template_index_bounds(self.templates@, name@);
        }
        match self.get_enhanced(name) {
            Some(enhanced) => self.render_enhanced_template(enhanced, context),
            None => match self.get(name) {
                Some(template) => {
                    let r = render_template(template, context);
                    proof {
                        lemma_outcome_of_render(r, template.content@, *context);
                    }
                    r
                },
                None => {
                    let mut m = String::new();
                    m.push_str("Template '");
                    m.push_str(name);
                    m.push_str("' not found");
                    Err(TemplateError::ParseError(m))
                },
            },
        }
    }

    fn render_enhanced_template(&self, enhanced: &EnhancedTemplate, context: &RenderContext) -> (r: Result<
        String,
        TemplateError,
    >)
        ensures
            outcome_is(r, enhanced_render(*enhanced, self.templates(), *context)),
    {
        proof {
            reveal_strlit("{% block ");
            reveal_strlit(" %}");
            reveal_strlit("{% include ");
        }
        let start: String = match &enhanced.inheritance {
            Some(inheritance) => {
                proof {
                    lemma_template_index_bounds(self.templates@, inheritance.base_template@);
                }
                match self.get(inheritance.base_template.as_str()) {
                    None => {
                        let mut m = String::new();
                        m.push_str("Base template '");
                        m.push_str(inheritance.base_template.as_str());
                        m.push_str("' not found");
                        return Err(TemplateError::ParseError(m));
                    },
                    Some(base) => {
                        let blocks = &inheritance.blocks;
                        let mut text = base.content.clone();
                        let mut i: usize = 0;
                        while i < blocks.len()
                            invariant
                                i <= blocks@.len(),
                                text@ == apply_blocks(base.content@, blocks@, i as int),
                            decreases blocks@.len() - i,
                        {
                            let later = Self::name_occurs_after(blocks, i);
                            if !later {
                                let mut placeholder = String::new();
                                placeholder.push_str("{% block ");
                                placeholder.push_str(blocks[i].name.as_str());
                                placeholder.push_str(" %}");
                                text = replace_all_str(text.as_str(), placeholder.as_str(), blocks[i].content.as_str());
                            }
                            i = i + 1;
                        }
                        text
                    },
                }
            },
            None => enhanced.template.content.clone(),
        };
        let ghost start_spec = start@;
        assert(enhanced_start(*enhanced, self.templates@) == Ok::<Seq<char>, (bool, Seq<char>)>(start_spec));
        let mut result = start;
        let mut k: usize = 0;
        while k < enhanced.includes.len()
            invariant
                k <= enhanced.includes@.len(),
                enhanced_start(*enhanced, self.templates@) == Ok::<Seq<char>, (bool, Seq<char>)>(start_spec),
                apply_includes(start_spec, enhanced.includes@, self.templates@, *context, k as int) == Ok::<
                    Seq<char>,
                    (bool, Seq<char>),
                >(result@),
            decreases enhanced.includes@.len() - k,
        {
            let include_path = &enhanced.includes[k];
            proof {
                lemma_template_index_bounds(self.templates@, include_path@);
            }
            match self.get(include_path.as_str()) {
                Some(include_template) => {
                    let rendered_include = render_template(include_template, context);
                    proof {
                        lemma_outcome_of_render(rendered_include, include_template.content@, *context);
                    }
                    match rendered_include {
                        Ok(body) => {
                            let mut placeholder = String::new();
                            placeholder.push_str("{% include ");
                            placeholder.push_str(include_path.as_str());
                            placeholder.push_str(" %}");
                            result = replace_all_str(result.as_str(), placeholder.as_str(), body.as_str());
                        },
                        Err(e) => {
                            proof {
                                assert(find_template(self.templates@, enhanced.includes@[k as int]@) == Some(*include_template));
                                assert(apply_includes(start_spec, enhanced.includes@, self.templates@, *context, k + 1) is Err);
                                lemma_includes_err(start_spec, enhanced.includes@, self.templates@, *context, k + 1);
                                let full = apply_includes(start_spec, enhanced.includes@, self.templates@, *context, enhanced.includes@.len() as int);
                                assert(full == plain_render(*include_template, *context));
                                assert(enhanced_render(*enhanced, self.templates@, *context) == full);
                            }
                            return Err(e);
                        },
                    }
                },
                None => {},
            }
            k = k + 1;
        }
        let r = crate::engine::template_renderer::render_template_text(&result, context);
        r
    }

    /// Whether a block after `i` has the same name as block `i`.
    fn name_occurs_after(blocks: &Vec<TemplateBlock>, i: usize) -> (b: bool)
        requires
            i < blocks@.len(),
        ensures
            b == superseded(blocks@, i as int),
    {
        let n = blocks.len();
        let mut j: usize = i + 1;
        while j < blocks.len()
            invariant
                i < j <= blocks@.len(),
                forall|m: int| i < m < j ==> (#[trigger] blocks@[m]).name@ != blocks@[i as int].name@,
            decreases blocks@.len() - j,
        {
            if str_eq(blocks[j].name.as_str(), blocks[i].name.as_str()) {
                return true;
            }
            j = j + 1;
        }
        false
    }
}

proof fn lemma_outcome_of_render(r: Result<String, TemplateError>, content: Seq<char>, ctx: RenderContext)
    requires
        rendered(r, content, placeholder_captures(content), ctx),
    ensures
        outcome_is(r, match render_steps(content, placeholder_captures(content), pairs_view(ctx.values@), ctx.strict) {
            Ok(x) => Ok(x),
            Err(n) => Err((false, n)),
        }),
{
}

proof fn lemma_includes_err(
    text: Seq<char>,
    includes: Seq<String>,
    ts: Seq<Template>,
    ctx: RenderContext,
    n: int,
)
    requires
        0 <= n <= includes.len(),
        apply_includes(text, includes, ts, ctx, n) is Err,
    ensures
        apply_includes(text, includes, ts, ctx, includes.len() as int) == apply_includes(text, includes, ts, ctx, n),
    decreases includes.len() - n,
{
    if n < includes.len() {
        lemma_includes_err(text, includes, ts, ctx, n + 1);
    }
}

/// The name of a template file with stem `stem`: trailing `.vcf` suffixes
/// removed when there is one.
pub open spec fn template_name_of(stem: Seq<char>) -> Seq<char>
    decreases stem.len(),
{
    if stem.len() >= 4 && stem.subrange(stem.len() - 4, stem.len() as int) == ".vcf"@ {
        template_name_of(stem.subrange(0, stem.len() - 4))
    } else {
        stem
    }
}

/// [`template_name_of`] for executable code.
pub fn template_name_from_stem(stem: &str) -> (s: String)
    ensures
        s@ == template_name_of(stem@),
{
    proof {
        reveal_strlit(".vcf");
    }
    let v = crate::text::chars_of(stem);
    let mut end: usize = v.len();
    proof {
        assert(v@.subrange(0, end as int) == v@);
    }
    while end >= 4 && v[end - 4] == '.' && v[end - 3] == 'v' && v[end - 2] == 'c' && v[end - 1] == 'f'
        invariant
            end <= v@.len(),
            v@ == stem@,
            template_name_of(stem@) == template_name_of(v@.subrange(0, end as int)),
        decreases end,
    {
        proof {
            reveal_strlit(".vcf");
            let cur = v@.subrange(0, end as int);
            assert(cur.subrange(cur.len() - 4, cur.len() as int) =~= ".vcf"@);
            assert(cur.subrange(0, cur.len() - 4) =~= v@.subrange(0, end - 4));
        }
        end = end - 4;
    }
    proof {
        let cur = v@.subrange(0, end as int);
        if cur.len() >= 4 {
            assert(cur.subrange(cur.len() - 4, cur.len() as int) != ".vcf"@) by {
                if cur.subrange(cur.len() - 4, cur.len() as int) == ".vcf"@ {
                    assert(cur.subrange(cur.len() - 4, cur.len() as int)[0] == '.');
                    assert(cur.subrange(cur.len() - 4, cur.len() as int)[1] == 'v');
                    assert(cur.subrange(cur.len() - 4, cur.len() as int)[2] == 'c');
                    assert(cur.subrange(cur.len() - 4, cur.len() as int)[3] == 'f');
                }
            }
        }
    }
    crate::text::string_from_range(&v, 0, end)
}

} // verus!
