//! Environments that extend one another: an environment's lines override
//! the lines of the environment it extends, key by key.

use vstd::prelude::*;
use crate::ast::Ast;
use crate::text::{chars_of, lines_from, lines_of, lines_vec, str_eq, to_owned_string, trim_chars, trimmed, string_from_chars};

verus! {

broadcast use vstd::string::group_string_axioms;

/// Index of the first `c` at or after `i` in `s`, or the length of `s`.
pub open spec fn char_pos(s: Seq<char>, c: char, i: int) -> int
    decreases s.len() - i,
{
    if i >= s.len() || (i >= 0 && s[i] == c) {
        i
    } else {
        char_pos(s, c, i + 1)
    }
}

/// The key of a line: what stands before its first `=`, or else before its
/// first `{`, trimmed. A line with neither has no key.
pub open spec fn line_key(line: Seq<char>) -> Option<Seq<char>> {
    let e = char_pos(line, '=', 0);
    let b = char_pos(line, '{', 0);
    if e < line.len() {
        Some(trimmed(line.take(e)))
    } else if b < line.len() {
        Some(trimmed(line.take(b)))
    } else {
        None
    }
}

/// The first line at or after `i` whose trimmed text has key `k`.
pub open spec fn first_line_with_key(lines: Seq<Seq<char>>, k: Seq<char>, i: int) -> Option<int>
    decreases lines.len() - i,
{
    if i < 0 || i >= lines.len() {
        None
    } else if line_key(trimmed(lines[i])) == Some(k) {
        Some(i)
    } else {
        first_line_with_key(lines, k, i + 1)
    }
}

/// One overriding line applied: blank lines and comments are skipped; a
/// line whose key some base line has replaces the first such base line;
/// any other line is added at the end.
pub open spec fn merge_step(result: Seq<Seq<char>>, base: Seq<Seq<char>>, raw: Seq<char>) -> Seq<Seq<char>> {
    let line = trimmed(raw);
    if line.len() == 0 || line[0] == '#' {
        result
    } else {
        match line_key(line) {
            Some(k) => match first_line_with_key(base, k, 0) {
                Some(i) => result.update(i, line),
                None => result.push(line),
            },
            None => result.push(line),
        }
    }
}

/// The base lines with the overriding lines applied in order.
pub open spec fn merged_lines(base: Seq<Seq<char>>, over: Seq<Seq<char>>) -> Seq<Seq<char>>
    decreases over.len(),
{
    if over.len() == 0 {
        base
    } else {
        merge_step(merged_lines(base, over.drop_last()), base, over.last())
    }
}

/// Lines joined with `'\n'`.
pub open spec fn joined_lines(ls: Seq<Seq<char>>) -> Seq<char>
    decreases ls.len(),
{
    if ls.len() == 0 {
        Seq::empty()
    } else if ls.len() == 1 {
        ls[0]
    } else {
        joined_lines(ls.drop_last()) + seq!['\n'] + ls.last()
    }
}

/// The text of `base` with the lines of `over` applied.
pub open spec fn merge_config_text(base: Seq<char>, over: Seq<char>) -> Seq<char> {
    joined_lines(merged_lines(lines_of(base), lines_of(over)))
}

proof fn lemma_merged_len(base: Seq<Seq<char>>, over: Seq<Seq<char>>)
    ensures
        merged_lines(base, over).len() >= base.len(),
    decreases over.len(),
{
    if over.len() > 0 {
        lemma_merged_len(base, over.drop_last());
        let line = trimmed(over.last());
        if line.len() > 0 && line[0] != '#' {
            if let Some(k) = line_key(line) {
                lemma_first_line_bounds(base, k, 0);
            }
        }
    }
}

proof fn lemma_first_line_bounds(lines: Seq<Seq<char>>, k: Seq<char>, i: int)
    requires
        0 <= i,
    ensures
        first_line_with_key(lines, k, i) matches Some(j) ==> i <= j < lines.len(),
    decreases lines.len() - i,
{
    if i < lines.len() && line_key(trimmed(lines[i])) != Some(k) {
        lemma_first_line_bounds(lines, k, i + 1);
    }
}

fn find_char(v: &Vec<char>, c: char) -> (p: usize)
    ensures
        p == char_pos(v@, c, 0),
{
    let mut i: usize = 0;
    while i < v.len() && v[i] != c
        invariant
            i <= v@.len(),
            char_pos(v@, c, 0) == char_pos(v@, c, i as int),
        decreases v@.len() - i,
    {
        i = i + 1;
    }
    i
}

fn extract_key(line: &str) -> (r: Option<String>)
    ensures
        match r {
            Some(k) => line_key(line@) == Some(k@),
            None => line_key(line@) is None,
        },
{
    let v = chars_of(line);
    let e = find_char(&v, '=');
    let b = find_char(&v, '{');
    if e < v.len() {
        let head = crate::text::vec_range(&v, 0, e);
        assert(head@ == line@.take(e as int));
        Some(trim_chars(&head))
    } else if b < v.len() {
        let head = crate::text::vec_range(&v, 0, b);
        assert(head@ == line@.take(b as int));
        Some(trim_chars(&head))
    } else {
        None
    }
}

fn first_base_with_key(base: &Vec<String>, k: &String) -> (r: Option<usize>)
    ensures
        match first_line_with_key(base@.map_values(|s: String| s@), k@, 0) {
            Some(i) => r == Some(i as usize),
            None => r is None,
        },
{
    let ghost bv = base@.map_values(|s: String| s@);
    let mut i: usize = 0;
    while i < base.len()
        invariant
            i <= base@.len(),
            bv == base@.map_values(|s: String| s@),
            first_line_with_key(bv, k@, 0) == first_line_with_key(bv, k@, i as int),
        decreases base@.len() - i,
    {
        let t = trim_chars(&chars_of(base[i].as_str()));
        assert(bv[i as int] == base@[i as int]@);
        match extract_key(t.as_str()) {
            Some(bk) => {
                if str_eq(bk.as_str(), k.as_str()) {
                    return Some(i);
                }
            },
            None => {},
        }
        i = i + 1;
    }
    None
}

fn join_lines(ls: &Vec<String>) -> (s: String)
    ensures
        s@ == joined_lines(ls@.map_values(|x: String| x@)),
{
    let ghost lv = ls@.map_values(|x: String| x@);
    let mut s = String::new();
    let mut i: usize = 0;
    while i < ls.len()
        invariant
            i <= ls@.len(),
            lv == ls@.map_values(|x: String| x@),
            s@ == joined_lines(lv.take(i as int)),
        decreases ls@.len() - i,
    {
        proof {
            assert(lv.take(i + 1).drop_last() == lv.take(i as int));
            assert(lv.take(i + 1).last() == ls@[i as int]@);
            assert(lv.take(i + 1)[0] == lv[0]);
        }
        if i > 0 {
            s.push('\n');
        }
        s.push_str(ls[i].as_str());
        i = i + 1;
    }
    proof {
        assert(lv.take(ls@.len() as int) == lv);
    }
    s
}

/// `base` with the lines of `over` applied: each key-bearing line of `over`
/// replaces the first line of `base` with the same key, other non-blank,
/// non-comment lines are added at the end; lines are joined with `'\n'`.
#[verifier::spinoff_prover]
#[verifier::rlimit(30)]
pub fn merge_configs(base: &str, over: &str) -> (s: String)
    ensures
        s@ == merge_config_text(base@, over@),
{
    let base_lines = lines_vec(&chars_of(base));
    let over_lines = lines_vec(&chars_of(over));
    let ghost bv = base_lines@.map_values(|x: String| x@);
    let ghost ov = over_lines@.map_values(|x: String| x@);
    proof {
        assert(bv =~= lines_of(base@));
        assert(ov =~= lines_of(over@));
    }
    let mut result: Vec<String> = Vec::new();
    let mut j: usize = 0;
    while j < base_lines.len()
        invariant
            j <= base_lines@.len(),
            bv == base_lines@.map_values(|x: String| x@),
            result@.map_values(|x: String| x@) == bv.take(j as int),
        decreases base_lines@.len() - j,
    {
        let ghost before = result@.map_values(|x: String| x@);
        let line = to_owned_string(base_lines[j].as_str());
        result.push(line);
        proof {
            assert(bv[j as int] == base_lines@[j as int]@);
            assert(result@.map_values(|x: String| x@) =~= before.push(bv[j as int]));
            assert(bv.take(j + 1) =~= bv.take(j as int).push(bv[j as int]));
        }
        j = j + 1;
    }
    proof {
        assert(bv.take(bv.len() as int) == bv);
    }
    let mut i: usize = 0;
    while i < over_lines.len()
        invariant
            i <= over_lines@.len(),
            bv == base_lines@.map_values(|x: String| x@),
            ov == over_lines@.map_values(|x: String| x@),
            result@.map_values(|x: String| x@) == merged_lines(bv, ov.take(i as int)),
        decreases over_lines@.len() - i,
    {
        proof {
            assert(ov.take(i + 1).drop_last() == ov.take(i as int));
            assert(ov.take(i + 1).last() == over_lines@[i as int]@);
            lemma_merged_len(bv, ov.take(i as int));
        }
        let ghost before = result@.map_values(|x: String| x@);
        let line = trim_chars(&chars_of(over_lines[i].as_str()));
        let lv = chars_of(line.as_str());
        proof {
            assert(ov[i as int] == over_lines@[i as int]@);
            assert(line@ == trimmed(ov[i as int]));
            assert(merged_lines(bv, ov.take(i + 1)) == merge_step(before, bv, ov[i as int]));
        }
        let ghost lg = line@;
        if lv.len() == 0 || lv[0] == '#' {
            assert(lg.len() == 0 || lg[0] == '#');
            assert(result@.map_values(|x: String| x@) == merge_step(before, bv, ov[i as int]));
        } else {
            assert(!(lg.len() == 0 || lg[0] == '#'));
            match extract_key(line.as_str()) {
                Some(k) => match first_base_with_key(&base_lines, &k) {
                    Some(at) => {
                        proof {
                            lemma_first_line_bounds(bv, k@, 0);
                        }
                        result.set(at, line);
                        proof {
                            assert(result@.map_values(|x: String| x@) =~= before.update(at as int, lg));
                            assert(result@.map_values(|x: String| x@) == merge_step(before, bv, ov[i as int]));
                        }
                    },
                    None => {
                        result.push(line);
                        proof {
                            assert(result@.map_values(|x: String| x@) =~= before.push(lg));
                            assert(result@.map_values(|x: String| x@) == merge_step(before, bv, ov[i as int]));
                        }
                    },
                },
                None => {
                    result.push(line);
                    proof {
                        assert(result@.map_values(|x: String| x@) =~= before.push(lg));
                        assert(result@.map_values(|x: String| x@) == merge_step(before, bv, ov[i as int]));
                    }
                },
            }
        }
        i = i + 1;
    }
    proof {
        assert(ov.take(ov.len() as int) == ov);
    }
    join_lines(&result)
}


/// An environment as plain values: its name, the name of the environment it
/// extends, and its text.
pub type EnvView = (Seq<char>, Option<Seq<char>>, Seq<char>);

/// One environment: its text, the environment it extends, and its tree when
/// the text parses.
#[derive(Debug)]
pub struct EnvironmentConfig {
    pub name: String,
    pub extends: Option<String>,
    pub content: String,
    pub ast: Option<Ast>,
}

pub open spec fn opt_text(o: Option<String>) -> Option<Seq<char>> {
    match o {
        Some(s) => Some(s@),
        None => None,
    }
}

pub open spec fn env_view(c: EnvironmentConfig) -> EnvView {
    (c.name@, opt_text(c.extends), c.content@)
}

/// The tree kept with an environment is the tree of its text; there is
/// one exactly when the text parses.
pub open spec fn tree_fits(c: EnvironmentConfig) -> bool {
    match c.ast {
        Some(a) => a.source.content@ == c.content@ && crate::parser::parses(c.content@),
        None => exists|e: crate::error::VerseconfError| #[trigger] crate::parser::parse_failure(c.content@, e),
    }
}

/// The first environment at or after `i` with the given name.
pub open spec fn env_index(envs: Seq<EnvView>, name: Seq<char>, i: int) -> Option<int>
    decreases envs.len() - i,
{
    if i < 0 || i >= envs.len() {
        None
    } else if envs[i].0 == name {
        Some(i)
    } else {
        env_index(envs, name, i + 1)
    }
}

/// `e` put in place of the environment of its name, or added at the end.
pub open spec fn put_env(envs: Seq<EnvView>, e: EnvView) -> Seq<EnvView> {
    match env_index(envs, e.0, 0) {
        Some(i) => envs.update(i, e),
        None => envs.push(e),
    }
}

/// Following `extends` from `name` ends within `fuel` steps, at an
/// environment that extends nothing or at a name that is not there.
pub open spec fn chain_ends(envs: Seq<EnvView>, name: Seq<char>, fuel: nat) -> bool
    decreases fuel,
{
    match env_index(envs, name, 0) {
        None => true,
        Some(i) => match envs[i].1 {
            None => true,
            Some(p) => fuel > 0 && chain_ends(envs, p, (fuel - 1) as nat),
        },
    }
}

/// The text an environment resolves to: its own text when it extends
/// nothing, else its text applied over what its parent resolves to.
pub open spec fn resolved(envs: Seq<EnvView>, name: Seq<char>, fuel: nat) -> Result<Seq<char>, Seq<char>>
    decreases fuel,
{
    match env_index(envs, name, 0) {
        None => Err("Environment '"@ + name + "' not found"@),
        Some(i) => match envs[i].1 {
            None => Ok(envs[i].2),
            Some(p) => if fuel == 0 {
                Err(Seq::empty())
            } else {
                match resolved(envs, p, (fuel - 1) as nat) {
                    Ok(t) => Ok(merge_config_text(t, envs[i].2)),
                    Err(e) => Err(e),
                }
            },
        },
    }
}

pub open spec fn result_text(r: Result<String, String>) -> Result<Seq<char>, Seq<char>> {
    match r {
        Ok(s) => Ok(s@),
        Err(e) => Err(e@),
    }
}

/// Environments by name.
pub struct EnvironmentManager {
    environments: Vec<EnvironmentConfig>,
    base_dir: String,
}

impl EnvironmentManager {
    #[verifier::type_invariant]
    spec fn trees_fit(self) -> bool {
        forall|i: int| 0 <= i < self.environments@.len() ==> tree_fits(#[trigger] self.environments@[i])
    }

    /// The environments in order.
    pub closed spec fn envs(&self) -> Seq<EnvView> {
        self.environments@.map_values(|c: EnvironmentConfig| env_view(c))
    }

    /// The directory the manager was made for.
    pub closed spec fn base_dir_text(&self) -> Seq<char> {
        self.base_dir@
    }

    pub fn new(base_dir: String) -> (m: Self)
        ensures
            m.envs() == Seq::<EnvView>::empty(),
            m.base_dir_text() == base_dir@,
    {
        let m = EnvironmentManager { environments: Vec::new(), base_dir };
        assert(m.envs() =~= Seq::<EnvView>::empty());
        m
    }

    fn find(&self, name: &str) -> (r: Option<usize>)
        ensures
            match r {
                Some(k) => env_index(self.envs(), name@, 0) == Some(k as int) && k < self.environments@.len(),
                None => env_index(self.envs(), name@, 0) is None,
            },
    {
        let ghost ev = self.envs();
        let mut i: usize = 0;
        while i < self.environments.len()
            invariant
                i <= self.environments@.len(),
                ev == self.envs(),
                ev.len() == self.environments@.len(),
                env_index(ev, name@, 0) == env_index(ev, name@, i as int),
            decreases self.environments@.len() - i,
        {
            assert(ev[i as int] == env_view(self.environments@[i as int]));
            if str_eq(self.environments[i].name.as_str(), name) {
                return Some(i);
            }
            i = i + 1;
        }
        None
    }

    /// Adds an environment, or replaces the one of the same name. Its text
    /// is parsed and the tree kept when it parses.
    pub fn add_environment(&mut self, name: &str, content: &str, extends: Option<&str>) -> (r: Result<(), String>)
        requires
            content@.len() < u32::MAX,
        ensures
            r is Ok,
            final(self).envs() == put_env(
                old(self).envs(),
                (
                    name@,
                    match extends {
                        Some(p) => Some(p@),
                        None => None,
                    },
                    content@,
                ),
            ),
            final(self).base_dir_text() == old(self).base_dir_text(),
    {
        proof {
            use_type_invariant(&*self);
        }
        let ast = match crate::parse(content) {
            Ok(a) => {
                proof {
                    assert(crate::parser::parses(content@));
                }
                Some(a)
            },
            Err(e) => {
                proof {
                    assert(crate::parser::parse_failure(content@, e));
                    assert(exists|x: crate::error::VerseconfError| #[trigger] crate::parser::parse_failure(content@, x));
                }
                None
            },
        };
        proof {
            assert(ast is None ==> exists|x: crate::error::VerseconfError| #[trigger] crate::parser::parse_failure(content@, x));
            assert(ast is Some ==> crate::parser::parses(content@));
        }
        let parent = match extends {
            Some(p) => Some(to_owned_string(p)),
            None => None,
        };
        let config = EnvironmentConfig {
            name: to_owned_string(name),
            extends: parent,
            content: to_owned_string(content),
            ast,
        };
        let ghost gc = config;
        let ghost before = self.envs();
        proof {
            assert(gc.content@ == content@);
            if gc.ast is None {
                let e = choose|x: crate::error::VerseconfError| #[trigger] crate::parser::parse_failure(content@, x);
                assert(crate::parser::parse_failure(gc.content@, e));
            }
        }
        assert(tree_fits(gc));
        assert(env_view(gc) == (
            name@,
            match extends {
                Some(p) => Some(p@),
                None => None,
            },
            content@,
        ));
        let at = self.find(name);
        let mut envs: Vec<EnvironmentConfig> = Vec::new();
        std::mem::swap(&mut envs, &mut self.environments);
        proof {
            assert(envs@.map_values(|c: EnvironmentConfig| env_view(c)) == before);
        }
        match at {
            Some(i) => {
                envs.set(i, config);
                proof {
                    assert(envs@.map_values(|c: EnvironmentConfig| env_view(c)) =~= before.update(i as int, env_view(gc)));
                }
            },
            None => {
                envs.push(config);
                proof {
                    assert(envs@.map_values(|c: EnvironmentConfig| env_view(c)) =~= before.push(env_view(gc)));
                }
            },
        }
        self.environments = envs;
        Ok(())
    }

    /// The environment of that name.
    pub fn get_environment(&self, name: &str) -> (r: Option<&EnvironmentConfig>)
        ensures
            match env_index(self.envs(), name@, 0) {
                Some(i) => r matches Some(c) && env_view(*c) == self.envs()[i] && tree_fits(*c),
                None => r is None,
            },
    {
        proof {
            use_type_invariant(self);
        }
        match self.find(name) {
            Some(i) => {
                assert(env_index(self.envs(), name@, 0) == Some(i as int));
                assert(self.envs()[i as int] == env_view(self.environments@[i as int]));
                assert(tree_fits(self.environments@[i as int]));
                Some(&self.environments[i])
            },
            None => None,
        }
    }

    /// The names of the environments.
    pub fn list_environments(&self) -> (r: Vec<&str>)
        ensures
            r@.len() == self.envs().len(),
            forall|i: int| 0 <= i < r@.len() ==> (#[trigger] r@[i])@ == self.envs()[i].0,
    {
        let mut r: Vec<&str> = Vec::new();
        let mut i: usize = 0;
        while i < self.environments.len()
            invariant
                i <= self.environments@.len(),
                r@.len() == i,
                forall|k: int| 0 <= k < i ==> (#[trigger] r@[k])@ == self.envs()[k].0,
            decreases self.environments@.len() - i,
        {
            r.push(self.environments[i].name.as_str());
            i = i + 1;
        }
        r
    }

    fn resolve_with(&self, name: &str, Ghost(fuel): Ghost<nat>) -> (r: Result<String, String>)
        requires
            chain_ends(self.envs(), name@, fuel),
        ensures
            result_text(r) == resolved(self.envs(), name@, fuel),
        decreases fuel,
    {
        match self.find(name) {
            None => {
                let mut m = String::new();
                m.push_str("Environment '");
                m.push_str(name);
                m.push_str("' not found");
                Err(m)
            },
            Some(i) => {
                let c = &self.environments[i];
                assert(self.envs()[i as int] == env_view(self.environments@[i as int]));
                match &c.extends {
                    None => Ok(to_owned_string(c.content.as_str())),
                    Some(p) => match {
                        assert(self.envs()[i as int].1 == Some(p@));
                        assert(fuel > 0);
                        self.resolve_with(p.as_str(), Ghost((fuel - 1) as nat))
                    } {
                        Ok(parent) => Ok(merge_configs(parent.as_str(), c.content.as_str())),
                        Err(e) => Err(e),
                    },
                }
            },
        }
    }

    /// The text an environment resolves to along its `extends` chain; an
    /// error names the first environment of the chain that is missing.
    pub fn resolve_environment(&self, name: &str) -> (r: Result<String, String>)
        requires
            exists|f: nat| chain_ends(self.envs(), name@, f),
        ensures
            result_text(r) == resolved(self.envs(), name@, choose|f: nat| chain_ends(self.envs(), name@, f)),
    {
        let ghost f = choose|f: nat| chain_ends(self.envs(), name@, f);
        self.resolve_with(name, Ghost(f))
    }

    /// The tree of the resolved text of an environment.
    pub fn resolve_environment_ast(&self, name: &str) -> (r: Result<Ast, String>)
        requires
            exists|f: nat| chain_ends(self.envs(), name@, f),
        ensures
            match resolved(self.envs(), name@, choose|f: nat| chain_ends(self.envs(), name@, f)) {
                Err(e) => r matches Err(m) && m@ == e,
                Ok(t) => match r {
                    Ok(a) => a.source.content@ == t,
                    Err(m) => crate::text::starts_with(m@, "Failed to parse resolved config: "@),
                },
            },
    {
        let text = match self.resolve_environment(name) {
            Ok(t) => t,
            Err(e) => {
                return Err(e);
            },
        };
        if chars_of(text.as_str()).len() >= u32::MAX as usize {
            let mut m = String::new();
            m.push_str("Failed to parse resolved config: ");
            m.push_str("the text is too large");
            proof {
                let pre = "Failed to parse resolved config: "@;
                assert((pre + "the text is too large"@).take(pre.len() as int) =~= pre);
            }
            return Err(m);
        }
        match crate::parse(text.as_str()) {
            Ok(a) => Ok(a),
            Err(e) => {
                let mut m = String::new();
                m.push_str("Failed to parse resolved config: ");
                let d = e.describe();
                m.push_str(d.as_str());
                proof {
                    let pre = "Failed to parse resolved config: "@;
                    assert((pre + d@).take(pre.len() as int) =~= pre);
                }
                Err(m)
            },
        }
    }
}


/// The value of the first pair with key `k`.
pub open spec fn pair_value(ps: Seq<(Seq<char>, Seq<char>)>, k: Seq<char>, i: int) -> Option<Seq<char>>
    decreases ps.len() - i,
{
    if i < 0 || i >= ps.len() {
        None
    } else if ps[i].0 == k {
        Some(ps[i].1)
    } else {
        pair_value(ps, k, i + 1)
    }
}

/// The index of the first pair with key `k`.
pub open spec fn pair_index(ps: Seq<(Seq<char>, Seq<char>)>, k: Seq<char>, i: int) -> Option<int>
    decreases ps.len() - i,
{
    if i < 0 || i >= ps.len() {
        None
    } else if ps[i].0 == k {
        Some(i)
    } else {
        pair_index(ps, k, i + 1)
    }
}

/// `(k, v)` put in place of the pair with key `k`, or added at the end.
pub open spec fn put_pair(ps: Seq<(Seq<char>, Seq<char>)>, k: Seq<char>, v: Seq<char>) -> Seq<(Seq<char>, Seq<char>)> {
    match pair_index(ps, k, 0) {
        Some(i) => ps.update(i, (k, v)),
        None => ps.push((k, v)),
    }
}

pub open spec fn pair_texts(ps: Seq<(String, String)>) -> Seq<(Seq<char>, Seq<char>)> {
    ps.map_values(|p: (String, String)| (p.0@, p.1@))
}

fn put(ps: &mut Vec<(String, String)>, k: &str, v: &str)
    ensures
        pair_texts(final(ps)@) == put_pair(pair_texts(old(ps)@), k@, v@),
{
    let ghost before = pair_texts(ps@);
    let mut i: usize = 0;
    while i < ps.len()
        invariant
            i <= ps@.len(),
            before == pair_texts(ps@),
            before == pair_texts(old(ps)@),
            pair_index(before, k@, 0) == pair_index(before, k@, i as int),
        decreases ps@.len() - i,
    {
        assert(before[i as int] == (ps@[i as int].0@, ps@[i as int].1@));
        if str_eq(ps[i].0.as_str(), k) {
            assert(pair_index(before, k@, i as int) == Some(i as int));
            ps.set(i, (to_owned_string(k), to_owned_string(v)));
            proof {
                assert(pair_texts(ps@) =~= before.update(i as int, (k@, v@)));
            }
            return;
        }
        i = i + 1;
    }
    ps.push((to_owned_string(k), to_owned_string(v)));
    proof {
        assert(pair_texts(ps@) =~= before.push((k@, v@)));
    }
}

fn get<'a>(ps: &'a Vec<(String, String)>, k: &str) -> (r: Option<&'a str>)
    ensures
        match r {
            Some(v) => pair_value(pair_texts(ps@), k@, 0) == Some(v@),
            None => pair_value(pair_texts(ps@), k@, 0) is None,
        },
{
    let ghost pv = pair_texts(ps@);
    let mut i: usize = 0;
    while i < ps.len()
        invariant
            i <= ps@.len(),
            pv == pair_texts(ps@),
            pair_value(pv, k@, 0) == pair_value(pv, k@, i as int),
        decreases ps@.len() - i,
    {
        assert(pv[i as int] == (ps@[i as int].0@, ps@[i as int].1@));
        if str_eq(ps[i].0.as_str(), k) {
            return Some(ps[i].1.as_str());
        }
        i = i + 1;
    }
    None
}

/// The environments a builder makes: `base` first when there is base text,
/// then each named text in order, with the parent given for its name.
pub open spec fn built_envs(
    base: Seq<char>,
    named: Seq<(Seq<char>, Seq<char>)>,
    parents: Seq<(Seq<char>, Seq<char>)>,
) -> Seq<EnvView>
    decreases named.len(),
{
    if named.len() == 0 {
        if base.len() == 0 {
            Seq::empty()
        } else {
            seq![("base"@, None, base)]
        }
    } else {
        put_env(
            built_envs(base, named.drop_last(), parents),
            (named.last().0, pair_value(parents, named.last().0, 0), named.last().1),
        )
    }
}

/// Builds a set of environments: a base text, named texts, and which
/// environment each extends.
pub struct MultiEnvBuilder {
    base_config: String,
    environments: Vec<(String, String)>,
    extends_map: Vec<(String, String)>,
}

impl MultiEnvBuilder {
    /// The base text.
    pub closed spec fn base(&self) -> Seq<char> {
        self.base_config@
    }

    /// Names and texts of the environments, each name once.
    pub closed spec fn named(&self) -> Seq<(Seq<char>, Seq<char>)> {
        pair_texts(self.environments@)
    }

    /// Which environment each name extends, each name once.
    pub closed spec fn parents(&self) -> Seq<(Seq<char>, Seq<char>)> {
        pair_texts(self.extends_map@)
    }

    pub fn new() -> (b: Self)
        ensures
            b.base().len() == 0,
            b.named().len() == 0,
            b.parents().len() == 0,
    {
        MultiEnvBuilder { base_config: String::new(), environments: Vec::new(), extends_map: Vec::new() }
    }

    /// Sets the base text.
    pub fn with_base(self, config: &str) -> (b: Self)
        ensures
            b.base() == config@,
            b.named() == self.named(),
            b.parents() == self.parents(),
    {
        let mut this = self;
        this.base_config = to_owned_string(config);
        this
    }

    /// Adds (or replaces) a named environment text.
    pub fn with_environment(self, name: &str, config: &str) -> (b: Self)
        ensures
            b.base() == self.base(),
            b.named() == put_pair(self.named(), name@, config@),
            b.parents() == self.parents(),
    {
        let mut this = self;
        put(&mut this.environments, name, config);
        this
    }

    /// Says that `env` extends `parent`.
    pub fn extends(self, env: &str, parent: &str) -> (b: Self)
        ensures
            b.base() == self.base(),
            b.named() == self.named(),
            b.parents() == put_pair(self.parents(), env@, parent@),
    {
        let mut this = self;
        put(&mut this.extends_map, env, parent);
        this
    }

    /// The environments, each parsed.
    pub fn build(self, base_dir: String) -> (r: Result<EnvironmentManager, String>)
        requires
            self.base().len() < u32::MAX,
            forall|i: int| 0 <= i < self.named().len() ==> (#[trigger] self.named()[i]).1.len() < u32::MAX,
        ensures
            r matches Ok(m) && m.envs() == built_envs(self.base(), self.named(), self.parents()) && m.base_dir_text()
                == base_dir@,
    {
        let mut manager = EnvironmentManager::new(base_dir);
        let ghost named = self.named();
        let ghost parents = self.parents();
        if self.base_config.as_str().unicode_len() > 0 {
            let _ = manager.add_environment("base", self.base_config.as_str(), None);
            proof {
                assert(put_env(Seq::<EnvView>::empty(), ("base"@, None, self.base())) =~= seq![("base"@, None, self.base())]);
            }
        }
        let mut i: usize = 0;
        while i < self.environments.len()
            invariant
                i <= self.environments@.len(),
                named == pair_texts(self.environments@),
                parents == pair_texts(self.extends_map@),
                forall|k: int| 0 <= k < named.len() ==> (#[trigger] named[k]).1.len() < u32::MAX,
                manager.envs() == built_envs(self.base(), named.take(i as int), parents),
                manager.base_dir_text() == base_dir@,
            decreases self.environments@.len() - i,
        {
            assert(named[i as int] == (self.environments@[i as int].0@, self.environments@[i as int].1@));
            let parent = get(&self.extends_map, self.environments[i].0.as_str());
            let _ = manager.add_environment(self.environments[i].0.as_str(), self.environments[i].1.as_str(), parent);
            proof {
                assert(named.take(i + 1).drop_last() == named.take(i as int));
                assert(named.take(i + 1).last() == named[i as int]);
            }
            i = i + 1;
        }
        proof {
            assert(named.take(named.len() as int) == named);
        }
        Ok(manager)
    }
}

impl Default for MultiEnvBuilder {
    fn default() -> (b: Self)
        ensures
            b.base().len() == 0,
            b.named().len() == 0,
            b.parents().len() == 0,
    {
        Self::new()
    }
}


proof fn lemma_env_index_found(envs: Seq<EnvView>, name: Seq<char>, i: int)
    requires
        0 <= i,
    ensures
        env_index(envs, name, i) matches Some(j) ==> i <= j < envs.len() && envs[j].0 == name && forall|k: int|
            i <= k < j ==> envs[k].0 != name,
        env_index(envs, name, i) is None ==> forall|k: int| i <= k < envs.len() ==> envs[k].0 != name,
    decreases envs.len() - i,
{
    if i < envs.len() && envs[i].0 != name {
        lemma_env_index_found(envs, name, i + 1);
    }
}

proof fn lemma_env_index_first(envs: Seq<EnvView>, name: Seq<char>, i: int, j: int)
    requires
        0 <= i <= j < envs.len(),
        envs[j].0 == name,
        forall|k: int| i <= k < j ==> envs[k].0 != name,
    ensures
        env_index(envs, name, i) == Some(j),
    decreases j - i,
{
    if i < j {
        lemma_env_index_first(envs, name, i + 1, j);
    }
}

/// What a write gives back: once an environment that extends nothing is
/// added, resolving it gives exactly its text.
pub proof fn lemma_added_environment_resolves(envs: Seq<EnvView>, name: Seq<char>, content: Seq<char>, fuel: nat)
    ensures
        chain_ends(put_env(envs, (name, None, content)), name, fuel),
        resolved(put_env(envs, (name, None, content)), name, fuel) == Ok::<Seq<char>, Seq<char>>(content),
{
    let e: EnvView = (name, None, content);
    let after = put_env(envs, e);
    lemma_env_index_found(envs, name, 0);
    match env_index(envs, name, 0) {
        Some(i) => {
            assert forall|k: int| 0 <= k < i implies after[k].0 != name by {
                assert(after[k] == envs[k]);
            }
            lemma_env_index_first(after, name, 0, i);
        },
        None => {
            lemma_env_index_first(after, name, 0, envs.len() as int);
        },
    }
}

} // verus!
