//! The parser front end: lexing, building the tree, and the tolerant mode
//! that reports duplicate keys and empty documents as warnings.

use vstd::prelude::*;
use crate::ast::{key_text, Ast, TableBlock, TableEntry};
use crate::builder::{document_ok, tokens_ok, AstBuilder, ParseError};
use crate::lexer::{lexes_from, token_kinds, LexError, Lexer};
use crate::token::Token;
use crate::span::{push_span_text, span_text, Span};
use crate::text::{chars_of, is_white_space, to_owned_string, trimmed, white_space};

verus! {

broadcast use vstd::string::group_string_axioms;

/// Parse options.
#[derive(Debug, Clone, Copy)]
pub struct ParseConfig {
    /// Report duplicate keys and empty documents as warnings.
    pub tolerant: bool,
    /// Collect warnings during parsing.
    pub collect_warnings: bool,
}

impl Default for ParseConfig {
    fn default() -> (c: ParseConfig)
        ensures
            !c.tolerant && !c.collect_warnings,
    {
        ParseConfig { tolerant: false, collect_warnings: false }
    }
}

/// The kind of a warning.
#[derive(Debug, Clone, Copy, PartialEq, Eq, Structural)]
pub enum WarningCategory {
    BooleanCase,
    QuoteStyle,
    Whitespace,
    Deprecated,
    Other,
}

/// A warning with its location.
#[derive(Debug, Clone)]
pub struct ParseWarning {
    pub message: String,
    pub span: Span,
    pub category: WarningCategory,
}

/// A parsed value together with the warnings met on the way.
#[derive(Debug)]
pub struct ParseResult<T> {
    pub value: T,
    pub warnings: Vec<ParseWarning>,
}

impl<T> ParseResult<T> {
    /// A result without warnings.
    pub fn new(value: T) -> (r: ParseResult<T>)
        ensures
            r.value == value,
            r.warnings@.len() == 0,
    {
        ParseResult { value, warnings: Vec::new() }
    }

    /// The same result with `warning` added at the end.
    pub fn with_warning(self, warning: ParseWarning) -> (r: ParseResult<T>)
        ensures
            r.value == self.value,
            r.warnings@ == self.warnings@.push(warning),
    {
        let mut this = self;
        this.warnings.push(warning);
        this
    }

    /// Whether any warning was collected.
    pub fn has_warnings(&self) -> (b: bool)
        ensures
            b == (self.warnings@.len() > 0),
    {
        self.warnings.len() > 0
    }
}

/// A warning with the given message, location and kind.
pub fn make_warning(message: &str, span: Span, category: WarningCategory) -> (w: ParseWarning)
    ensures
        w.message@ == message@,
        w.span == span,
        w.category == category,
{
    ParseWarning { message: to_owned_string(message), span, category }
}

/// A failure of either stage, lexing or building the tree.
#[derive(Debug, Clone)]
pub enum ParseStageError {
    Lex(LexError),
    Parse(ParseError),
}

impl ParseStageError {
    /// The message, without the location.
    pub fn message(&self) -> (s: &str)
        ensures
            s@ == match self {
                ParseStageError::Lex(e) => e.message@,
                ParseStageError::Parse(e) => e.message@,
            },
    {
        match self {
            ParseStageError::Lex(e) => e.message.as_str(),
            ParseStageError::Parse(e) => e.message.as_str(),
        }
    }

    /// Where the error is.
    pub fn span(&self) -> (s: Span)
        ensures
            s == match self {
                ParseStageError::Lex(e) => e.span,
                ParseStageError::Parse(e) => e.span,
            },
    {
        match self {
            ParseStageError::Lex(e) => e.span,
            ParseStageError::Parse(e) => e.span,
        }
    }

    /// Whether the lexer failed.
    pub fn is_lexical(&self) -> (b: bool)
        ensures
            b == (self is Lex),
    {
        match self {
            ParseStageError::Lex(_) => true,
            ParseStageError::Parse(_) => false,
        }
    }

    /// `message at line:column`, as the failing stage describes it.
    pub fn describe(&self) -> (s: String)
        ensures
            s@ == match self {
                ParseStageError::Lex(e) => e.message@ + " at "@ + span_text(e.span),
                ParseStageError::Parse(e) => e.message@ + " at "@ + span_text(e.span),
            },
    {
        proof { reveal_strlit(" at "); }
        match self {
            ParseStageError::Lex(e) => e.describe(),
            ParseStageError::Parse(e) => e.describe(),
        }
    }
}

/// The dotted path of a key under `prefix`.
pub open spec fn join_path(prefix: Seq<char>, name: Seq<char>) -> Seq<char> {
    if prefix.len() == 0 { name } else { prefix + seq!['.'] + name }
}

/// The path a nested table block contributes to its entries.
pub open spec fn child_prefix(prefix: Seq<char>, name: Option<String>) -> Seq<char> {
    match name {
        Some(n) => join_path(prefix, n@),
        None => prefix,
    }
}

/// The dotted paths and spans of the key-value entries of a table, depth
/// first, in source order, descending into nested table blocks.
pub open spec fn table_paths(t: TableBlock, prefix: Seq<char>) -> Seq<(Seq<char>, Span)>
    decreases t, 2nat,
{
    entries_paths(t.entries@, prefix)
}

/// [`table_paths`] of a list of entries.
pub open spec fn entries_paths(entries: Seq<TableEntry>, prefix: Seq<char>) -> Seq<(Seq<char>, Span)>
    decreases entries, 1nat,
{
    if entries.len() == 0 {
        Seq::empty()
    } else {
        entries_paths(entries.drop_last(), prefix) + entry_paths(entries.last(), prefix)
    }
}

/// [`table_paths`] of one entry.
pub open spec fn entry_paths(e: TableEntry, prefix: Seq<char>) -> Seq<(Seq<char>, Span)>
    decreases e, 0nat,
{
    match e {
        TableEntry::KeyValue(kv) => seq![(join_path(prefix, key_text(kv.key)), kv.span)],
        TableEntry::TableBlock(child) => table_paths(child, child_prefix(prefix, child.name)),
        _ => Seq::empty(),
    }
}

/// The span recorded for `path`, looking from the latest record back.
pub open spec fn lookup_path(seen: Seq<(Seq<char>, Span)>, path: Seq<char>) -> Option<Span>
    decreases seen.len(),
{
    if seen.len() == 0 {
        None
    } else if seen.last().0 == path {
        Some(seen.last().1)
    } else {
        lookup_path(seen.drop_last(), path)
    }
}

/// Walks the paths in order: a path met for the first time is recorded, a
/// path met again gives a duplicate `(path, span, first span)`.
pub open spec fn duplicate_scan(seen: Seq<(Seq<char>, Span)>, paths: Seq<(Seq<char>, Span)>) -> (
    Seq<(Seq<char>, Span)>,
    Seq<(Seq<char>, Span, Span)>,
)
    decreases paths.len(),
{
    if paths.len() == 0 {
        (seen, Seq::empty())
    } else {
        let (s1, d1) = duplicate_scan(seen, paths.drop_last());
        let p = paths.last();
        match lookup_path(s1, p.0) {
            Some(prev) => (s1, d1.push((p.0, p.1, prev))),
            None => (s1.push(p), d1),
        }
    }
}

/// The duplicates found in a whole table.
pub open spec fn duplicate_keys(t: TableBlock) -> Seq<(Seq<char>, Span, Span)> {
    duplicate_scan(Seq::empty(), table_paths(t, Seq::empty())).1
}

/// The message of a duplicate-key warning.
pub open spec fn duplicate_message(path: Seq<char>, span: Span, previous: Span) -> Seq<char> {
    "重复的键 '"@ + path + "'：本次出现在 "@ + span_text(span) + "，此前出现在 "@ + span_text(previous)
        + "，后者将覆盖前者"@
}

/// The message of the empty-document warning.
pub open spec fn empty_document_message() -> Seq<char> {
    "文件为空，没有任何配置项"@
}

/// `w` is the warning for duplicate `d`.
pub open spec fn duplicate_warning(w: ParseWarning, d: (Seq<char>, Span, Span)) -> bool {
    &&& w.message@ == duplicate_message(d.0, d.1, d.2)
    &&& w.span == d.1
    &&& w.category == WarningCategory::Other
}

/// `ws` are the warnings for `ds`, one for one.
pub open spec fn duplicate_warnings(ws: Seq<ParseWarning>, ds: Seq<(Seq<char>, Span, Span)>) -> bool {
    &&& ws.len() == ds.len()
    &&& forall|k: int| 0 <= k < ws.len() ==> duplicate_warning(#[trigger] ws[k], ds[k])
}

/// The warnings tolerant mode adds for a document: one when the source is
/// blank, then one for each duplicate key, in source order.
pub open spec fn tolerant_warnings(ws: Seq<ParseWarning>, root: TableBlock, source: Seq<char>) -> bool {
    if trimmed(source).len() == 0 {
        &&& ws.len() >= 1
        &&& ws[0].message@ == empty_document_message()
        &&& ws[0].span == (Span { start: 0, end: 0, line: 0, column: 0 })
        &&& ws[0].category == WarningCategory::Other
        &&& duplicate_warnings(ws.skip(1), duplicate_keys(root))
    } else {
        duplicate_warnings(ws, duplicate_keys(root))
    }
}

/// The view of a record of seen paths.
pub open spec fn seen_view(v: Seq<(String, Span)>) -> Seq<(Seq<char>, Span)> {
    v.map_values(|x: (String, Span)| (x.0@, x.1))
}

/// Scanning a concatenation scans the first part, then the second from
/// where the first left off.
pub proof fn lemma_duplicate_scan_append(
    seen: Seq<(Seq<char>, Span)>,
    a: Seq<(Seq<char>, Span)>,
    b: Seq<(Seq<char>, Span)>,
)
    ensures
        duplicate_scan(seen, a + b).0 == duplicate_scan(duplicate_scan(seen, a).0, b).0,
        duplicate_scan(seen, a + b).1 == duplicate_scan(seen, a).1 + duplicate_scan(
            duplicate_scan(seen, a).0,
            b,
        ).1,
    decreases b.len(),
{
    if b.len() == 0 {
        assert(a + b == a);
        assert(duplicate_scan(seen, a).1 + Seq::<(Seq<char>, Span, Span)>::empty() == duplicate_scan(seen, a).1);
    } else {
        assert((a + b).drop_last() == a + b.drop_last());
        assert((a + b).last() == b.last());
        lemma_duplicate_scan_append(seen, a, b.drop_last());
        let s_a = duplicate_scan(seen, a);
        let rest = duplicate_scan(s_a.0, b.drop_last());
        match lookup_path(rest.0, b.last().0) {
            Some(prev) => {
                assert(s_a.1 + rest.1.push((b.last().0, b.last().1, prev)) == (s_a.1 + rest.1).push(
                    (b.last().0, b.last().1, prev),
                ));
            },
            None => {},
        }
    }
}

/// The parser.
pub struct Parser {
    source: String,
    config: ParseConfig,
}

/// `s` lexes: lexing it from the start, in key context, reads tokens up to
/// `Eof`.
pub open spec fn lexes(s: Seq<char>) -> bool {
    exists|toks: Seq<Token>| #[trigger] lexes_from(s, 0, true, toks)
}

/// `s` is a document: the tokens lexing it gives read by the grammar.
pub open spec fn parses(s: Seq<char>) -> bool {
    exists|toks: Seq<(Token, Span)>| #[trigger] lexes_from(s, 0, true, token_kinds(toks)) && tokens_ok(toks) && document_ok(toks)
}

/// Why `s` does not parse, as the error `e` says: it does not lex, or its
/// tokens do not read by the grammar.
pub open spec fn parse_failure(s: Seq<char>, e: crate::error::VerseconfError) -> bool {
    (e is Lex && !lexes(s)) || (e is Parse && lexes_but_fails(s))
}

/// `s` lexes, but the tokens lexing it gives do not read by the grammar.
pub open spec fn lexes_but_fails(s: Seq<char>) -> bool {
    exists|toks: Seq<(Token, Span)>|
        #[trigger] lexes_from(s, 0, true, token_kinds(toks)) && tokens_ok(toks) && !document_ok(toks)
}

impl Parser {
    /// A parser for `source` with the default options.
    pub fn new(source: String) -> (p: Parser)
        ensures
            p.source_text() == source@,
            !p.options().tolerant,
    {
        Parser { source, config: ParseConfig::default() }
    }

    /// A parser for `source` with the given options.
    pub fn with_config(source: String, config: ParseConfig) -> (p: Parser)
        ensures
            p.source_text() == source@,
            p.options() == config,
    {
        Parser { source, config }
    }

    /// The source being parsed.
    pub closed spec fn source_text(&self) -> Seq<char> {
        self.source@
    }

    /// The options in force.
    pub closed spec fn options(&self) -> ParseConfig {
        self.config
    }

    /// Lexes and builds the tree. The tree keeps the source text.
    pub fn parse(&self) -> (r: Result<Ast, ParseStageError>)
        requires
            self.source_text().len() < u32::MAX,
        ensures
            r matches Ok(ast) ==> ast.source.content@ == self.source_text() && ast.source.path is None && parses(
                self.source_text(),
            ),
            r matches Err(ParseStageError::Lex(_)) ==> !lexes(self.source_text()),
            r matches Err(ParseStageError::Parse(_)) ==> lexes_but_fails(self.source_text()),
    {
        let mut lexer = Lexer::new(self.source.as_str());
        let ghost l0 = lexer;
        assert(l0.source() == self.source_text() && l0.index() == 0 && crate::lexer::key_ctx(l0.ctx()));
        let tokens = match lexer.tokenize_all() {
            Ok(t) => t,
            Err(e) => {
                proof {
                    assert forall|toks: Seq<Token>| !#[trigger] lexes_from(self.source_text(), 0, true, toks) by {
                        assert(!lexes_from(l0.source(), l0.index(), crate::lexer::key_ctx(l0.ctx()), toks));
                    }
                }
                return Err(ParseStageError::Lex(e));
            },
        };
        let n = tokens.len();
        proof { assert(crate::builder::tokens_ok(tokens@)); }
        let mut builder = AstBuilder::new(self.source.clone());
        match builder.build(&tokens) {
            Ok(ast) => {
                proof {
                    assert(lexes_from(self.source_text(), 0, true, token_kinds(tokens@)) && tokens_ok(tokens@)
                        && document_ok(tokens@));
                }
                Ok(ast)
            },
            Err(e) => {
                proof {
                    assert(lexes_from(self.source_text(), 0, true, token_kinds(tokens@)) && tokens_ok(tokens@)
                        && !document_ok(tokens@));
                }
                Err(ParseStageError::Parse(e))
            },
        }
    }

    /// Like [`Parser::parse`]; in tolerant mode the result also carries the
    /// warnings of [`tolerant_warnings`].
    pub fn parse_with_warnings(&self) -> (r: Result<ParseResult<Ast>, ParseStageError>)
        requires
            self.source_text().len() < u32::MAX,
        ensures
            r matches Ok(res) ==> {
                &&& res.value.source.content@ == self.source_text()
                &&& self.options().tolerant ==> tolerant_warnings(res.warnings@, res.value.root, self.source_text())
                &&& !self.options().tolerant ==> res.warnings@.len() == 0
                &&& parses(self.source_text())
            },
            r matches Err(ParseStageError::Lex(_)) ==> !lexes(self.source_text()),
            r matches Err(ParseStageError::Parse(_)) ==> lexes_but_fails(self.source_text()),
    {
        let ast = match self.parse() {
            Ok(a) => a,
            Err(e) => {
                return Err(e);
            },
        };
        let result = ParseResult::new(ast);
        if self.config.tolerant {
            let fixed = Self::apply_tolerant_fixes(result, self.source.as_str());
            proof {
                assert(fixed.warnings@.skip(0) == fixed.warnings@);
            }
            Ok(fixed)
        } else {
            Ok(result)
        }
    }

    /// Appends the duplicate-key warnings of `table` (under `prefix`) to
    /// `warnings`, recording first occurrences in `seen`.
    fn collect_duplicate_key_warnings(
        table: &TableBlock,
        prefix: &str,
        seen: &mut Vec<(String, Span)>,
        warnings: &mut Vec<ParseWarning>,
    )
        ensures
            seen_view(final(seen)@) == duplicate_scan(seen_view(old(seen)@), table_paths(*table, prefix@)).0,
            final(warnings)@.len() >= old(warnings)@.len(),
            final(warnings)@.take(old(warnings)@.len() as int) == old(warnings)@,
            duplicate_warnings(
                final(warnings)@.skip(old(warnings)@.len() as int),
                duplicate_scan(seen_view(old(seen)@), table_paths(*table, prefix@)).1,
            ),
        decreases table,
    {
        let ghost seen0 = seen_view(seen@);
        let ghost w0 = warnings@;
        let has_prefix = chars_of(prefix).len() > 0;
        let mut i: usize = 0;
        while i < table.entries.len()
            invariant
                i <= table.entries@.len(),
                has_prefix == (prefix@.len() > 0),
                seen_view(seen@) == duplicate_scan(seen0, entries_paths(table.entries@.take(i as int), prefix@)).0,
                warnings@.len() >= w0.len(),
                warnings@.take(w0.len() as int) == w0,
                duplicate_warnings(
                    warnings@.skip(w0.len() as int),
                    duplicate_scan(seen0, entries_paths(table.entries@.take(i as int), prefix@)).1,
                ),
            decreases table.entries@.len() - i,
        {
            let ghost before = entries_paths(table.entries@.take(i as int), prefix@);
            let ghost seen_i = seen_view(seen@);
            let ghost wi = warnings@;
            proof {
                assert(table.entries@.take(i + 1).drop_last() == table.entries@.take(i as int));
                assert(table.entries@.take(i + 1).last() == table.entries@[i as int]);
                lemma_duplicate_scan_append(seen0, before, entry_paths(table.entries@[i as int], prefix@));
            }
            match &table.entries[i] {
                TableEntry::KeyValue(kv) => {
                    let mut path = String::new();
                    if has_prefix {
                        path.push_str(prefix);
                        path.push('.');
                    }
                    path.push_str(kv.key.as_str());
                    proof {
                        assert(path@ == join_path(prefix@, key_text(kv.key)));
                    }
                    let found = Self::find_seen(seen, &path);
                    let ghost pv = path@;
                    let ghost one = seq![(path@, kv.span)];
                    proof {
                        assert(one.drop_last() == Seq::<(Seq<char>, Span)>::empty());
                        assert(one.last() == (pv, kv.span));
                        assert(duplicate_scan(seen_i, one.drop_last()) == (seen_i, Seq::<(Seq<char>, Span, Span)>::empty()));
                    }
                    match found {
                        Some(previous) => {
                            let w = Self::duplicate_warning_for(&path, kv.span, previous);
                            warnings.push(w);
                            proof {
                                assert(duplicate_scan(seen_i, one).1 == seq![(pv, kv.span, previous)]);
                            }
                        },
                        None => {
                            let ghost old_seen = seen@;
                            seen.push((path, kv.span));
                            proof {
                                assert(seen_view(seen@) == seen_view(old_seen).push((pv, kv.span)));
                            }
                        },
                    }
                    proof {
                        assert(seen_view(seen@) == duplicate_scan(seen_i, one).0);
                        assert(warnings@.skip(w0.len() as int) == wi.skip(w0.len() as int) + warnings@.skip(
                            wi.len() as int,
                        ));
                    }
                },
                TableEntry::TableBlock(child) => {
                    let mut child_path = String::new();
                    match &child.name {
                        Some(name) => {
                            if has_prefix {
                                child_path.push_str(prefix);
                                child_path.push('.');
                            }
                            child_path.push_str(name.as_str());
                        },
                        None => {
                            child_path.push_str(prefix);
                        },
                    }
                    proof {
                        assert(child_path@ == child_prefix(prefix@, child.name));
                    }
                    Self::collect_duplicate_key_warnings(child, child_path.as_str(), seen, warnings);
                    proof {
                        assert(warnings@.skip(w0.len() as int) == wi.skip(w0.len() as int) + warnings@.skip(
                            wi.len() as int,
                        ));
                    }
                },
                _ => {
                    proof {
                        assert(entry_paths(table.entries@[i as int], prefix@) == Seq::<(Seq<char>, Span)>::empty());
                        assert(before + Seq::<(Seq<char>, Span)>::empty() == before);
                    }
                },
            }
            i = i + 1;
        }
        proof {
            assert(table.entries@.take(table.entries@.len() as int) == table.entries@);
        }
    }

    /// The span recorded for `path`, if any.
    fn find_seen(seen: &Vec<(String, Span)>, path: &String) -> (r: Option<Span>)
        ensures
            r == lookup_path(seen_view(seen@), path@),
    {
        let mut j: usize = seen.len();
        proof { assert(seen@.take(j as int) == seen@); }
        while j > 0
            invariant
                j <= seen@.len(),
                lookup_path(seen_view(seen@), path@) == lookup_path(seen_view(seen@.take(j as int)), path@),
            decreases j,
        {
            proof {
                assert(seen_view(seen@.take(j as int)).drop_last() == seen_view(seen@.take(j - 1)));
            }
            if crate::text::str_eq(seen[j - 1].0.as_str(), path.as_str()) {
                return Some(seen[j - 1].1);
            }
            j = j - 1;
        }
        None
    }

    /// The warning for a duplicate `path` at `span`, first seen at `previous`.
    fn duplicate_warning_for(path: &String, span: Span, previous: Span) -> (w: ParseWarning)
        ensures
            duplicate_warning(w, (path@, span, previous)),
    {
        let mut message = String::new();
        message.push_str("重复的键 '");
        message.push_str(path.as_str());
        message.push_str("'：本次出现在 ");
        push_span_text(&mut message, &span);
        message.push_str("，此前出现在 ");
        push_span_text(&mut message, &previous);
        message.push_str("，后者将覆盖前者");
        ParseWarning { message, span, category: WarningCategory::Other }
    }

    /// Adds the tolerant-mode warnings: a blank source, and each key that
    /// occurs again under the same path (the later value wins).
    fn apply_tolerant_fixes(result: ParseResult<Ast>, source: &str) -> (r: ParseResult<Ast>)
        ensures
            r.value == result.value,
            r.warnings@.len() >= result.warnings@.len(),
            r.warnings@.take(result.warnings@.len() as int) == result.warnings@,
            tolerant_warnings(r.warnings@.skip(result.warnings@.len() as int), result.value.root, source@),
    {
        let mut result = result;
        let ghost w0 = result.warnings@;
        let v = chars_of(source);
        let blank = Self::all_blank(&v);
        if blank {
            result.warnings.push(make_warning("文件为空，没有任何配置项", Span::unknown(), WarningCategory::Other));
        }
        let ghost w1 = result.warnings@;
        let mut seen: Vec<(String, Span)> = Vec::new();
        proof {
            assert(seen_view(seen@) == Seq::<(Seq<char>, Span)>::empty());
        }
        Self::collect_duplicate_key_warnings(&result.value.root, "", &mut seen, &mut result.warnings);
        proof {
            reveal_strlit("");
            assert(""@ == Seq::<char>::empty());
            let ws = result.warnings@;
            let root = result.value.root;
            assert(duplicate_warnings(ws.skip(w1.len() as int), duplicate_keys(root)));
            assert(ws.take(w0.len() as int) == w1.take(w0.len() as int));
            if blank {
                assert(w1.len() == w0.len() + 1);
                assert(ws[w0.len() as int] == ws.take(w1.len() as int)[w0.len() as int]);
                assert(ws.skip(w0.len() as int)[0] == ws[w0.len() as int]);
                assert(ws.skip(w0.len() as int).skip(1) == ws.skip(w1.len() as int));
                assert(tolerant_warnings(ws.skip(w0.len() as int), root, source@));
            } else {
                assert(w1 == w0);
                assert(tolerant_warnings(ws.skip(w0.len() as int), root, source@));
            }
        }
        result
    }

    /// Whether every character is white space (the trimmed text is empty).
    fn all_blank(v: &Vec<char>) -> (b: bool)
        ensures
            b == (trimmed(v@).len() == 0),
    {
        let mut i: usize = 0;
        while i < v.len()
            invariant
                i <= v@.len(),
                forall|k: int| 0 <= k < i ==> is_white_space(#[trigger] v@[k]),
            decreases v@.len() - i,
        {
            if !white_space(v[i]) {
                proof { crate::text::lemma_trimmed_empty_iff(v@); }
                return false;
            }
            i = i + 1;
        }
        proof { crate::text::lemma_trimmed_empty_iff(v@); }
        true
    }
}

} // verus!
