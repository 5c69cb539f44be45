//! Writing a tree back as VerseConf text: consistent indentation, quoted
//! strings escaped, comments and metadata kept, and in the canonical mode
//! the entries of each table sorted by key.

use vstd::prelude::*;
use crate::ast::{
    comment_text, key_text, merge_strategy_name, unit_symbol, Ast, Comment, Expression, Key, KeyValue,
    MergeStrategy, MetadataItem, MetadataValue, NumberValue, ScalarValue, StandardMetadata, TableBlock,
    TableEntry, Value,
};
use crate::engine::diff_comparator::{duration_text, lemma_duration_text_reads_back, number_text, operator_text};
use crate::builder::{duration_parts, lemma_duration_suffix_names_unit};
use crate::numeric::{all_digits, digits_value, lemma_int_text_injective};
use crate::engine::diff_formatter::{escape_json_string, escapes_well, json_escape, json_escape_char, lemma_json_escape_reads_back, unescaped};
use crate::chars::{byte_len, char_width, lemma_byte_len_take_step};
use crate::lexer::Lexer;
use crate::span::Span;
use crate::text::{chars_of, int_text, push_i64, push_repeated, repeat_seq};
use crate::token::Token;

verus! {

broadcast use vstd::string::group_string_axioms;

/// Indentation with spaces or tabs.
#[derive(Debug, Clone, Copy, PartialEq, Eq, Structural)]
pub enum IndentStyle {
    Spaces,
    Tabs,
}

/// Printer options.
#[derive(Debug, Clone, Copy)]
pub struct PrettyPrintConfig {
    pub indent_size: usize,
    pub indent_style: IndentStyle,
    pub max_line_length: usize,
    pub preserve_comments: bool,
    pub preserve_metadata: bool,
    /// Arrays of at most three elements on one line.
    pub inline_short_arrays: bool,
    /// A comma after each element of a multi-line array.
    pub trailing_comma: bool,
    /// Entries of each table sorted by key.
    pub ai_canonical: bool,
}

/// The default options: two spaces, comments and metadata kept, short
/// arrays inline, trailing commas, source order.
pub open spec fn default_config(c: PrettyPrintConfig) -> bool {
    &&& c.indent_size == 2
    &&& c.indent_style == IndentStyle::Spaces
    &&& c.max_line_length == 80
    &&& c.preserve_comments
    &&& c.preserve_metadata
    &&& c.inline_short_arrays
    &&& c.trailing_comma
    &&& !c.ai_canonical
}

impl Default for PrettyPrintConfig {
    fn default() -> (c: PrettyPrintConfig)
        ensures
            default_config(c),
    {
        PrettyPrintConfig {
            indent_size: 2,
            indent_style: IndentStyle::Spaces,
            max_line_length: 80,
            preserve_comments: true,
            preserve_metadata: true,
            inline_short_arrays: true,
            trailing_comma: true,
            ai_canonical: false,
        }
    }
}

impl PrettyPrintConfig {
    /// The default options with keys sorted.
    pub fn ai_canonical() -> (c: PrettyPrintConfig)
        ensures
            c == (PrettyPrintConfig { ai_canonical: true, ..c }),
            default_config(PrettyPrintConfig { ai_canonical: false, ..c }),
            c.ai_canonical,
    {
        PrettyPrintConfig {
            indent_size: 2,
            indent_style: IndentStyle::Spaces,
            max_line_length: 80,
            preserve_comments: true,
            preserve_metadata: true,
            inline_short_arrays: true,
            trailing_comma: true,
            ai_canonical: true,
        }
    }
}

/// A string literal: in double quotes, with `"`, `\`, newline, tab and
/// carriage return escaped.
pub open spec fn quoted(s: Seq<char>) -> Seq<char> {
    seq!['"'] + json_escape(s) + seq!['"']
}

/// A key as written: bare, or quoted.
pub open spec fn key_fmt(k: Key) -> Seq<char> {
    match k {
        Key::BareKey(s) => s@,
        Key::QuotedKey(s) => quoted(s@),
    }
}

/// Whether a table name can be written bare: an ASCII letter or `_`, then
/// ASCII letters, digits, `_` or `-`.
pub open spec fn bare_name(s: Seq<char>) -> bool {
    &&& s.len() > 0
    &&& (('a' <= s[0] && s[0] <= 'z') || ('A' <= s[0] && s[0] <= 'Z') || s[0] == '_')
    &&& forall|i: int| 1 <= i < s.len() ==> {
        let c = #[trigger] s[i];
        ('a' <= c && c <= 'z') || ('A' <= c && c <= 'Z') || ('0' <= c && c <= '9') || c == '_' || c == '-'
    }
}

/// A table name as written.
pub open spec fn table_name_fmt(s: Seq<char>) -> Seq<char> {
    if bare_name(s) { s } else { quoted(s) }
}

/// A custom metadata value as written.
pub open spec fn metadata_value_fmt(v: MetadataValue) -> Seq<char> {
    match v {
        MetadataValue::String(s) => quoted(s@),
        MetadataValue::Number(s) => s@,
        MetadataValue::Range { min, max } => seq!['('] + min@ + ".."@ + max@ + seq![')'],
    }
}

/// A standard metadata item as written.
pub open spec fn standard_fmt(m: StandardMetadata) -> Seq<char> {
    match m {
        StandardMetadata::Sensitive => "sensitive"@,
        StandardMetadata::Required => "required"@,
        StandardMetadata::Deprecated { message } => match message {
            Some(msg) => "deprecated="@ + quoted(msg@),
            None => "deprecated"@,
        },
        StandardMetadata::Description { text } => "description="@ + quoted(text@),
        StandardMetadata::Example { value } => "example="@ + quoted(value@),
        StandardMetadata::TypeHint { hint } => "type_hint="@ + quoted(hint@),
        StandardMetadata::ItemType { item_type } => "item_type="@ + quoted(item_type@),
        StandardMetadata::Range { min, max } => "range("@ + min@ + ".."@ + max@ + seq![')'],
    }
}

/// One metadata item, with its leading space.
pub open spec fn item_fmt(item: MetadataItem) -> Seq<char> {
    match item {
        MetadataItem::Standard(s) => seq![' '] + standard_fmt(s),
        MetadataItem::Custom { key, value } => match value {
            Some(v) => seq![' '] + key@ + seq!['='] + metadata_value_fmt(v),
            None => seq![' '] + key@,
        },
    }
}

/// Metadata items separated by commas.
pub open spec fn items_fmt(items: Seq<MetadataItem>) -> Seq<char>
    decreases items.len(),
{
    if items.len() == 0 {
        Seq::empty()
    } else if items.len() == 1 {
        item_fmt(items[0])
    } else {
        items_fmt(items.drop_last()) + seq![','] + item_fmt(items.last())
    }
}

/// A scalar as written.
pub open spec fn scalar_fmt(s: ScalarValue) -> Seq<char> {
    match s {
        ScalarValue::String(t) => quoted(t@),
        ScalarValue::Number(n) => number_text(n),
        ScalarValue::Boolean(b) => if b { "true"@ } else { "false"@ },
        ScalarValue::DateTime(t) => t@,
        ScalarValue::Duration(secs) => duration_text(secs),
    }
}

/// An expression as written.
pub open spec fn expression_fmt(e: Expression) -> Seq<char>
    decreases e,
{
    match e {
        Expression::Literal(s) => scalar_fmt(s),
        Expression::BinaryOp { left, operator, right } => expression_fmt(*left) + seq![' '] + operator_text(
            operator,
        ) + seq![' '] + expression_fmt(*right),
        Expression::UnitValue { value, unit } => value@ + unit_symbol(unit),
    }
}

/// A unit value prints as a duration literal: read as a duration, the
/// printed text gives back the value's number and its unit.
pub proof fn lemma_unit_value_prints_as_duration(e: Expression)
    ensures
        (e matches Expression::UnitValue { value, unit } ==> duration_parts(expression_fmt(e)) == Some((value@, unit))),
{
    if let Expression::UnitValue { value, unit } = e {
        lemma_duration_suffix_names_unit(value@, ' ');
    }
}

/// A duration prints as a run of digits and a unit letter that make its
/// number of seconds.
pub proof fn lemma_duration_prints_its_seconds(secs: u64)
    ensures
        duration_parts(scalar_fmt(ScalarValue::Duration(secs))) matches Some((num, u)) && all_digits(num)
            && digits_value(num) * crate::ast::unit_seconds(u) == secs,
{
    lemma_duration_text_reads_back(secs);
}

/// A string prints between double quotes, as text that holds no bare
/// quote, line break or tab and whose escapes read back as the string.
pub proof fn lemma_string_prints_quoted(t: String)
    ensures
        ({
            let f = scalar_fmt(ScalarValue::String(t));
            &&& f.len() >= 2 && f[0] == '"' && f[f.len() - 1] == '"'
            &&& escapes_well(f.subrange(1, f.len() - 1))
            &&& unescaped(f.subrange(1, f.len() - 1)) == t@
        }),
{
    let f = scalar_fmt(ScalarValue::String(t));
    assert(f.subrange(1, f.len() - 1) =~= json_escape(t@));
    lemma_json_escape_reads_back(t@);
}

proof fn lemma_json_escape_append(a: Seq<char>, b: Seq<char>)
    ensures
        json_escape(a + b) == json_escape(a) + json_escape(b),
    decreases b.len(),
{
    if b.len() == 0 {
        assert(a + b =~= a);
        assert(json_escape(a) + json_escape(b) =~= json_escape(a));
    } else {
        lemma_json_escape_append(a, b.drop_last());
        assert((a + b).drop_last() =~= a + b.drop_last());
        assert((a + b).last() == b.last());
        assert(json_escape(a) + json_escape(b) =~= json_escape(a) + json_escape(b.drop_last()) + json_escape_char(
            b.last(),
        ));
    }
}

proof fn lemma_json_escape_front(c: char, t: Seq<char>)
    ensures
        json_escape(seq![c] + t) == json_escape_char(c) + json_escape(t),
{
    lemma_json_escape_append(seq![c], t);
    assert(seq![c].drop_last() =~= Seq::<char>::empty());
    assert(json_escape(Seq::<char>::empty()) == Seq::<char>::empty());
    assert(json_escape(seq![c]) == json_escape(seq![c].drop_last()) + json_escape_char(seq![c].last()));
    assert(Seq::<char>::empty() + json_escape_char(c) =~= json_escape_char(c));
}

/// The lexer reads an escaped body followed by a quote back as the text.
proof fn lemma_scan_escaped(s: Seq<char>, i: int, t: Seq<char>)
    requires
        0 <= i,
        i + json_escape(t).len() + 1 <= s.len(),
        s.subrange(i, i + json_escape(t).len() + 1) == json_escape(t) + seq!['"'],
    ensures
        crate::lexer::scan_string(s, i) == Some((t, i + json_escape(t).len() + 1)),
    decreases t.len(),
{
    if t.len() == 0 {
        assert(json_escape(t).len() == 0);
        assert(s[i] == s.subrange(i, i + 1)[0]);
    } else {
        let c = t[0];
        let rest = t.drop_first();
        assert(t =~= seq![c] + rest);
        lemma_json_escape_front(c, rest);
        let ec = json_escape_char(c);
        let w = ec.len() as int;
        let sub = s.subrange(i, i + json_escape(t).len() + 1);
        assert(s.subrange(i + w, i + w + json_escape(rest).len() + 1) =~= json_escape(rest) + seq!['"']) by {
            assert forall|k: int| 0 <= k < json_escape(rest).len() + 1 implies #[trigger] s.subrange(
                i + w,
                i + w + json_escape(rest).len() + 1,
            )[k] == (json_escape(rest) + seq!['"'])[k] by {
                assert(sub[w + k] == s[i + w + k]);
            }
        }
        lemma_scan_escaped(s, i + w, rest);
        assert(s[i] == sub[0]);
        if w == 2 {
            assert(s[i + 1] == sub[1]);
            assert(crate::lexer::unescape(ec[1]) =~= seq![c]);
            assert(crate::lexer::unescape(s[i + 1]) + rest =~= t);
        } else {
            assert(seq![s[i]] + rest =~= t);
        }
    }
}

/// A string prints as a literal that the lexer reads back as the same
/// text, ending at the printed closing quote.
pub proof fn lemma_string_lexes_back(t: String)
    ensures
        scalar_fmt(ScalarValue::String(t))[0] == '"',
        crate::lexer::scan_string(scalar_fmt(ScalarValue::String(t)), 1) == Some(
            (t@, scalar_fmt(ScalarValue::String(t)).len() as int),
        ),
{
    let f = scalar_fmt(ScalarValue::String(t));
    assert(f.subrange(1, 1 + json_escape(t@).len() + 1int) =~= json_escape(t@) + seq!['"']);
    lemma_scan_escaped(f, 1, t@);
}

/// An operator prints as the character that the lexer, reading a value,
/// takes for that same operator.
pub proof fn lemma_operator_lexes_back(op: crate::ast::BinaryOperator)
    ensures
        crate::lexer::token_spec(
            operator_text(op),
            0,
            false,
            Ok(
                Token::Operator(
                    match op {
                        crate::ast::BinaryOperator::Add => crate::token::Operator::Add,
                        crate::ast::BinaryOperator::Subtract => crate::token::Operator::Subtract,
                        crate::ast::BinaryOperator::Multiply => crate::token::Operator::Multiply,
                        crate::ast::BinaryOperator::Divide => crate::token::Operator::Divide,
                    },
                ),
            ),
            1,
        ),
{
    reveal_strlit("+");
    reveal_strlit("-");
    reveal_strlit("*");
    reveal_strlit("/");
}

/// The operator parsed from an operator token prints as a symbol that the
/// lexer reads as that same token.
pub proof fn lemma_parsed_operator_prints_back(o: crate::token::Operator)
    ensures
        crate::lexer::token_spec(operator_text(crate::builder::binary_of(o)), 0, false, Ok(Token::Operator(o)), 1),
{
    lemma_operator_lexes_back(crate::builder::binary_of(o));
}

/// A boolean prints as the word that the lexer, reading a value, takes for
/// that same boolean.
pub proof fn lemma_boolean_lexes_back(b: bool)
    ensures
        crate::lexer::token_spec(
            scalar_fmt(ScalarValue::Boolean(b)),
            0,
            false,
            Ok(Token::BooleanLiteral(b)),
            scalar_fmt(ScalarValue::Boolean(b)).len() as int,
        ),
{
    reveal_strlit("true");
    reveal_strlit("false");
    let f = scalar_fmt(ScalarValue::Boolean(b));
    let n = f.len() as int;
    assert(crate::lexer::word_end(f, n) == n);
    assert(crate::lexer::word_end(f, n - 1) == n);
    assert(crate::lexer::word_end(f, n - 2) == n);
    assert(crate::lexer::word_end(f, n - 3) == n);
    assert(crate::lexer::word_end(f, n - 4) == n);
    if !b {
        assert(crate::lexer::word_end(f, 0) == n);
    }
    assert(f.subrange(0, n) =~= f);
}

/// An integer prints as text that reading a number token gives back as
/// the same integer.
pub proof fn lemma_integer_reads_back(n: i64)
    ensures
        crate::builder::number_reads_as(
            scalar_fmt(ScalarValue::Number(NumberValue::Integer(n))),
            ScalarValue::Number(NumberValue::Integer(n)),
        ),
{
    crate::numeric::lemma_int_text_reads_back(n);
}

/// A decimal prints as text that reading a number token gives back as the
/// same decimal.
pub proof fn lemma_decimal_reads_back(t: String)
    requires
        t@.contains('.'),
    ensures
        crate::builder::number_reads_as(
            scalar_fmt(ScalarValue::Number(NumberValue::Float(t))),
            ScalarValue::Number(NumberValue::Float(t)),
        ),
{
}

/// Different values of one kind print differently: two booleans, strings,
/// integers, decimals, date-times or durations with the same printed text
/// are the same value.
pub proof fn lemma_scalar_fmt_distinguishes(a: ScalarValue, b: ScalarValue)
    ensures
        scalar_fmt(a) == scalar_fmt(b) ==> (match (a, b) {
            (ScalarValue::Boolean(x), ScalarValue::Boolean(y)) => x == y,
            (ScalarValue::String(x), ScalarValue::String(y)) => x@ == y@,
            (ScalarValue::DateTime(x), ScalarValue::DateTime(y)) => x@ == y@,
            (ScalarValue::Number(NumberValue::Integer(x)), ScalarValue::Number(NumberValue::Integer(y))) => x == y,
            (ScalarValue::Number(NumberValue::Float(x)), ScalarValue::Number(NumberValue::Float(y))) => x@ == y@,
            (ScalarValue::Duration(x), ScalarValue::Duration(y)) => x == y,
            _ => true,
        }),
{
    reveal_strlit("true");
    reveal_strlit("false");
    if scalar_fmt(a) == scalar_fmt(b) {
        match (a, b) {
            (ScalarValue::String(x), ScalarValue::String(y)) => {
                lemma_string_prints_quoted(x);
                lemma_string_prints_quoted(y);
            },
            (ScalarValue::Number(NumberValue::Integer(x)), ScalarValue::Number(NumberValue::Integer(y))) => {
                lemma_int_text_injective(x as int, y as int);
            },
            (ScalarValue::Duration(x), ScalarValue::Duration(y)) => {
                lemma_duration_text_reads_back(x);
                lemma_duration_text_reads_back(y);
            },
            (ScalarValue::Boolean(x), ScalarValue::Boolean(y)) => {
                assert("true"@[0] != "false"@[0]);
            },
            _ => {},
        }
    }
}

/// The indentation of nesting `level`.
pub open spec fn indent_text(c: PrettyPrintConfig, level: usize) -> Seq<char> {
    match c.indent_style {
        IndentStyle::Spaces => repeat_seq(repeat_seq(seq![' '], c.indent_size as nat), level as nat),
        IndentStyle::Tabs => repeat_seq(seq!['\t'], level as nat),
    }
}

/// One level deeper.
pub open spec fn deeper(level: usize) -> usize {
    if level < usize::MAX { (level + 1) as usize } else { level }
}

/// ASCII-free lexicographic order of character sequences (by code point),
/// which is the order of `str::cmp`.
pub open spec fn seq_le(a: Seq<char>, b: Seq<char>) -> bool
    decreases a.len(),
{
    if a.len() == 0 {
        true
    } else if b.len() == 0 {
        false
    } else if a[0] != b[0] {
        a[0] < b[0]
    } else {
        seq_le(a.drop_first(), b.drop_first())
    }
}

/// The key an entry is sorted by in canonical mode.
pub open spec fn sort_key(e: TableEntry) -> Seq<char> {
    match e {
        TableEntry::KeyValue(kv) => key_text(kv.key),
        TableEntry::TableBlock(tb) => match tb.name {
            Some(n) => n@,
            None => Seq::empty(),
        },
        TableEntry::ArrayTable(at) => key_text(at.key),
        TableEntry::IncludeDirective(inc) => inc.path@,
        TableEntry::Comment(_) => Seq::empty(),
    }
}

/// Where a stable sort puts an entry with key `k` into `sorted`: after
/// every entry whose key is not greater.
pub open spec fn insert_pos(sorted: Seq<int>, es: Seq<TableEntry>, k: Seq<char>) -> int
    decreases sorted.len(),
{
    if sorted.len() == 0 {
        0
    } else if !seq_le(sort_key(es[sorted[0]]), k) {
        0
    } else {
        1 + insert_pos(sorted.drop_first(), es, k)
    }
}

/// The indices of the first `n` entries in stable sorted order.
pub open spec fn sorted_prefix(es: Seq<TableEntry>, n: int) -> Seq<int>
    decreases n,
{
    if n <= 0 {
        Seq::empty()
    } else {
        let s = sorted_prefix(es, n - 1);
        s.insert(insert_pos(s, es, sort_key(es[n - 1])), n - 1)
    }
}

/// The order entries are printed in: sorted by key (stably) in canonical
/// mode, source order otherwise.
pub open spec fn entry_order(c: PrettyPrintConfig, es: Seq<TableEntry>) -> Seq<int> {
    if c.ai_canonical {
        sorted_prefix(es, es.len() as int)
    } else {
        Seq::new(es.len(), |i: int| i)
    }
}


/// A table's entries at `level`.
pub open spec fn table_fmt(c: PrettyPrintConfig, t: TableBlock, level: usize) -> Seq<char>
    decreases t, 3nat, 0nat,
{
    entries_fmt(c, t.entries@, entry_order(c, t.entries@), level)
}

/// The entries at the given indices, in that order.
pub open spec fn entries_fmt(c: PrettyPrintConfig, es: Seq<TableEntry>, order: Seq<int>, level: usize) -> Seq<char>
    decreases es, 2nat, order.len(),
{
    if order.len() == 0 {
        Seq::empty()
    } else {
        let i = order.last();
        entries_fmt(c, es, order.drop_last(), level) + if 0 <= i < es.len() {
            entry_fmt(c, es[i], level)
        } else {
            Seq::empty()
        }
    }
}

/// One entry of a table.
pub open spec fn entry_fmt(c: PrettyPrintConfig, e: TableEntry, level: usize) -> Seq<char>
    decreases e, 1nat, 0nat,
{
    match e {
        TableEntry::KeyValue(kv) => kv_fmt(c, kv, level),
        TableEntry::TableBlock(tb) => indent_text(c, level) + match tb.name {
            Some(n) => table_name_fmt(n@) + " {\n"@,
            None => "{\n"@,
        } + table_fmt(c, tb, deeper(level)) + indent_text(c, level) + "}\n"@,
        TableEntry::ArrayTable(at) => indent_text(c, level) + "[["@ + key_fmt(at.key) + "]]\n"@ + array_kvs_fmt(
            c,
            at.entries@,
            deeper(level),
        ),
        TableEntry::IncludeDirective(inc) => indent_text(c, level) + "@include "@ + quoted(inc.path@) + if inc.merge_strategy
            != MergeStrategy::Override {
            " merge="@ + merge_strategy_name(inc.merge_strategy)
        } else {
            Seq::empty()
        } + "\n"@,
        TableEntry::Comment(cm) => if c.preserve_comments {
            indent_text(c, level) + comment_text(cm) + "\n"@
        } else {
            Seq::empty()
        },
    }
}

/// The metadata of a key-value line, when kept.
pub open spec fn meta_fmt(c: PrettyPrintConfig, kv: KeyValue) -> Seq<char> {
    match kv.metadata {
        Some(m) => if c.preserve_metadata { " #@"@ + items_fmt(m.items@) } else { Seq::empty() },
        None => Seq::empty(),
    }
}

/// The trailing comment of a key-value line, when kept.
pub open spec fn trailing_comment_fmt(c: PrettyPrintConfig, kv: KeyValue) -> Seq<char> {
    match kv.comment {
        Some(cm) => if c.preserve_comments {
            if cm.is_block { " /*"@ + cm.content@ + "*/"@ } else { " # "@ + cm.content@ }
        } else {
            Seq::empty()
        },
        None => Seq::empty(),
    }
}

/// A `key = value` line.
pub open spec fn kv_fmt(c: PrettyPrintConfig, kv: KeyValue, level: usize) -> Seq<char>
    decreases kv, 1nat, 0nat,
{
    indent_text(c, level) + key_fmt(kv.key) + " = "@ + value_fmt(c, kv.value, level) + meta_fmt(c, kv)
        + trailing_comment_fmt(c, kv) + "\n"@
}

/// Key-value lines.
pub open spec fn kvs_fmt(c: PrettyPrintConfig, kvs: Seq<KeyValue>, level: usize) -> Seq<char>
    decreases kvs, 1nat, 0nat,
{
    if kvs.len() == 0 {
        Seq::empty()
    } else {
        kvs_fmt(c, kvs.drop_last(), level) + kv_fmt(c, kvs.last(), level)
    }
}

/// Whether a key-value pair of an array table stands for a comment line.
pub open spec fn is_comment_placeholder(kv: KeyValue) -> bool {
    key_text(kv.key) == "_comment"@ && kv.span.line == 0 && kv.span.column == 0 && kv.comment is Some
}

/// The lines of an array table: comment placeholders become comments again.
pub open spec fn array_kvs_fmt(c: PrettyPrintConfig, kvs: Seq<KeyValue>, level: usize) -> Seq<char>
    decreases kvs, 1nat, 0nat,
{
    if kvs.len() == 0 {
        Seq::empty()
    } else {
        let kv = kvs.last();
        array_kvs_fmt(c, kvs.drop_last(), level) + if is_comment_placeholder(kv) {
            if c.preserve_comments {
                indent_text(c, level) + comment_text(kv.comment->Some_0) + "\n"@
            } else {
                Seq::empty()
            }
        } else {
            kv_fmt(c, kv, level)
        }
    }
}

/// Values separated by `, `.
pub open spec fn values_inline_fmt(c: PrettyPrintConfig, vs: Seq<Value>, level: usize) -> Seq<char>
    decreases vs, 1nat, 0nat,
{
    if vs.len() == 0 {
        Seq::empty()
    } else if vs.len() == 1 {
        value_fmt(c, vs[0], level)
    } else {
        values_inline_fmt(c, vs.drop_last(), level) + ", "@ + value_fmt(c, vs.last(), level)
    }
}

/// Values one per line at `level`, with a trailing comma when configured.
pub open spec fn values_multi_fmt(c: PrettyPrintConfig, vs: Seq<Value>, level: usize) -> Seq<char>
    decreases vs, 1nat, 0nat,
{
    if vs.len() == 0 {
        Seq::empty()
    } else {
        values_multi_fmt(c, vs.drop_last(), level) + indent_text(c, level) + value_fmt(c, vs.last(), level) + if c.trailing_comma {
            ","@
        } else {
            Seq::empty()
        } + "\n"@
    }
}

/// A value at nesting `level`.
pub open spec fn value_fmt(c: PrettyPrintConfig, v: Value, level: usize) -> Seq<char>
    decreases v, 1nat, 0nat,
{
    match v {
        Value::Scalar(s) => scalar_fmt(s),
        Value::InlineTable(t) => if t.entries@.len() == 0 {
            "{}"@
        } else {
            "{\n"@ + kvs_fmt(c, t.entries@, deeper(level)) + indent_text(c, level) + "}"@
        },
        Value::Array(a) => if c.inline_short_arrays && a.elements@.len() <= 3 {
            "["@ + values_inline_fmt(c, a.elements@, level) + "]"@
        } else {
            "[\n"@ + values_multi_fmt(c, a.elements@, deeper(level)) + indent_text(c, level) + "]"@
        },
        Value::TableBlock(t) => "{\n"@ + table_fmt(c, t, deeper(level)) + indent_text(c, level) + "}"@,
        Value::Expression(e) => expression_fmt(e),
    }
}

fn push_quoted(out: &mut String, s: &str)
    ensures
        final(out)@ == old(out)@ + quoted(s@),
{
    out.push('"');
    let e = escape_json_string(s);
    out.push_str(e.as_str());
    out.push('"');
}

/// `value` as a string literal, escaped.
pub fn quote_string(value: &str) -> (s: String)
    ensures
        s@ == quoted(value@),
{
    let mut s = String::new();
    push_quoted(&mut s, value);
    s
}

fn push_key(out: &mut String, k: &Key)
    ensures
        final(out)@ == old(out)@ + key_fmt(*k),
{
    match k {
        Key::BareKey(s) => out.push_str(s.as_str()),
        Key::QuotedKey(s) => push_quoted(out, s.as_str()),
    }
}

fn is_bare_name(name: &str) -> (b: bool)
    ensures
        b == bare_name(name@),
{
    let v = chars_of(name);
    if v.len() == 0 {
        return false;
    }
    let first = v[0];
    if !(('a' <= first && first <= 'z') || ('A' <= first && first <= 'Z') || first == '_') {
        return false;
    }
    let mut i: usize = 1;
    while i < v.len()
        invariant
            1 <= i <= v@.len(),
            v@ == name@,
            forall|k: int| 1 <= k < i ==> {
                let c = #[trigger] v@[k];
                ('a' <= c && c <= 'z') || ('A' <= c && c <= 'Z') || ('0' <= c && c <= '9') || c == '_' || c == '-'
            },
        decreases v@.len() - i,
    {
        let c = v[i];
        if !(('a' <= c && c <= 'z') || ('A' <= c && c <= 'Z') || ('0' <= c && c <= '9') || c == '_' || c == '-') {
            return false;
        }
        i = i + 1;
    }
    true
}

fn push_table_name(out: &mut String, name: &str)
    ensures
        final(out)@ == old(out)@ + table_name_fmt(name@),
{
    if is_bare_name(name) {
        out.push_str(name);
    } else {
        push_quoted(out, name);
    }
}

fn push_metadata_value(out: &mut String, v: &MetadataValue)
    ensures
        final(out)@ == old(out)@ + metadata_value_fmt(*v),
{
    match v {
        MetadataValue::String(s) => push_quoted(out, s.as_str()),
        MetadataValue::Number(s) => out.push_str(s.as_str()),
        MetadataValue::Range { min, max } => {
            out.push('(');
            out.push_str(min.as_str());
            out.push_str("..");
            out.push_str(max.as_str());
            out.push(')');
        },
    }
}

fn push_standard(out: &mut String, m: &StandardMetadata)
    ensures
        final(out)@ == old(out)@ + standard_fmt(*m),
{
    match m {
        StandardMetadata::Sensitive => out.push_str("sensitive"),
        StandardMetadata::Required => out.push_str("required"),
        StandardMetadata::Deprecated { message } => match message {
            Some(msg) => {
                out.push_str("deprecated=");
                push_quoted(out, msg.as_str());
            },
            None => out.push_str("deprecated"),
        },
        StandardMetadata::Description { text } => {
            out.push_str("description=");
            push_quoted(out, text.as_str());
        },
        StandardMetadata::Example { value } => {
            out.push_str("example=");
            push_quoted(out, value.as_str());
        },
        StandardMetadata::TypeHint { hint } => {
            out.push_str("type_hint=");
            push_quoted(out, hint.as_str());
        },
        StandardMetadata::ItemType { item_type } => {
            out.push_str("item_type=");
            push_quoted(out, item_type.as_str());
        },
        StandardMetadata::Range { min, max } => {
            out.push_str("range(");
            out.push_str(min.as_str());
            out.push_str("..");
            out.push_str(max.as_str());
            out.push(')');
        },
    }
}

fn push_items(out: &mut String, items: &Vec<MetadataItem>)
    ensures
        final(out)@ == old(out)@ + items_fmt(items@),
{
    let ghost start = out@;
    let mut i: usize = 0;
    while i < items.len()
        invariant
            i <= items@.len(),
            out@ == start + items_fmt(items@.take(i as int)),
        decreases items@.len() - i,
    {
        proof {
            assert(items@.take(i + 1).drop_last() == items@.take(i as int));
            assert(items@.take(i + 1)[0] == items@[0]);
        }
        if i > 0 {
            out.push(',');
        }
        match &items[i] {
            MetadataItem::Standard(sm) => {
                out.push(' ');
                push_standard(out, sm);
            },
            MetadataItem::Custom { key, value } => match value {
                Some(v) => {
                    out.push(' ');
                    out.push_str(key.as_str());
                    out.push('=');
                    push_metadata_value(out, v);
                },
                None => {
                    out.push(' ');
                    out.push_str(key.as_str());
                },
            },
        }
        i = i + 1;
    }
    proof {
        assert(items@.take(items@.len() as int) == items@);
    }
}

fn push_duration_literal(out: &mut String, secs: u64)
    ensures
        final(out)@ == old(out)@ + duration_text(secs),
{
    let d = render_duration(secs);
    out.push_str(d.as_str());
}

/// A duration of `secs` seconds as a literal in its largest whole unit.
pub fn render_duration(secs: u64) -> (s: String)
    ensures
        s@ == duration_text(secs),
{
    let mut s = String::new();
    if secs > 0 && secs % 86400 == 0 {
        crate::text::push_decimal(&mut s, secs / 86400);
        s.push_str("d");
    } else if secs > 0 && secs % 3600 == 0 {
        crate::text::push_decimal(&mut s, secs / 3600);
        s.push_str("h");
    } else if secs > 0 && secs % 60 == 0 {
        crate::text::push_decimal(&mut s, secs / 60);
        s.push_str("m");
    } else {
        crate::text::push_decimal(&mut s, secs);
        s.push_str("s");
    }
    s
}

fn push_scalar_fmt(out: &mut String, sv: &ScalarValue)
    ensures
        final(out)@ == old(out)@ + scalar_fmt(*sv),
{
    match sv {
        ScalarValue::String(t) => push_quoted(out, t.as_str()),
        ScalarValue::Number(NumberValue::Integer(i)) => push_i64(out, *i),
        ScalarValue::Number(NumberValue::Float(t)) => out.push_str(t.as_str()),
        ScalarValue::Boolean(b) => {
            if *b {
                out.push_str("true");
            } else {
                out.push_str("false");
            }
        },
        ScalarValue::DateTime(t) => out.push_str(t.as_str()),
        ScalarValue::Duration(secs) => push_duration_literal(out, *secs),
    }
}

fn operator_str(op: crate::ast::BinaryOperator) -> (s: &'static str)
    ensures
        s@ == operator_text(op),
{
    match op {
        crate::ast::BinaryOperator::Add => "+",
        crate::ast::BinaryOperator::Subtract => "-",
        crate::ast::BinaryOperator::Multiply => "*",
        crate::ast::BinaryOperator::Divide => "/",
    }
}

fn push_expression_fmt(out: &mut String, e: &Expression)
    ensures
        final(out)@ == old(out)@ + expression_fmt(*e),
    decreases e,
{
    match e {
        Expression::Literal(sv) => push_scalar_fmt(out, sv),
        Expression::BinaryOp { left, operator, right } => {
            push_expression_fmt(out, left);
            out.push(' ');
            out.push_str(operator_str(*operator));
            out.push(' ');
            push_expression_fmt(out, right);
        },
        Expression::UnitValue { value, unit } => {
            out.push_str(value.as_str());
            out.push_str(unit.symbol());
        },
    }
}

fn push_indent(out: &mut String, c: &PrettyPrintConfig, level: usize)
    ensures
        final(out)@ == old(out)@ + indent_text(*c, level),
{
    proof {
        reveal_strlit(" ");
        reveal_strlit("\t");
        assert(" "@ == seq![' ']);
        assert("\t"@ == seq!['\t']);
    }
    match c.indent_style {
        IndentStyle::Spaces => {
            let mut unit = String::new();
            push_repeated(&mut unit, " ", c.indent_size);
            let ghost u = unit@;
            assert(u == Seq::<char>::empty() + repeat_seq(seq![' '], c.indent_size as nat));
            push_repeated(out, unit.as_str(), level);
        },
        IndentStyle::Tabs => push_repeated(out, "\t", level),
    }
}

fn deeper_level(level: usize) -> (l: usize)
    ensures
        l == deeper(level),
{
    if level < usize::MAX { level + 1 } else { level }
}

fn sort_key_str(e: &TableEntry) -> (s: &str)
    ensures
        s@ == sort_key(*e),
{
    proof {
        reveal_strlit("");
        assert(""@ =~= Seq::<char>::empty());
    }
    match e {
        TableEntry::KeyValue(kv) => kv.key.as_str(),
        TableEntry::TableBlock(tb) => match &tb.name {
            Some(n) => n.as_str(),
            None => "",
        },
        TableEntry::ArrayTable(at) => at.key.as_str(),
        TableEntry::IncludeDirective(inc) => inc.path.as_str(),
        TableEntry::Comment(_) => "",
    }
}

proof fn lemma_seq_le_skip(a: Seq<char>, b: Seq<char>, i: int)
    requires
        0 <= i <= a.len(),
        i <= b.len(),
        forall|k: int| 0 <= k < i ==> a[k] == b[k],
    ensures
        seq_le(a, b) == seq_le(a.skip(i), b.skip(i)),
    decreases i,
{
    if i > 0 {
        assert(a.drop_first().skip(i - 1) == a.skip(i));
        assert(b.drop_first().skip(i - 1) == b.skip(i));
        assert forall|k: int| 0 <= k < i - 1 implies a.drop_first()[k] == b.drop_first()[k] by {
            assert(a.drop_first()[k] == a[k + 1]);
            assert(b.drop_first()[k] == b[k + 1]);
        }
        lemma_seq_le_skip(a.drop_first(), b.drop_first(), i - 1);
    } else {
        assert(a.skip(0) == a);
        assert(b.skip(0) == b);
    }
}

/// Whether `a` sorts before or equal to `b`.
pub fn key_le(a: &str, b: &str) -> (r: bool)
    ensures
        r == seq_le(a@, b@),
{
    let x = chars_of(a);
    let y = chars_of(b);
    let mut i: usize = 0;
    while i < x.len() && i < y.len() && x[i] == y[i]
        invariant
            i <= x@.len(),
            i <= y@.len(),
            x@ == a@,
            y@ == b@,
            forall|k: int| 0 <= k < i ==> x@[k] == y@[k],
        decreases x@.len() - i,
    {
        i = i + 1;
    }
    proof {
        lemma_seq_le_skip(x@, y@, i as int);
    }
    if i == x.len() {
        true
    } else if i == y.len() {
        false
    } else {
        x[i] < y[i]
    }
}

fn insert_position(sorted: &Vec<usize>, es: &Vec<TableEntry>, k: &str) -> (p: usize)
    requires
        forall|j: int| 0 <= j < sorted@.len() ==> (#[trigger] sorted@[j]) < es@.len(),
    ensures
        p as int == insert_pos(sorted@.map_values(|x: usize| x as int), es@, k@),
        p <= sorted@.len(),
{
    let ghost sv = sorted@.map_values(|x: usize| x as int);
    let mut j: usize = 0;
    proof {
        assert(sv.skip(0) == sv);
    }
    while j < sorted.len() && key_le(sort_key_str(&es[sorted[j]]), k)
        invariant
            j <= sorted@.len(),
            sv == sorted@.map_values(|x: usize| x as int),
            forall|m: int| 0 <= m < sorted@.len() ==> (#[trigger] sorted@[m]) < es@.len(),
            insert_pos(sv, es@, k@) == j + insert_pos(sv.skip(j as int), es@, k@),
        decreases sorted@.len() - j,
    {
        proof {
            assert(sv.skip(j as int)[0] == sv[j as int]);
            assert(sv.skip(j as int).drop_first() == sv.skip(j + 1));
        }
        j = j + 1;
    }
    proof {
        if j < sorted@.len() {
            assert(sv.skip(j as int)[0] == sv[j as int]);
        } else {
            assert(sv.skip(j as int).len() == 0);
        }
    }
    j
}

/// The printing order of `es`.
fn compute_order(c: &PrettyPrintConfig, es: &Vec<TableEntry>) -> (order: Vec<usize>)
    ensures
        order@.map_values(|x: usize| x as int) == entry_order(*c, es@),
        forall|j: int| 0 <= j < order@.len() ==> (#[trigger] order@[j]) < es@.len(),
{
    let mut order: Vec<usize> = Vec::new();
    let mut i: usize = 0;
    if !c.ai_canonical {
        while i < es.len()
            invariant
                i <= es@.len(),
                order@.len() == i,
                forall|j: int| 0 <= j < i ==> (#[trigger] order@[j]) == j,
            decreases es@.len() - i,
        {
            order.push(i);
            i = i + 1;
        }
        proof {
            assert(order@.map_values(|x: usize| x as int) =~= Seq::new(es@.len(), |k: int| k));
        }
        return order;
    }
    while i < es.len()
        invariant
            i <= es@.len(),
            c.ai_canonical,
            order@.map_values(|x: usize| x as int) == sorted_prefix(es@, i as int),
            forall|j: int| 0 <= j < order@.len() ==> (#[trigger] order@[j]) < i,
            order@.len() == i,
        decreases es@.len() - i,
    {
        let ghost before = order@;
        let p = insert_position(&order, es, sort_key_str(&es[i]));
        order.insert(p, i);
        proof {
            assert(order@.map_values(|x: usize| x as int) =~= before.map_values(|x: usize| x as int).insert(p as int, i as int));
            assert forall|j: int| 0 <= j < order@.len() implies (#[trigger] order@[j]) < i + 1 by {
                if j < p {
                    assert(order@[j] == before[j]);
                } else if j > p {
                    assert(order@[j] == before[j - 1]);
                }
            }
        }
        i = i + 1;
    }
    order
}

fn push_table(out: &mut String, c: &PrettyPrintConfig, t: &TableBlock, level: usize)
    ensures
        final(out)@ == old(out)@ + table_fmt(*c, *t, level),
    decreases t, 3nat, 0nat,
{
    let order = compute_order(c, &t.entries);
    let ghost ord = order@.map_values(|x: usize| x as int);
    let ghost start = out@;
    let mut k: usize = 0;
    while k < order.len()
        invariant
            k <= order@.len(),
            ord == order@.map_values(|x: usize| x as int),
            ord == entry_order(*c, t.entries@),
            forall|j: int| 0 <= j < order@.len() ==> (#[trigger] order@[j]) < t.entries@.len(),
            out@ == start + entries_fmt(*c, t.entries@, ord.take(k as int), level),
        decreases order@.len() - k,
    {
        proof {
            assert(ord.take(k + 1).drop_last() == ord.take(k as int));
            assert(ord.take(k + 1).last() == order@[k as int] as int);
        }
        let idx = order[k];
        push_entry(out, c, &t.entries[idx], level);
        k = k + 1;
    }
    proof {
        assert(ord.take(order@.len() as int) == ord);
    }
}

fn push_entry(out: &mut String, c: &PrettyPrintConfig, e: &TableEntry, level: usize)
    ensures
        final(out)@ == old(out)@ + entry_fmt(*c, *e, level),
    decreases e, 1nat, 0nat,
{
    match e {
        TableEntry::KeyValue(kv) => push_kv(out, c, kv, level),
        TableEntry::TableBlock(tb) => {
            push_indent(out, c, level);
            match &tb.name {
                Some(name) => {
                    push_table_name(out, name.as_str());
                    out.push_str(" {\n");
                },
                None => out.push_str("{\n"),
            }
            push_table(out, c, tb, deeper_level(level));
            push_indent(out, c, level);
            out.push_str("}\n");
        },
        TableEntry::ArrayTable(at) => {
            push_indent(out, c, level);
            out.push_str("[[");
            push_key(out, &at.key);
            out.push_str("]]\n");
            push_array_kvs(out, c, &at.entries, deeper_level(level));
        },
        TableEntry::IncludeDirective(inc) => {
            push_indent(out, c, level);
            out.push_str("@include ");
            push_quoted(out, inc.path.as_str());
            if inc.merge_strategy != MergeStrategy::Override {
                out.push_str(" merge=");
                out.push_str(inc.merge_strategy.name());
            }
            out.push_str("\n");
        },
        TableEntry::Comment(cm) => {
            if c.preserve_comments {
                push_indent(out, c, level);
                let text = cm.render();
                out.push_str(text.as_str());
                out.push_str("\n");
            }
        },
    }
}

fn push_kv(out: &mut String, c: &PrettyPrintConfig, kv: &KeyValue, level: usize)
    ensures
        final(out)@ == old(out)@ + kv_fmt(*c, *kv, level),
    decreases kv, 1nat, 0nat,
{
    push_indent(out, c, level);
    push_key(out, &kv.key);
    out.push_str(" = ");
    push_value(out, c, &kv.value, level);
    push_meta(out, c, kv);
    push_trailing_comment(out, c, kv);
    out.push_str("\n");
}

fn push_meta(out: &mut String, c: &PrettyPrintConfig, kv: &KeyValue)
    ensures
        final(out)@ == old(out)@ + meta_fmt(*c, *kv),
{
    match &kv.metadata {
        Some(m) => {
            if c.preserve_metadata {
                out.push_str(" #@");
                push_items(out, &m.items);
            }
        },
        None => {},
    }
}

fn push_trailing_comment(out: &mut String, c: &PrettyPrintConfig, kv: &KeyValue)
    ensures
        final(out)@ == old(out)@ + trailing_comment_fmt(*c, *kv),
{
    match &kv.comment {
        Some(cm) => {
            if c.preserve_comments {
                if cm.is_block {
                    out.push_str(" /*");
                    out.push_str(cm.content.as_str());
                    out.push_str("*/");
                } else {
                    out.push_str(" # ");
                    out.push_str(cm.content.as_str());
                }
            }
        },
        None => {},
    }
}

fn push_value(out: &mut String, c: &PrettyPrintConfig, v: &Value, level: usize)
    ensures
        final(out)@ == old(out)@ + value_fmt(*c, *v, level),
    decreases v, 1nat, 0nat,
{
    match v {
        Value::Scalar(sv) => push_scalar_fmt(out, sv),
        Value::InlineTable(t) => {
            if t.entries.len() == 0 {
                out.push_str("{}");
            } else {
                out.push_str("{\n");
                push_kvs(out, c, &t.entries, deeper_level(level));
                push_indent(out, c, level);
                out.push_str("}");
            }
        },
        Value::Array(a) => {
            if c.inline_short_arrays && a.elements.len() <= 3 {
                out.push_str("[");
                push_values_inline(out, c, &a.elements, level);
                out.push_str("]");
            } else {
                out.push_str("[\n");
                push_values_multi(out, c, &a.elements, deeper_level(level));
                push_indent(out, c, level);
                out.push_str("]");
            }
        },
        Value::TableBlock(t) => {
            out.push_str("{\n");
            push_table(out, c, t, deeper_level(level));
            push_indent(out, c, level);
            out.push_str("}");
        },
        Value::Expression(e) => push_expression_fmt(out, e),
    }
}

/// A value as configuration text at nesting `indent_level`, with the
/// default options.
pub fn render_value(value: &Value, indent_level: usize) -> (s: String)
    ensures
        forall|c: PrettyPrintConfig| default_config(c) ==> s@ == value_fmt(c, *value, indent_level),
{
    let c = PrettyPrintConfig::default();
    let mut s = String::new();
    push_value(&mut s, &c, value, indent_level);
    proof {
        assert forall|d: PrettyPrintConfig| default_config(d) implies s@ == value_fmt(d, *value, indent_level) by {
            assert(d == c);
        }
    }
    s
}

fn push_array_kvs(out: &mut String, c: &PrettyPrintConfig, kvs: &Vec<KeyValue>, level: usize)
    ensures
        final(out)@ == old(out)@ + array_kvs_fmt(*c, kvs@, level),
    decreases kvs@, 1nat, 0nat,
{
    let ghost start = out@;
    let mut i: usize = 0;
    while i < kvs.len()
        invariant
            i <= kvs@.len(),
            out@ == start + array_kvs_fmt(*c, kvs@.take(i as int), level),
        decreases kvs@.len() - i,
    {
        proof {
            assert(kvs@.take(i + 1).drop_last() == kvs@.take(i as int));
            assert(kvs@.take(i + 1).last() == kvs@[i as int]);
            reveal_strlit("_comment");
        }
        let placeholder = crate::text::str_eq(kvs[i].key.as_str(), "_comment") && kvs[i].span.is_unknown()
            && kvs[i].comment.is_some();
        if placeholder {
            if c.preserve_comments {
                match &kvs[i].comment {
                    Some(cm) => {
                        push_indent(out, c, level);
                        let text = cm.render();
                        out.push_str(text.as_str());
                        out.push_str("\n");
                    },
                    None => {},
                }
            }
        } else {
            push_kv(out, c, &kvs[i], level);
        }
        i = i + 1;
    }
    proof {
        assert(kvs@.take(kvs@.len() as int) == kvs@);
    }
}

fn push_kvs(out: &mut String, c: &PrettyPrintConfig, kvs: &Vec<KeyValue>, level: usize)
    ensures
        final(out)@ == old(out)@ + kvs_fmt(*c, kvs@, level),
    decreases kvs@, 1nat, 0nat,
{
    let ghost start = out@;
    let mut i: usize = 0;
    while i < kvs.len()
        invariant
            i <= kvs@.len(),
            out@ == start + kvs_fmt(*c, kvs@.take(i as int), level),
        decreases kvs@.len() - i,
    {
        proof {
            assert(kvs@.take(i + 1).drop_last() == kvs@.take(i as int));
            assert(kvs@.take(i + 1).last() == kvs@[i as int]);
        }
        push_kv(out, c, &kvs[i], level);
        i = i + 1;
    }
    proof {
        assert(kvs@.take(kvs@.len() as int) == kvs@);
    }
}

fn push_values_inline(out: &mut String, c: &PrettyPrintConfig, vs: &Vec<Value>, level: usize)
    ensures
        final(out)@ == old(out)@ + values_inline_fmt(*c, vs@, level),
    decreases vs@, 1nat, 0nat,
{
    let ghost start = out@;
    let mut i: usize = 0;
    while i < vs.len()
        invariant
            i <= vs@.len(),
            out@ == start + values_inline_fmt(*c, vs@.take(i as int), level),
        decreases vs@.len() - i,
    {
        proof {
            assert(vs@.take(i + 1).drop_last() == vs@.take(i as int));
            assert(vs@.take(i + 1).last() == vs@[i as int]);
            assert(vs@.take(i + 1)[0] == vs@[0]);
        }
        if i > 0 {
            out.push_str(", ");
        }
        push_value(out, c, &vs[i], level);
        i = i + 1;
    }
    proof {
        assert(vs@.take(vs@.len() as int) == vs@);
    }
}

fn push_values_multi(out: &mut String, c: &PrettyPrintConfig, vs: &Vec<Value>, level: usize)
    ensures
        final(out)@ == old(out)@ + values_multi_fmt(*c, vs@, level),
    decreases vs@, 1nat, 0nat,
{
    let ghost start = out@;
    let mut i: usize = 0;
    while i < vs.len()
        invariant
            i <= vs@.len(),
            out@ == start + values_multi_fmt(*c, vs@.take(i as int), level),
        decreases vs@.len() - i,
    {
        proof {
            assert(vs@.take(i + 1).drop_last() == vs@.take(i as int));
            assert(vs@.take(i + 1).last() == vs@[i as int]);
        }
        push_indent(out, c, level);
        push_value(out, c, &vs[i], level);
        if c.trailing_comma {
            out.push_str(",");
        }
        out.push_str("\n");
        i = i + 1;
    }
    proof {
        assert(vs@.take(vs@.len() as int) == vs@);
    }
}

/// `p` with a newline added when it does not end with one.
pub open spec fn with_newline(p: Seq<char>) -> Seq<char> {
    if p.len() > 0 && p.last() == '\n' { p } else { p.push('\n') }
}

/// What may come before the tree: nothing, or, when the document has a
/// schema, the source text up to the end of the schema block.
pub open spec fn prelude_of(ast: Ast, pre: Seq<char>) -> bool {
    ||| pre.len() == 0
    ||| (ast.schema is Some && exists|n: int| 0 < n <= ast.source.content@.len() && pre == with_newline(
        #[trigger] ast.source.content@.take(n),
    ))
}

/// `out` is the document printed with options `c`: the schema block as
/// written (when it can be found in the source), then the root table.
pub open spec fn printed(ast: Ast, c: PrettyPrintConfig, out: Seq<char>) -> bool {
    exists|pre: Seq<char>| prelude_of(ast, pre) && out == pre + table_fmt(c, ast.root, 0)
}

/// Prints trees.
pub struct PrettyPrinter {
    config: PrettyPrintConfig,
    output: String,
}

impl PrettyPrinter {
    /// A printer with the given options and nothing printed yet.
    pub fn new(config: PrettyPrintConfig) -> (p: PrettyPrinter)
        ensures
            p.options() == config,
            p.pending().len() == 0,
    {
        PrettyPrinter { config, output: String::new() }
    }

    /// The printer's options.
    pub closed spec fn options(&self) -> PrettyPrintConfig {
        self.config
    }

    /// What has been printed so far.
    pub closed spec fn pending(&self) -> Seq<char> {
        self.output@
    }

    /// The document with the default options.
    pub fn print(ast: &Ast) -> (s: String)
        ensures
            forall|c: PrettyPrintConfig| default_config(c) ==> printed(*ast, c, s@),
    {
        let c = PrettyPrintConfig::default();
        let s = Self::new(c).print_ast(ast);
        proof {
            assert forall|d: PrettyPrintConfig| default_config(d) implies printed(*ast, d, s@) by {
                assert(d == c);
            }
        }
        s
    }

    /// The document with the given options.
    pub fn print_with_config(ast: &Ast, config: PrettyPrintConfig) -> (s: String)
        ensures
            printed(*ast, config, s@),
    {
        Self::new(config).print_ast(ast)
    }

    fn print_ast(self, ast: &Ast) -> (s: String)
        requires
            self.output@.len() == 0,
        ensures
            printed(*ast, self.config, s@),
    {
        let mut this = self;
        let mut pre = String::new();
        if ast.schema.is_some() {
            match raw_schema_source(&ast.source.content) {
                Some(raw) => {
                    pre = raw;
                    let v = chars_of(pre.as_str());
                    if !(v.len() > 0 && v[v.len() - 1] == '\n') {
                        pre.push('\n');
                    }
                },
                None => {},
            }
        }
        let ghost pre_view = pre@;
        proof {
            assert(prelude_of(*ast, pre_view));
        }
        this.output.push_str(pre.as_str());
        push_table(&mut this.output, &this.config, &ast.root, 0);
        proof {
            assert(this.output@ == pre_view + table_fmt(this.config, ast.root, 0));
        }
        this.output
    }
}

/// The source text up to and including the `}` that closes a leading
/// `#@ schema {` block, when the lexer finds one.
fn raw_schema_source(source: &String) -> (r: Option<String>)
    ensures
        r matches Some(p) ==> exists|n: int| 0 < n <= source@.len() && p@ == #[trigger] source@.take(n),
{
    let chars = chars_of(source.as_str());
    if chars.len() >= u32::MAX as usize {
        return None;
    }
    let mut lexer = Lexer::new(source.as_str());
    let tokens = match lexer.tokenize_all() {
        Ok(t) => t,
        Err(_) => {
            return None;
        },
    };
    let mut pos: usize = 0;
    while pos < tokens.len()
        invariant
            pos <= tokens@.len(),
        decreases tokens@.len() - pos,
    {
        match &tokens[pos].0 {
            Token::Newline | Token::LineComment(_) | Token::BlockComment(_) => {
                pos = pos + 1;
            },
            _ => {
                break;
            },
        }
    }
    if pos >= tokens.len() || tokens.len() - pos <= 2 {
        return None;
    }
    if !matches!(tokens[pos].0, Token::MetadataPrefix) {
        return None;
    }
    match &tokens[pos + 1].0 {
        Token::BareKey(key) => {
            if !crate::text::str_eq(key.as_str(), "schema") {
                return None;
            }
        },
        _ => {
            return None;
        },
    }
    if !matches!(tokens[pos + 2].0, Token::LBrace) {
        return None;
    }
    let mut depth: usize = 0;
    let mut k: usize = pos + 2;
    while k < tokens.len()
        invariant
            pos + 2 <= k <= tokens@.len(),
            depth <= k,
            chars@ == source@,
        decreases tokens@.len() - k,
    {
        match &tokens[k].0 {
            Token::LBrace => {
                depth = depth + 1;
            },
            Token::RBrace => {
                if depth == 0 {
                    return None;
                }
                depth = depth - 1;
                if depth == 0 {
                    let end = tokens[k].1.end;
                    return prefix_of_bytes(&chars, end);
                }
            },
            _ => {},
        }
        k = k + 1;
    }
    None
}

/// A longer prefix has more bytes: at least one per extra character.
proof fn lemma_byte_len_take_grows(s: Seq<char>, i: int, j: int)
    requires
        0 <= i <= j <= s.len(),
    ensures
        byte_len(s.take(i)) + (j - i) <= byte_len(s.take(j)),
    decreases j - i,
{
    if i < j {
        lemma_byte_len_take_grows(s, i, j - 1);
        lemma_byte_len_take_step(s, j - 1);
    }
}

/// The characters whose UTF-8 encoding is exactly the first `end` bytes,
/// when `end` falls on a character boundary (and is not zero).
fn prefix_of_bytes(chars: &Vec<char>, end: usize) -> (r: Option<String>)
    ensures
        match r {
            Some(p) => exists|n: int|
                0 < n <= chars@.len() && p@ == #[trigger] chars@.take(n) && byte_len(chars@.take(n)) == end,
            None => forall|n: int| 0 < n <= chars@.len() ==> byte_len(#[trigger] chars@.take(n)) != end,
        },
{
    let mut k: usize = 0;
    let mut bytes: usize = 0;
    while k < chars.len() && bytes < end
        invariant
            k <= chars@.len(),
            bytes == byte_len(chars@.take(k as int)),
            bytes <= end,
            forall|n: int| 0 < n < k ==> byte_len(#[trigger] chars@.take(n)) < end,
        decreases chars@.len() - k,
    {
        proof {
            lemma_byte_len_take_step(chars@, k as int);
        }
        let w = char_width(chars[k]);
        if w > end - bytes {
            proof {
                assert forall|n: int| 0 < n <= chars@.len() implies byte_len(#[trigger] chars@.take(n)) != end by {
                    if n > k {
                        lemma_byte_len_take_grows(chars@, k + 1, n);
                    }
                }
            }
            return None;
        }
        bytes = bytes + w;
        k = k + 1;
    }
    if bytes == end && k > 0 {
        let p = crate::text::string_from_range(chars, 0, k);
        proof {
            assert(chars@.subrange(0, k as int) == chars@.take(k as int));
        }
        Some(p)
    } else {
        proof {
            assert forall|n: int| 0 < n <= chars@.len() implies byte_len(#[trigger] chars@.take(n)) != end by {
                if k == 0 {
                    lemma_byte_len_take_grows(chars@, 0, n);
                    assert(chars@.take(0) =~= Seq::<char>::empty());
                } else if n > k {
                    lemma_byte_len_take_grows(chars@, k as int, n);
                }
            }
        }
        None
    }
}
/// Any two sequences are ordered one way or the other.
pub proof fn lemma_seq_le_total(a: Seq<char>, b: Seq<char>)
    ensures
        seq_le(a, b) || seq_le(b, a),
    decreases a.len(),
{
    if a.len() > 0 && b.len() > 0 && a[0] == b[0] {
        lemma_seq_le_total(a.drop_first(), b.drop_first());
    }
}

/// Sequences ordered both ways are equal.
pub proof fn lemma_seq_le_antisym(a: Seq<char>, b: Seq<char>)
    requires
        seq_le(a, b),
        seq_le(b, a),
    ensures
        a == b,
    decreases a.len(),
{
    if a.len() > 0 && b.len() > 0 {
        if a[0] == b[0] {
            lemma_seq_le_antisym(a.drop_first(), b.drop_first());
            assert(a =~= seq![a[0]] + a.drop_first());
            assert(b =~= seq![b[0]] + b.drop_first());
        }
    }
}

/// The order is transitive.
pub proof fn lemma_seq_le_trans(a: Seq<char>, b: Seq<char>, c: Seq<char>)
    requires
        seq_le(a, b),
        seq_le(b, c),
    ensures
        seq_le(a, c),
    decreases a.len(),
{
    if a.len() > 0 && b.len() > 0 && c.len() > 0 {
        if a[0] == b[0] && b[0] == c[0] {
            lemma_seq_le_trans(a.drop_first(), b.drop_first(), c.drop_first());
        }
    }
}

} // verus!
