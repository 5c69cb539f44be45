//! Rendering a diff as plain text, JSON or a Markdown table.

use vstd::prelude::*;
use crate::engine::diff::{stats_of, stats_text, DiffEntry, DiffResult, DiffStats, DiffType};
use crate::text::{decimal_digits, push_decimal};

verus! {

broadcast use vstd::string::group_string_axioms;

/// The output formats.
#[derive(Debug, Clone, Copy, PartialEq, Eq, Structural)]
pub enum DiffFormat {
    Text,
    Json,
    Markdown,
}

/// Renders diffs.
pub struct DiffFormatter;

/// The text of an optional value, empty when absent.
pub open spec fn or_empty(v: Option<String>) -> Seq<char> {
    match v {
        Some(s) => s@,
        None => Seq::empty(),
    }
}

/// The text of an optional value, `-` when absent.
pub open spec fn or_dash(v: Option<String>) -> Seq<char> {
    match v {
        Some(s) => s@,
        None => "-"@,
    }
}

/// One entry in the text format.
pub open spec fn entry_text(e: DiffEntry) -> Seq<char> {
    match e.diff_type {
        DiffType::Added => "+ "@ + e.path@ + ": "@ + or_empty(e.new_value),
        DiffType::Removed => "- "@ + e.path@ + ": "@ + or_empty(e.old_value),
        DiffType::Modified => "~ "@ + e.path@ + ": "@ + or_empty(e.old_value) + " -> "@ + or_empty(e.new_value),
        DiffType::Unchanged => "  "@ + e.path@ + ": "@ + or_empty(e.old_value),
    }
}

/// The entries in the text format, one per line.
pub open spec fn entries_text(es: Seq<DiffEntry>) -> Seq<char>
    decreases es.len(),
{
    if es.len() == 0 {
        Seq::empty()
    } else {
        entries_text(es.drop_last()) + entry_text(es.last()) + seq!['\n']
    }
}

/// The `--- old` / `+++ new` header, when both names are known.
pub open spec fn sources_header(d: DiffResult) -> Seq<char> {
    match (d.old_source, d.new_source) {
        (Some(o), Some(n)) => "--- "@ + o@ + seq!['\n'] + "+++ "@ + n@ + "\n\n"@,
        _ => Seq::empty(),
    }
}

/// The whole diff in the text format.
pub open spec fn text_format(d: DiffResult, s: DiffStats) -> Seq<char> {
    sources_header(d) + entries_text(d.entries@) + seq!['\n'] + stats_text(s) + seq!['\n']
}

/// `c` as it appears inside a JSON string.
pub open spec fn json_escape_char(c: char) -> Seq<char> {
    if c == '\\' {
        seq!['\\', '\\']
    } else if c == '"' {
        seq!['\\', '"']
    } else if c == '\n' {
        seq!['\\', 'n']
    } else if c == '\r' {
        seq!['\\', 'r']
    } else if c == '\t' {
        seq!['\\', 't']
    } else {
        seq![c]
    }
}

/// `s` with backslash, quote, newline, carriage return and tab escaped.
pub open spec fn json_escape(s: Seq<char>) -> Seq<char>
    decreases s.len(),
{
    if s.len() == 0 {
        Seq::empty()
    } else {
        json_escape(s.drop_last()) + json_escape_char(s.last())
    }
}

/// The character an escape `\c` stands for.
pub open spec fn unescape_char(c: char) -> char {
    if c == 'n' {
        '\n'
    } else if c == 'r' {
        '\r'
    } else if c == 't' {
        '\t'
    } else {
        c
    }
}

/// Escaped text read back: `\c` is the character it stands for, anything
/// else stands for itself.
pub open spec fn unescaped(e: Seq<char>) -> Seq<char>
    decreases e.len(),
{
    if e.len() == 0 {
        Seq::empty()
    } else if e[0] == '\\' && e.len() >= 2 {
        seq![unescape_char(e[1])] + unescaped(e.subrange(2, e.len() as int))
    } else {
        seq![e[0]] + unescaped(e.subrange(1, e.len() as int))
    }
}

/// Text that can stand between double quotes: every backslash starts one
/// of the escapes `\\`, `\"`, `\n`, `\r`, `\t`, and no quote, line break or
/// tab stands bare.
pub open spec fn escapes_well(e: Seq<char>) -> bool
    decreases e.len(),
{
    if e.len() == 0 {
        true
    } else if e[0] == '\\' {
        e.len() >= 2 && (e[1] == '\\' || e[1] == '"' || e[1] == 'n' || e[1] == 'r' || e[1] == 't') && escapes_well(
            e.subrange(2, e.len() as int),
        )
    } else {
        e[0] != '"' && e[0] != '\n' && e[0] != '\r' && e[0] != '\t' && escapes_well(e.subrange(1, e.len() as int))
    }
}

proof fn lemma_escape_char_reads_back(c: char, rest: Seq<char>)
    ensures
        unescaped(json_escape_char(c) + rest) == seq![c] + unescaped(rest),
        escapes_well(json_escape_char(c) + rest) == escapes_well(rest),
{
    let e = json_escape_char(c) + rest;
    if json_escape_char(c).len() == 2 {
        assert(e.subrange(2, e.len() as int) =~= rest);
    } else {
        assert(e.subrange(1, e.len() as int) =~= rest);
    }
}

proof fn lemma_escape_reads_back(s: Seq<char>, rest: Seq<char>)
    ensures
        unescaped(json_escape(s) + rest) == s + unescaped(rest),
        escapes_well(json_escape(s) + rest) == escapes_well(rest),
    decreases s.len(),
{
    if s.len() > 0 {
        let c = s.last();
        assert(json_escape(s) + rest =~= json_escape(s.drop_last()) + (json_escape_char(c) + rest));
        lemma_escape_reads_back(s.drop_last(), json_escape_char(c) + rest);
        lemma_escape_char_reads_back(c, rest);
        assert(s.drop_last() + (seq![c] + unescaped(rest)) =~= s + unescaped(rest));
    } else {
        assert(json_escape(s) + rest =~= rest);
        assert(s + unescaped(rest) =~= unescaped(rest));
    }
}

/// Escaping is undone by reading the escapes back, and what it gives can
/// stand between double quotes: no bare quote, line break or tab, and
/// every backslash starts an escape.
pub proof fn lemma_json_escape_reads_back(s: Seq<char>)
    ensures
        escapes_well(json_escape(s)),
        unescaped(json_escape(s)) == s,
{
    lemma_escape_reads_back(s, Seq::empty());
    assert(json_escape(s) + Seq::<char>::empty() =~= json_escape(s));
    assert(s + Seq::<char>::empty() =~= s);
}

/// A JSON string, or `null`.
pub open spec fn option_json(v: Option<String>) -> Seq<char> {
    match v {
        Some(s) => seq!['"'] + json_escape(s@) + seq!['"'],
        None => "null"@,
    }
}

/// The JSON name of each kind of change.
pub open spec fn diff_type_json(t: DiffType) -> Seq<char> {
    match t {
        DiffType::Added => "added"@,
        DiffType::Removed => "removed"@,
        DiffType::Modified => "modified"@,
        DiffType::Unchanged => "unchanged"@,
    }
}

/// One entry as a JSON object.
pub open spec fn entry_json(e: DiffEntry) -> Seq<char> {
    "{\"type\":\""@ + diff_type_json(e.diff_type) + "\",\"path\":\""@ + json_escape(e.path@)
        + "\",\"old_value\":"@ + option_json(e.old_value) + ",\"new_value\":"@ + option_json(e.new_value)
        + "}"@
}

/// The entries as JSON objects separated by commas.
pub open spec fn entries_json(es: Seq<DiffEntry>) -> Seq<char>
    decreases es.len(),
{
    if es.len() == 0 {
        Seq::empty()
    } else if es.len() == 1 {
        entry_json(es[0])
    } else {
        entries_json(es.drop_last()) + seq![','] + entry_json(es.last())
    }
}

/// The whole diff as one JSON object.
pub open spec fn json_format(d: DiffResult, s: DiffStats) -> Seq<char> {
    "{\"entries\":["@ + entries_json(d.entries@) + "],\"stats\":{\"added\":"@ + decimal_digits(s.added as nat)
        + ",\"removed\":"@ + decimal_digits(s.removed as nat) + ",\"modified\":"@ + decimal_digits(
        s.modified as nat,
    ) + ",\"unchanged\":"@ + decimal_digits(s.unchanged as nat) + ",\"total\":"@ + decimal_digits(
        s.total as nat,
    ) + "}}"@
}

/// The label of each kind of change in the Markdown table.
pub open spec fn markdown_label(t: DiffType) -> Seq<char> {
    match t {
        DiffType::Added => "➕ Added"@,
        DiffType::Removed => "➖ Removed"@,
        DiffType::Modified => "✏️ Modified"@,
        DiffType::Unchanged => "➡️ Unchanged"@,
    }
}

/// One table row.
pub open spec fn markdown_row(e: DiffEntry) -> Seq<char> {
    "| "@ + markdown_label(e.diff_type) + " | `"@ + e.path@ + "` | `"@ + or_dash(e.old_value) + "` | `"@
        + or_dash(e.new_value) + "` |\n"@
}

/// The table rows.
pub open spec fn markdown_rows(es: Seq<DiffEntry>) -> Seq<char>
    decreases es.len(),
{
    if es.len() == 0 {
        Seq::empty()
    } else {
        markdown_rows(es.drop_last()) + markdown_row(es.last())
    }
}

/// The names of the two documents, in Markdown.
pub open spec fn markdown_sources(d: DiffResult) -> Seq<char> {
    match (d.old_source, d.new_source) {
        (Some(o), Some(n)) => "**Old**: "@ + o@ + seq!['\n'] + "**New**: "@ + n@ + "\n\n"@,
        _ => Seq::empty(),
    }
}

/// The whole diff as a Markdown document.
pub open spec fn markdown_format(d: DiffResult, s: DiffStats) -> Seq<char> {
    "# Configuration Diff\n\n"@ + markdown_sources(d) + "| Type | Path | Old Value | New Value |\n"@
        + "|------|------|-----------|-----------|\n"@ + markdown_rows(d.entries@) + "\n**Summary**: "@
        + stats_text(s) + seq!['\n']
}

/// The diff in the chosen format, with `s` its statistics.
pub open spec fn formatted(d: DiffResult, f: DiffFormat, s: DiffStats) -> Seq<char> {
    match f {
        DiffFormat::Text => text_format(d, s),
        DiffFormat::Json => json_format(d, s),
        DiffFormat::Markdown => markdown_format(d, s),
    }
}

impl DiffFormatter {
    /// Renders `diff` in `format`. The statistics in the output are those of
    /// [`DiffResult::stats`].
    pub fn format(diff: &DiffResult, format: DiffFormat) -> (out: String)
        ensures
            exists|s: DiffStats| stats_of(diff.entries@, s) && out@ == formatted(*diff, format, s),
    {
        let stats = diff.stats();
        let out = match format {
            DiffFormat::Text => format_text(diff, &stats),
            DiffFormat::Json => format_json(diff, &stats),
            DiffFormat::Markdown => format_markdown(diff, &stats),
        };
        assert(stats_of(diff.entries@, stats) && out@ == formatted(*diff, format, stats));
        out
    }
}

fn push_or_empty(out: &mut String, v: &Option<String>)
    ensures
        final(out)@ == old(out)@ + or_empty(*v),
{
    match v {
        Some(s) => out.push_str(s.as_str()),
        None => {},
    }
}

fn push_or_dash(out: &mut String, v: &Option<String>)
    ensures
        final(out)@ == old(out)@ + or_dash(*v),
{
    match v {
        Some(s) => out.push_str(s.as_str()),
        None => out.push_str("-"),
    }
}

fn push_entry_text(out: &mut String, e: &DiffEntry)
    ensures
        final(out)@ == old(out)@ + entry_text(*e),
{
    match e.diff_type {
        DiffType::Added => {
            out.push_str("+ ");
            out.push_str(e.path.as_str());
            out.push_str(": ");
            push_or_empty(out, &e.new_value);
        },
        DiffType::Removed => {
            out.push_str("- ");
            out.push_str(e.path.as_str());
            out.push_str(": ");
            push_or_empty(out, &e.old_value);
        },
        DiffType::Modified => {
            out.push_str("~ ");
            out.push_str(e.path.as_str());
            out.push_str(": ");
            push_or_empty(out, &e.old_value);
            out.push_str(" -> ");
            push_or_empty(out, &e.new_value);
        },
        DiffType::Unchanged => {
            out.push_str("  ");
            out.push_str(e.path.as_str());
            out.push_str(": ");
            push_or_empty(out, &e.old_value);
        },
    }
}

fn format_text(diff: &DiffResult, stats: &DiffStats) -> (out: String)
    ensures
        out@ == text_format(*diff, *stats),
{
    let mut output = String::new();
    match (&diff.old_source, &diff.new_source) {
        (Some(old), Some(new)) => {
            output.push_str("--- ");
            output.push_str(old.as_str());
            output.push('\n');
            output.push_str("+++ ");
            output.push_str(new.as_str());
            output.push_str("\n\n");
        },
        _ => {},
    }
    let ghost header = output@;
    proof {
        assert(header == sources_header(*diff));
    }
    let mut i: usize = 0;
    while i < diff.entries.len()
        invariant
            i <= diff.entries@.len(),
            output@ == header + entries_text(diff.entries@.take(i as int)),
        decreases diff.entries@.len() - i,
    {
        proof {
            assert(diff.entries@.take(i + 1).drop_last() == diff.entries@.take(i as int));
        }
        push_entry_text(&mut output, &diff.entries[i]);
        output.push('\n');
        i = i + 1;
    }
    proof {
        assert(diff.entries@.take(diff.entries@.len() as int) == diff.entries@);
    }
    output.push('\n');
    let summary = stats.describe();
    output.push_str(summary.as_str());
    output.push('\n');
    output
}

/// `s` with the JSON string escapes applied.
pub fn escape_json_string(s: &str) -> (r: String)
    ensures
        r@ == json_escape(s@),
{
    let v = crate::text::chars_of(s);
    let mut r = String::new();
    let mut i: usize = 0;
    while i < v.len()
        invariant
            i <= v@.len(),
            v@ == s@,
            r@ == json_escape(v@.take(i as int)),
        decreases v@.len() - i,
    {
        proof {
            assert(v@.take(i + 1).drop_last() == v@.take(i as int));
        }
        let c = v[i];
        if c == '\\' {
            r.push('\\');
            r.push('\\');
        } else if c == '"' {
            r.push('\\');
            r.push('"');
        } else if c == '\n' {
            r.push('\\');
            r.push('n');
        } else if c == '\r' {
            r.push('\\');
            r.push('r');
        } else if c == '\t' {
            r.push('\\');
            r.push('t');
        } else {
            r.push(c);
        }
        i = i + 1;
    }
    proof {
        assert(v@.take(v@.len() as int) == v@);
    }
    r
}

fn push_option_json(out: &mut String, v: &Option<String>)
    ensures
        final(out)@ == old(out)@ + option_json(*v),
{
    match v {
        Some(s) => {
            out.push('"');
            let e = escape_json_string(s.as_str());
            out.push_str(e.as_str());
            out.push('"');
        },
        None => out.push_str("null"),
    }
}

fn diff_type_to_json(t: DiffType) -> (s: &'static str)
    ensures
        s@ == diff_type_json(t),
{
    match t {
        DiffType::Added => "added",
        DiffType::Removed => "removed",
        DiffType::Modified => "modified",
        DiffType::Unchanged => "unchanged",
    }
}

fn push_entry_json(out: &mut String, e: &DiffEntry)
    ensures
        final(out)@ == old(out)@ + entry_json(*e),
{
    out.push_str("{\"type\":\"");
    out.push_str(diff_type_to_json(e.diff_type));
    out.push_str("\",\"path\":\"");
    let p = escape_json_string(e.path.as_str());
    out.push_str(p.as_str());
    out.push_str("\",\"old_value\":");
    push_option_json(out, &e.old_value);
    out.push_str(",\"new_value\":");
    push_option_json(out, &e.new_value);
    out.push_str("}");
}

fn format_json(diff: &DiffResult, stats: &DiffStats) -> (out: String)
    ensures
        out@ == json_format(*diff, *stats),
{
    let mut output = String::new();
    output.push_str("{\"entries\":[");
    let ghost header = output@;
    let mut i: usize = 0;
    while i < diff.entries.len()
        invariant
            i <= diff.entries@.len(),
            output@ == header + entries_json(diff.entries@.take(i as int)),
        decreases diff.entries@.len() - i,
    {
        proof {
            assert(diff.entries@.take(i + 1).drop_last() == diff.entries@.take(i as int));
            if i == 0 {
                assert(diff.entries@.take(1)[0] == diff.entries@[0]);
                assert(entries_json(diff.entries@.take(0)) == Seq::<char>::empty());
            }
        }
        if i > 0 {
            output.push(',');
        }
        push_entry_json(&mut output, &diff.entries[i]);
        i = i + 1;
    }
    proof {
        assert(diff.entries@.take(diff.entries@.len() as int) == diff.entries@);
    }
    output.push_str("],\"stats\":{\"added\":");
    push_decimal(&mut output, stats.added as u64);
    output.push_str(",\"removed\":");
    push_decimal(&mut output, stats.removed as u64);
    output.push_str(",\"modified\":");
    push_decimal(&mut output, stats.modified as u64);
    output.push_str(",\"unchanged\":");
    push_decimal(&mut output, stats.unchanged as u64);
    output.push_str(",\"total\":");
    push_decimal(&mut output, stats.total as u64);
    output.push_str("}}");
    output
}

fn markdown_label_of(t: DiffType) -> (s: &'static str)
    ensures
        s@ == markdown_label(t),
{
    match t {
        DiffType::Added => "➕ Added",
        DiffType::Removed => "➖ Removed",
        DiffType::Modified => "✏️ Modified",
        DiffType::Unchanged => "➡️ Unchanged",
    }
}

fn push_markdown_row(out: &mut String, e: &DiffEntry)
    ensures
        final(out)@ == old(out)@ + markdown_row(*e),
{
    out.push_str("| ");
    out.push_str(markdown_label_of(e.diff_type));
    out.push_str(" | `");
    out.push_str(e.path.as_str());
    out.push_str("` | `");
    push_or_dash(out, &e.old_value);
    out.push_str("` | `");
    push_or_dash(out, &e.new_value);
    out.push_str("` |\n");
}

fn format_markdown(diff: &DiffResult, stats: &DiffStats) -> (out: String)
    ensures
        out@ == markdown_format(*diff, *stats),
{
    let mut output = String::new();
    output.push_str("# Configuration Diff\n\n");
    match (&diff.old_source, &diff.new_source) {
        (Some(old), Some(new)) => {
            output.push_str("**Old**: ");
            output.push_str(old.as_str());
            output.push('\n');
            output.push_str("**New**: ");
            output.push_str(new.as_str());
            output.push_str("\n\n");
        },
        _ => {},
    }
    output.push_str("| Type | Path | Old Value | New Value |\n");
    output.push_str("|------|------|-----------|-----------|\n");
    let ghost header = output@;
    let mut i: usize = 0;
    while i < diff.entries.len()
        invariant
            i <= diff.entries@.len(),
            output@ == header + markdown_rows(diff.entries@.take(i as int)),
        decreases diff.entries@.len() - i,
    {
        proof {
            assert(diff.entries@.take(i + 1).drop_last() == diff.entries@.take(i as int));
        }
        push_markdown_row(&mut output, &diff.entries[i]);
        i = i + 1;
    }
    proof {
        assert(diff.entries@.take(diff.entries@.len() as int) == diff.entries@);
    }
    output.push_str("\n**Summary**: ");
    let summary = stats.describe();
    output.push_str(summary.as_str());
    output.push('\n');
    output
}

} // verus!
