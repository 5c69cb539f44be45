//! Deterministic minimal edits by byte range.
//!
//! Only the target value's range is replaced; every other byte stays as it
//! was: quoting, comments, metadata and blank lines are left alone. Whatever
//! cannot be located for sure, or does not meet its precondition, is refused
//! rather than guessed.

use vstd::prelude::*;
use vstd::utf8::{encode_utf8, decode_utf8, is_char_boundary, valid_utf8, length_of_first_scalar, pop_first_scalar};
use crate::ast::{Ast, KeyValue, TableBlock, Value};
use crate::edit::bytes::{
    all_white, clamp, cut, indent_level_at, indent_of, insert_at, is_all_white, lemma_line_end_is_boundary,
    lemma_line_start_is_boundary, line_end, line_end_of, line_indent, line_start, line_start_of, skip_blank_bytes,
    skip_blanks_from, splice, trim_back, trim_back_to,
};
use crate::edit::gate::{finalize_edit, gate, short_enough, too_long_text};
use crate::edit::locate::{
    first_index, first_offset, last_end, lemma_first_index, not_a_table_reason, place_block, place_kv, reach, resolve_container,
    Place, Reach, Scope,
};
use crate::edit::outcome::{AppliedEdit, EditOutcome, EditRefusal};
use crate::edit::plan::{
    describe_path, path_text, plan_violations, violation_views, EditExpectation, EditIntent, EditOp, EditPlan, PathSegment,
    PlanViolation,
};
use crate::edit::reading::{readable, reads_as};
use crate::edit::value::{json_text, renders_as, EditValue};
use crate::edit::equality::lemma_reading_is_unique;
use crate::engine::pretty_printer::{default_config, render_value, value_fmt, PrettyPrintConfig};
use crate::error::{error_text, VerseconfError};
use crate::lexer::{LexError, Lexer};
use crate::span::Span;
use crate::token::Token;
use crate::text::{chars_of, contains_seq, contains_str, decimal_digits, push_decimal, to_owned_string};

verus! {

broadcast use vstd::string::group_string_axioms, vstd::utf8::group_utf8_lib;

/// The value an edit expects to find, if it names one.
pub open spec fn expected_of(e: Option<EditExpectation>) -> Option<EditValue> {
    match e {
        Some(x) => x.value,
        None => None,
    }
}

/// Whether the current value meets an edit's expectation: there is none, or
/// the value reads as the expected one.
pub open spec fn expectation_met(e: Option<EditExpectation>, actual: Value) -> bool {
    match expected_of(e) {
        None => true,
        Some(w) => readable(actual) && reads_as(actual, w),
    }
}

/// What a refusal says of a current value that cannot be read.
pub open spec fn unreadable_text(w: EditValue) -> Seq<char> {
    "无法解析当前值（期望 "@ + json_text(w) + "）"@
}

/// The refusal for a current value that does not meet the expectation.
pub open spec fn is_mismatch(x: EditRefusal, e: Option<EditExpectation>, actual: Value, label: Seq<char>) -> bool {
    x matches EditRefusal::ExpectationMismatch { path, expected, actual: found } && path@ == label && match expected_of(e) {
        Some(w) => expected@ == json_text(w) && if readable(actual) {
            exists|v: EditValue| #[trigger] reads_as(actual, v) && found@ == json_text(v)
        } else {
            found@ == unreadable_text(w)
        },
        None => false,
    }
}

/// Checks the current value against the edit's expectation.
fn check_expectation(label: &str, expect: &Option<EditExpectation>, actual: &Value) -> (r: Result<(), EditRefusal>)
    ensures
        expectation_met(*expect, *actual) ==> r is Ok,
        !expectation_met(*expect, *actual) ==> (r matches Err(x) && is_mismatch(x, *expect, *actual, label@)),
{
    let expected = match expect {
        Some(x) => match &x.value {
            Some(w) => w,
            None => {
                return Ok(());
            },
        },
        None => {
            return Ok(());
        },
    };
    match EditValue::from_ast_value(actual) {
        Some(found) => {
            if found.same_as(expected) {
                proof {
                    crate::edit::equality::lemma_reading_respects_sameness(*actual, found, *expected);
                }
                Ok(())
            } else {
                proof {
                    if reads_as(*actual, *expected) {
                        lemma_reading_is_unique(*actual, found, *expected);
                    }
                }
                Err(EditRefusal::ExpectationMismatch {
                    path: to_owned_string(label),
                    expected: expected.to_text(),
                    actual: found.to_text(),
                })
            }
        },
        None => {
            let mut text = to_owned_string("无法解析当前值（期望 ");
            let shown = expected.to_text();
            text.push_str(shown.as_str());
            text.push_str("）");
            Err(EditRefusal::ExpectationMismatch {
                path: to_owned_string(label),
                expected: expected.to_text(),
                actual: text,
            })
        },
    }
}

/// A token that is an `=` lying inside `s`.
pub open spec fn assign_within(s: Span) -> spec_fn((Token, Span)) -> bool {
    |t: (Token, Span)| t.0 is Assign && t.1.start >= s.start && t.1.end <= s.end
}

/// Where a pair's value must end at the latest: where its metadata or its
/// comment starts, whichever is first, or else where the pair ends.
pub open spec fn value_limit(kv: KeyValue) -> int {
    match kv.metadata {
        Some(m) => match kv.comment {
            Some(c) => if m.span.start <= c.span.start {
                m.span.start as int
            } else {
                c.span.start as int
            },
            None => m.span.start as int,
        },
        None => match kv.comment {
            Some(c) => c.span.start as int,
            None => kv.span.end as int,
        },
    }
}

/// The byte range of a pair's value: from past its `=` and the blanks after
/// it to its limit, less the blanks and line breaks before the limit.
pub open spec fn value_range(b: Seq<u8>, ts: Seq<(Token, Span)>, kv: KeyValue) -> Option<(int, int)> {
    match first_index(ts, assign_within(kv.span)) {
        Some(k) => {
            let s = skip_blank_bytes(b, ts[k].1.end as int);
            Some((s, trim_back(b, s, value_limit(kv))))
        },
        None => None,
    }
}

/// A range that is not empty and starts and ends on character boundaries.
pub open spec fn range_ok(b: Seq<u8>, s: int, t: int) -> bool {
    s < t && is_char_boundary(b, s) && is_char_boundary(b, t)
}

/// How a lexing error reads.
pub open spec fn lex_text(e: LexError) -> Seq<char> {
    e.message@ + seq![' ', 'a', 't', ' '] + crate::span::span_text(e.span)
}

/// The refusal for a target that cannot take the edit, for `why`.
pub open spec fn is_unsupported(x: EditRefusal, label: Seq<char>, why: Seq<char>) -> bool {
    x matches EditRefusal::UnsupportedTarget { path, reason } && path@ == label && reason@ == why
}

/// The refusal for a target that does not exist.
pub open spec fn is_not_found(x: EditRefusal, label: Seq<char>) -> bool {
    x matches EditRefusal::TargetNotFound { path } && path@ == label
}

pub open spec fn no_assign_reason() -> Seq<char> {
    "找不到赋值符，无法确定值区间"@
}

pub open spec fn bad_range_reason() -> Seq<char> {
    "值区间为空或不在字符边界上"@
}

/// The byte range of `kv`'s value in `source`, found with the tokens of
/// `source`.
fn value_span(source: &str, toks: &Result<Vec<(Token, Span)>, LexError>, kv: &KeyValue, label: &str) -> (r: Result<(usize, usize), EditRefusal>)
    ensures
        match toks {
            Err(e) => r matches Err(EditRefusal::ParseFailed(m)) && m@ == lex_text(*e),
            Ok(ts) => match value_range(encode_utf8(source@), ts@, *kv) {
                None => r matches Err(x) && is_unsupported(x, label@, no_assign_reason()),
                Some((s, t)) => if range_ok(encode_utf8(source@), s, t) {
                    r matches Ok((x, y)) && x == s && y == t
                } else {
                    r matches Err(x) && is_unsupported(x, label@, bad_range_reason())
                },
            },
        },
{
    let ts = match toks {
        Ok(ts) => ts,
        Err(e) => {
            return Err(EditRefusal::ParseFailed(e.describe()));
        },
    };
    let ghost p = assign_within(kv.span);
    let mut k: usize = 0;
    while k < ts.len()
        invariant
            k <= ts@.len(),
            p == assign_within(kv.span),
            forall|q: int| 0 <= q < k ==> !p(#[trigger] ts@[q]),
        ensures
            k <= ts@.len(),
            forall|q: int| 0 <= q < k ==> !p(#[trigger] ts@[q]),
            k < ts@.len() ==> p(ts@[k as int]),
        decreases ts@.len() - k,
    {
        let is_assign = match ts[k].0 {
            Token::Assign => true,
            _ => false,
        };
        if is_assign && ts[k].1.start >= kv.span.start && ts[k].1.end <= kv.span.end {
            break;
        }
        k = k + 1;
    }
    proof {
        lemma_first_index(ts@, p, k as int);
    }
    if k == ts.len() {
        return Err(EditRefusal::UnsupportedTarget {
            path: to_owned_string(label),
            reason: to_owned_string("找不到赋值符，无法确定值区间"),
        });
    }
    let bytes = source.as_bytes();
    let start = skip_blanks_from(bytes, ts[k].1.end);
    let limit: usize = match &kv.metadata {
        Some(m) => match &kv.comment {
            Some(c) => if m.span.start <= c.span.start {
                m.span.start
            } else {
                c.span.start
            },
            None => m.span.start,
        },
        None => match &kv.comment {
            Some(c) => c.span.start,
            None => kv.span.end,
        },
    };
    let end = trim_back_to(bytes, start, limit);
    if start >= end || !source.is_char_boundary(start) || !source.is_char_boundary(end) {
        return Err(EditRefusal::UnsupportedTarget {
            path: to_owned_string(label),
            reason: to_owned_string("值区间为空或不在字符边界上"),
        });
    }
    Ok((start, end))
}

/// The text a contract value is written as at an indentation level.
pub open spec fn rendered(v: EditValue, level: usize, text: Seq<char>) -> bool {
    exists|a: Value|
        #[trigger] renders_as(v, a) && forall|c: PrettyPrintConfig| default_config(c) ==> text == value_fmt(c, a, level)
}

/// A contract value written as the formatter writes it.
fn render(v: &EditValue, level: usize) -> (s: String)
    ensures
        rendered(*v, level, s@),
{
    let a = v.to_ast_value();
    let s = render_value(&a, level);
    proof {
        assert(renders_as(*v, a));
    }
    s
}

/// Two optional reasons with the same text.
pub open spec fn same_reason(a: Option<String>, b: Option<String>) -> bool {
    match a {
        Some(x) => b matches Some(y) && x@ == y@,
        None => b is None,
    }
}

fn copy_reason(r: &Option<String>) -> (c: Option<String>)
    ensures
        same_reason(c, *r),
{
    match r {
        Some(x) => Some(to_owned_string(x.as_str())),
        None => None,
    }
}

/// The refusal for an insert or assignment without a value.
pub open spec fn is_missing_value(x: EditRefusal, label: Seq<char>) -> bool {
    x matches EditRefusal::InvalidPlan(vs) && vs@.len() == 1 && vs@[0].code@ == "missing_value"@ && vs@[0].message@
        == label + " 需要 value"@ && vs@[0].edit_index is None
}

fn missing_value(label: &str) -> (x: EditRefusal)
    ensures
        is_missing_value(x, label@),
{
    let mut message = to_owned_string(label);
    message.push_str(" 需要 value");
    let v = PlanViolation::new("missing_value", message.as_str(), None);
    let mut vs: Vec<PlanViolation> = Vec::new();
    vs.push(v);
    EditRefusal::InvalidPlan(vs)
}

/// What an assignment leaves: the value range replaced by the new value,
/// written at the indentation of its line; the record holds what was there.
pub open spec fn set_applied(
    b: Seq<u8>,
    ts: Seq<(Token, Span)>,
    kv: KeyValue,
    e: EditIntent,
    label: Seq<char>,
    next: String,
    rec: AppliedEdit,
) -> bool {
    match value_range(b, ts, kv) {
        Some((s, t)) => e.value matches Some(v) && rendered(v, (indent_of(b, s).len() / 2) as usize, rec.after@)
            && encode_utf8(next@) == b.subrange(0, s) + encode_utf8(rec.after@) + b.subrange(t, b.len() as int)
            && encode_utf8(rec.before@) == b.subrange(s, t) && rec.op == EditOp::Assign && rec.path@ == label
            && same_reason(rec.reason, e.reason),
        None => false,
    }
}

/// What an assignment to the field `key` of a place gives.
pub open spec fn set_outcome(
    b: Seq<u8>,
    toks: Result<Vec<(Token, Span)>, LexError>,
    p: Place,
    key: Seq<char>,
    e: EditIntent,
    label: Seq<char>,
    r: Result<(String, AppliedEdit), EditRefusal>,
) -> bool {
    match place_kv(p, key) {
        None => r matches Err(x) && is_not_found(x, label),
        Some(kv) => if !expectation_met(e.expect, kv.value) {
            r matches Err(x) && is_mismatch(x, e.expect, kv.value, label)
        } else {
            match toks {
                Err(le) => r matches Err(EditRefusal::ParseFailed(m)) && m@ == lex_text(le),
                Ok(ts) => match value_range(b, ts@, kv) {
                    None => r matches Err(x) && is_unsupported(x, label, no_assign_reason()),
                    Some((s, t)) => if !range_ok(b, s, t) {
                        r matches Err(x) && is_unsupported(x, label, bad_range_reason())
                    } else if e.value is None {
                        r matches Err(x) && is_missing_value(x, label)
                    } else {
                        r matches Ok((next, rec)) && set_applied(b, ts@, kv, e, label, next, rec)
                    },
                },
            }
        },
    }
}

/// Replaces the value of the field `key` in `scope`.
fn apply_set(
    source: &str,
    toks: &Result<Vec<(Token, Span)>, LexError>,
    edit: &EditIntent,
    scope: &Scope,
    key: &str,
    label: &str,
) -> (r: Result<(String, AppliedEdit), EditRefusal>)
    ensures
        set_outcome(encode_utf8(source@), *toks, scope.place(), key@, *edit, label@, r),
{
    let existing = match scope.find_key_value(key) {
        Some(kv) => kv,
        None => {
            return Err(EditRefusal::TargetNotFound { path: to_owned_string(label) });
        },
    };
    match check_expectation(label, &edit.expect, &existing.value) {
        Ok(()) => {},
        Err(x) => {
            return Err(x);
        },
    }
    let (start, end) = match value_span(source, toks, existing, label) {
        Ok(range) => range,
        Err(x) => {
            return Err(x);
        },
    };
    let value = match &edit.value {
        Some(v) => v,
        None => {
            return Err(missing_value(label));
        },
    };
    let bytes = source.as_bytes();
    proof {
        crate::edit::bytes::lemma_boundary_in_range(encode_utf8(source@), end as int);
    }
    let level = indent_level_at(bytes, start);
    let after = render(value, level);
    let before = cut(source, start, end);
    let next = splice(source, start, end, after.as_str());
    let record = AppliedEdit {
        op: EditOp::Assign,
        path: to_owned_string(label),
        before,
        after,
        reason: copy_reason(&edit.reason),
    };
    Ok((next, record))
}


/// A token that is a `}` ending at `end`.
pub open spec fn brace_ending(end: usize) -> spec_fn((Token, Span)) -> bool {
    |t: (Token, Span)| t.0 is RBrace && t.1.end == end
}

/// Where the `}` that closes a place starts: only a table block with a known
/// end has one, found among the tokens when there are tokens.
pub open spec fn closing_brace(p: Place, toks: Result<Vec<(Token, Span)>, LexError>) -> Option<usize> {
    match p {
        Place::Table(t) => if t.span.end == 0 {
            None
        } else {
            match toks {
                Ok(ts) => match first_index(ts@, brace_ending(t.span.end)) {
                    Some(k) => Some(ts@[k].1.start),
                    None => None,
                },
                Err(_) => None,
            }
        },
        Place::Item(_) => None,
    }
}

fn closing_brace_offset(scope: &Scope, toks: &Result<Vec<(Token, Span)>, LexError>) -> (r: Option<usize>)
    ensures
        r == closing_brace(scope.place(), *toks),
{
    let t = match *scope {
        Scope::Table(t) => t,
        Scope::Item(_) => {
            return None;
        },
    };
    if t.span.end == 0 {
        return None;
    }
    let ts = match toks {
        Ok(ts) => ts,
        Err(_) => {
            return None;
        },
    };
    let ghost p = brace_ending(t.span.end);
    let mut k: usize = 0;
    while k < ts.len()
        invariant
            k <= ts@.len(),
            p == brace_ending(t.span.end),
            scope.place() == Place::Table(*t),
            t.span.end != 0,
            *toks == Ok::<Vec<(Token, Span)>, LexError>(*ts),
            forall|q: int| 0 <= q < k ==> !p(#[trigger] ts@[q]),
        decreases ts@.len() - k,
    {
        let is_brace = match ts[k].0 {
            Token::RBrace => true,
            _ => false,
        };
        if is_brace && ts[k].1.end == t.span.end {
            proof {
                lemma_first_index(ts@, p, k as int);
            }
            return Some(ts[k].1.start);
        }
        k = k + 1;
    }
    proof {
        lemma_first_index(ts@, p, k as int);
    }
    None
}

/// The line break a text uses: CRLF when it has one anywhere, else LF.
pub open spec fn newline_of(src: Seq<char>) -> Seq<char> {
    if contains_seq(src, seq!['\r', '\n']) {
        seq!['\r', '\n']
    } else {
        seq!['\n']
    }
}

/// The indentation of a new line in a place: that of its first entry.
pub open spec fn insert_indent(b: Seq<u8>, p: Place) -> Seq<char> {
    match first_offset(p) {
        Some(o) => indent_of(b, o as int),
        None => Seq::empty(),
    }
}

/// Whether only white space stands before `brace` on its line.
pub open spec fn brace_alone(b: Seq<u8>, ls: int, brace: int) -> bool {
    brace <= b.len() && is_char_boundary(b, brace) && all_white(decode_utf8(b.subrange(ls, brace)))
}

/// Where a new line goes in a place: at the start of the line of its closing
/// brace (when nothing else stands before the brace on that line), else after
/// the line of its last entry, else at the end of the text. `None` when the
/// brace shares its line.
pub open spec fn landing(b: Seq<u8>, p: Place, toks: Result<Vec<(Token, Span)>, LexError>) -> Option<int> {
    match closing_brace(p, toks) {
        Some(brace) => {
            let ls = line_start(b, clamp(b, brace as int));
            if brace_alone(b, ls, brace as int) {
                Some(ls)
            } else {
                None
            }
        },
        None => match last_end(p) {
            Some(e) => Some(line_end(b, clamp(b, e as int))),
            None => Some(b.len() as int),
        },
    }
}

pub open spec fn brace_reason() -> Seq<char> {
    "右花括号不在独立行上，无法安全插入新字段"@
}

/// What inserting a field leaves: one new line `key = value` at the landing
/// point, after a line break when the text before does not end with one.
pub open spec fn insert_applied(
    src: Seq<char>,
    p: Place,
    toks: Result<Vec<(Token, Span)>, LexError>,
    key: Seq<char>,
    e: EditIntent,
    label: Seq<char>,
    next: String,
    rec: AppliedEdit,
) -> bool {
    let b = encode_utf8(src);
    let ind = insert_indent(b, p);
    let nl = newline_of(src);
    match landing(b, p, toks) {
        Some(at) => e.value matches Some(v) && rendered(v, (ind.len() / 2) as usize, rec.after@) && {
            let line = ind + key + " = "@ + rec.after@;
            let pre = if at > 0 && b[at - 1] != 10u8 { nl } else { Seq::empty() };
            encode_utf8(next@) == b.subrange(0, at) + encode_utf8(pre + line + nl) + b.subrange(at, b.len() as int)
        } && rec.before@.len() == 0 && rec.op == EditOp::Insert && rec.path@ == label && same_reason(rec.reason, e.reason),
        None => false,
    }
}

/// What inserting the field `key` into a place gives.
pub open spec fn insert_outcome(
    src: Seq<char>,
    toks: Result<Vec<(Token, Span)>, LexError>,
    p: Place,
    key: Seq<char>,
    e: EditIntent,
    label: Seq<char>,
    r: Result<(String, AppliedEdit), EditRefusal>,
) -> bool {
    if place_kv(p, key) is Some || place_block(p, key) is Some {
        r matches Err(EditRefusal::TargetAlreadyExists { path }) && path@ == label
    } else if e.value is None {
        r matches Err(x) && is_missing_value(x, label)
    } else if landing(encode_utf8(src), p, toks) is None {
        r matches Err(x) && is_unsupported(x, label, brace_reason())
    } else {
        r matches Ok((next, rec)) && insert_applied(src, p, toks, key, e, label, next, rec)
    }
}

/// Adds the field `key` to `scope` on a line of its own.
fn apply_insert(
    source: &str,
    toks: &Result<Vec<(Token, Span)>, LexError>,
    edit: &EditIntent,
    scope: &Scope,
    key: &str,
    label: &str,
) -> (r: Result<(String, AppliedEdit), EditRefusal>)
    ensures
        insert_outcome(source@, *toks, scope.place(), key@, *edit, label@, r),
{
    if scope.find_key_value(key).is_some() || scope.find_table_block(key).is_some() {
        return Err(EditRefusal::TargetAlreadyExists { path: to_owned_string(label) });
    }
    let value = match &edit.value {
        Some(v) => v,
        None => {
            return Err(missing_value(label));
        },
    };
    let bytes = source.as_bytes();
    let ghost b = encode_utf8(source@);
    let crlf = contains_str(source, "\r\n");
    proof {
        reveal_strlit("\r\n");
        assert("\r\n"@ =~= seq!['\r', '\n']);
    }
    let newline = if crlf { "\r\n" } else { "\n" };
    proof {
        reveal_strlit("\n");
        assert("\n"@ =~= seq!['\n']);
        assert(newline@ == newline_of(source@));
    }
    let indent = match scope.first_entry_offset() {
        Some(o) => line_indent(bytes, o),
        None => String::new(),
    };
    let width = chars_of(indent.as_str()).len();
    let rendered_value = render(value, width / 2);
    let at = match closing_brace_offset(scope, toks) {
        Some(brace) => {
            let ls = line_start_of(bytes, brace);
            if brace > bytes.len() || !source.is_char_boundary(brace) {
                return Err(EditRefusal::UnsupportedTarget {
                    path: to_owned_string(label),
                    reason: to_owned_string("右花括号不在独立行上，无法安全插入新字段"),
                });
            }
            proof {
                lemma_line_start_is_boundary(b, brace as int);
            }
            let before_brace = cut(source, ls, brace);
            proof {
                assert(before_brace@ == decode_utf8(b.subrange(ls as int, brace as int)));
            }
            if !is_all_white(before_brace.as_str()) {
                return Err(EditRefusal::UnsupportedTarget {
                    path: to_owned_string(label),
                    reason: to_owned_string("右花括号不在独立行上，无法安全插入新字段"),
                });
            }
            ls
        },
        None => match scope.last_entry_end() {
            Some(end) => {
                let e = line_end_of(bytes, end);
                proof {
                    lemma_line_end_is_boundary(b, clamp(b, end as int));
                }
                e
            },
            None => bytes.len(),
        },
    };
    proof {
        if at as int == b.len() {
            crate::edit::bytes::lemma_boundary_at_ends(b);
        }
    }
    let mut middle = String::new();
    if at > 0 && bytes[at - 1] != 10u8 {
        middle.push_str(newline);
    }
    let ghost pre = middle@;
    middle.push_str(indent.as_str());
    middle.push_str(key);
    middle.push_str(" = ");
    middle.push_str(rendered_value.as_str());
    middle.push_str(newline);
    proof {
        assert(middle@ == pre + (indent@ + key@ + " = "@ + rendered_value@) + newline@);
    }
    let next = insert_at(source, at, middle.as_str());
    let record = AppliedEdit {
        op: EditOp::Insert,
        path: to_owned_string(label),
        before: String::new(),
        after: rendered_value,
        reason: copy_reason(&edit.reason),
    };
    Ok((next, record))
}

/// Whether a pair stands alone on its lines: its range lies in the text on
/// boundaries, with only white space before it and after it on those lines.
pub open spec fn own_lines(b: Seq<u8>, kv: KeyValue, ls: int, le: int) -> bool {
    &&& kv.span.start <= kv.span.end <= b.len()
    &&& is_char_boundary(b, kv.span.start as int)
    &&& is_char_boundary(b, kv.span.end as int)
    &&& all_white(decode_utf8(b.subrange(ls, kv.span.start as int)))
    &&& all_white(decode_utf8(b.subrange(kv.span.end as int, le)))
}

pub open spec fn shared_line_reason() -> Seq<char> {
    "该字段与其它内容共用一行，删除会波及其它内容"@
}

/// What deleting the field `key` of a place gives: its whole lines removed.
pub open spec fn delete_outcome(
    b: Seq<u8>,
    p: Place,
    key: Seq<char>,
    e: EditIntent,
    label: Seq<char>,
    r: Result<(String, AppliedEdit), EditRefusal>,
) -> bool {
    match place_kv(p, key) {
        None => r matches Err(x) && is_not_found(x, label),
        Some(kv) => if !expectation_met(e.expect, kv.value) {
            r matches Err(x) && is_mismatch(x, e.expect, kv.value, label)
        } else {
            let ls = line_start(b, clamp(b, kv.span.start as int));
            let le = line_end(b, clamp(b, kv.span.end as int));
            if !own_lines(b, kv, ls, le) {
                r matches Err(x) && is_unsupported(x, label, shared_line_reason())
            } else {
                r matches Ok((next, rec)) && encode_utf8(next@) == b.subrange(0, ls) + b.subrange(le, b.len() as int)
                    && encode_utf8(rec.before@) == b.subrange(ls, le) && rec.after@.len() == 0 && rec.op
                    == EditOp::Delete && rec.path@ == label && same_reason(rec.reason, e.reason)
            }
        },
    }
}

/// Removes the lines of the field `key` of `scope`.
fn apply_delete(source: &str, edit: &EditIntent, scope: &Scope, key: &str, label: &str) -> (r: Result<
    (String, AppliedEdit),
    EditRefusal,
>)
    ensures
        delete_outcome(encode_utf8(source@), scope.place(), key@, *edit, label@, r),
{
    let existing = match scope.find_key_value(key) {
        Some(kv) => kv,
        None => {
            return Err(EditRefusal::TargetNotFound { path: to_owned_string(label) });
        },
    };
    match check_expectation(label, &edit.expect, &existing.value) {
        Ok(()) => {},
        Err(x) => {
            return Err(x);
        },
    }
    let bytes = source.as_bytes();
    let ghost b = encode_utf8(source@);
    let start = existing.span.start;
    let end = existing.span.end;
    let ls = line_start_of(bytes, start);
    let le = line_end_of(bytes, end);
    let shared = Err(EditRefusal::UnsupportedTarget {
        path: to_owned_string(label),
        reason: to_owned_string("该字段与其它内容共用一行，删除会波及其它内容"),
    });
    if !(start <= end && end <= bytes.len()) || !source.is_char_boundary(start) || !source.is_char_boundary(end) {
        return shared;
    }
    proof {
        lemma_line_start_is_boundary(b, start as int);
        lemma_line_end_is_boundary(b, end as int);
    }
    let lead = cut(source, ls, start);
    let trail = cut(source, end, le);
    proof {
        assert(lead@ == decode_utf8(b.subrange(ls as int, start as int)));
        assert(trail@ == decode_utf8(b.subrange(end as int, le as int)));
    }
    if !is_all_white(lead.as_str()) || !is_all_white(trail.as_str()) {
        return shared;
    }
    let before = cut(source, ls, le);
    let next = splice(source, ls, le, "");
    proof {
        reveal_strlit("");
        assert(b.subrange(0, ls as int) + encode_utf8(""@) + b.subrange(le as int, b.len() as int) =~= b.subrange(
            0,
            ls as int,
        ) + b.subrange(le as int, b.len() as int));
    }
    let record = AppliedEdit {
        op: EditOp::Delete,
        path: to_owned_string(label),
        before,
        after: String::new(),
        reason: copy_reason(&edit.reason),
    };
    Ok((next, record))
}


/// The refusal for a path without steps.
pub open spec fn is_empty_path(x: EditRefusal) -> bool {
    x matches EditRefusal::InvalidPlan(vs) && vs@.len() == 1 && vs@[0].code@ == "empty_path"@ && vs@[0].message@
        == "路径不能为空"@ && vs@[0].edit_index is None
}

pub open spec fn list_tail_reason() -> Seq<char> {
    "路径最后一段必须是字段名，不能是按名称定位的列表元素"@
}

/// What one edit gives on a text, given a tree of the text and its tokens:
/// the path must have steps and end in a field name; its other steps must
/// lead somewhere; then the operation says the rest.
#[verifier::opaque]
pub open spec fn intent_outcome(
    src: Seq<char>,
    root: TableBlock,
    toks: Result<Vec<(Token, Span)>, LexError>,
    e: EditIntent,
    r: Result<(String, AppliedEdit), EditRefusal>,
) -> bool {
    let label = path_text(e.path@);
    let b = encode_utf8(src);
    if e.path@.len() == 0 {
        r matches Err(x) && is_empty_path(x)
    } else {
        match e.path@.last() {
            PathSegment::Named { .. } => r matches Err(x) && is_unsupported(x, label, list_tail_reason()),
            PathSegment::Key(name) => match reach(Place::Table(root), e.path@.drop_last()) {
                Reach::At(p) => match e.op {
                    EditOp::Assign => set_outcome(b, toks, p, name@, e, label, r),
                    EditOp::Insert => insert_outcome(src, toks, p, name@, e, label, r),
                    EditOp::Delete => delete_outcome(b, p, name@, e, label, r),
                },
                Reach::Missing => r matches Err(x) && is_not_found(x, label),
                Reach::NotATable(n) => r matches Err(x) && is_unsupported(x, label, not_a_table_reason(n)),
                Reach::Ambiguous(n) => r matches Err(EditRefusal::TargetAmbiguous { path, matches }) && path@ == label
                    && matches == n,
            },
        }
    }
}

/// Applies one edit to `source`, whose tree is `root` and whose tokens are `toks`.
fn apply_to_tree(
    source: &str,
    root: &TableBlock,
    toks: &Result<Vec<(Token, Span)>, LexError>,
    edit: &EditIntent,
) -> (r: Result<(String, AppliedEdit), EditRefusal>)
    ensures
        intent_outcome(source@, *root, *toks, *edit, r),
{
    reveal(intent_outcome);
    let label = describe_path(&edit.path);
    let n = edit.path.len();
    if n == 0 {
        let v = PlanViolation::new("empty_path", "路径不能为空", None);
        let mut vs: Vec<PlanViolation> = Vec::new();
        vs.push(v);
        return Err(EditRefusal::InvalidPlan(vs));
    }
    let key = match &edit.path[n - 1] {
        PathSegment::Key(name) => name,
        PathSegment::Named { .. } => {
            return Err(EditRefusal::UnsupportedTarget {
                path: label,
                reason: to_owned_string("路径最后一段必须是字段名，不能是按名称定位的列表元素"),
            });
        },
    };
    proof {
        assert(edit.path@.take(n - 1) == edit.path@.drop_last());
    }
    let scope = match resolve_container(root, &edit.path, n - 1, label.as_str()) {
        Ok(s) => s,
        Err(x) => {
            return Err(x);
        },
    };
    match edit.op {
        EditOp::Assign => apply_set(source, toks, edit, &scope, key.as_str(), label.as_str()),
        EditOp::Insert => apply_insert(source, toks, edit, &scope, key.as_str(), label.as_str()),
        EditOp::Delete => apply_delete(source, edit, &scope, key.as_str(), label.as_str()),
    }
}

/// Whether a text fails to parse: a lexing or parsing error with this text.
pub open spec fn parse_refusal(src: Seq<char>, m: Seq<char>) -> bool {
    if src.len() >= u32::MAX {
        m == too_long_text()
    } else {
        exists|e: VerseconfError| crate::parser::parse_failure(src, e) && m == #[trigger] error_text(e)
    }
}

/// What one edit may give on a text: the source does not parse, or it
/// parses and this is the outcome for its tree.
pub open spec fn one_step(src: Seq<char>, e: EditIntent, r: Result<(String, AppliedEdit), EditRefusal>) -> bool {
    ||| r matches Err(EditRefusal::ParseFailed(m)) && parse_refusal(src, m@)
    ||| crate::parser::parses(src) && exists|ast: Ast, toks: Result<Vec<(Token, Span)>, LexError>|
        ast.source.content@ == src && #[trigger] intent_outcome(src, ast.root, toks, e, r)
}

/// Applies one edit to `source`: parses it, finds the target, edits.
fn apply_one(source: &str, edit: &EditIntent) -> (r: Result<(String, AppliedEdit), EditRefusal>)
    ensures
        one_step(source@, *edit, r),
{
    if !short_enough(source) {
        return Err(EditRefusal::ParseFailed(to_owned_string("文本过长，无法解析")));
    }
    let ast = match crate::parse(source) {
        Ok(a) => a,
        Err(e) => {
            return Err(EditRefusal::ParseFailed(e.describe()));
        },
    };
    let mut lexer = Lexer::new(source);
    let toks = lexer.tokenize_all();
    let r = apply_to_tree(source, &ast.root, &toks, edit);
    proof {
        assert(intent_outcome(source@, ast.root, toks, *edit, r));
    }
    r
}


/// One edit applied to `src` gives `next`, recorded as `rec`.
pub open spec fn step_leads(src: Seq<char>, e: EditIntent, next: Seq<char>, rec: AppliedEdit) -> bool {
    exists|n: String| n@ == next && #[trigger] one_step(src, e, Ok::<(String, AppliedEdit), EditRefusal>((n, rec)))
}

/// The texts `mids` are what `src` becomes edit by edit: each edit of `es`
/// turns one into the next, recorded in `recs`.
pub open spec fn chain(src: Seq<char>, es: Seq<EditIntent>, recs: Seq<AppliedEdit>, mids: Seq<Seq<char>>) -> bool {
    &&& mids.len() == es.len() + 1
    &&& recs.len() == es.len()
    &&& mids[0] == src
    &&& forall|k: int| 0 <= k < es.len() ==> #[trigger] step_leads(mids[k], es[k], mids[k + 1], recs[k])
}

/// The edits `es`, applied to `src` one after another, give `end`; `recs`
/// records them in order.
pub open spec fn steps_lead(src: Seq<char>, es: Seq<EditIntent>, recs: Seq<AppliedEdit>, end: Seq<char>) -> bool {
    exists|mids: Seq<Seq<char>>| #[trigger] chain(src, es, recs, mids) && mids.last() == end
}

/// One more step extends a chain.
proof fn lemma_chain_extend(
    src: Seq<char>,
    es: Seq<EditIntent>,
    i: int,
    recs: Seq<AppliedEdit>,
    mids: Seq<Seq<char>>,
    next: Seq<char>,
    rec: AppliedEdit,
)
    requires
        0 <= i < es.len(),
        chain(src, es.take(i), recs, mids),
        step_leads(mids.last(), es[i], next, rec),
    ensures
        chain(src, es.take(i + 1), recs.push(rec), mids.push(next)),
{
    let t = es.take(i + 1);
    let m = mids.push(next);
    let rs = recs.push(rec);
    assert forall|k: int| 0 <= k < t.len() implies #[trigger] step_leads(m[k], t[k], m[k + 1], rs[k]) by {
        if k < i {
            assert(es.take(i)[k] == t[k]);
            assert(step_leads(mids[k], es.take(i)[k], mids[k + 1], recs[k]));
        } else {
            assert(m[k] == mids.last());
        }
    }
}

/// Some edit of `es` is refused with `x`, after the ones before it applied.
pub open spec fn refused_at(src: Seq<char>, es: Seq<EditIntent>, x: EditRefusal) -> bool {
    exists|k: int, recs: Seq<AppliedEdit>, mid: Seq<char>|
        0 <= k < es.len() && #[trigger] steps_lead(src, es.take(k), recs, mid) && one_step(
            mid,
            es[k],
            Err::<(String, AppliedEdit), EditRefusal>(x),
        )
}

/// What applying `plan` to `src` gives: on success the edits applied in
/// turn and the result passed the check; a plan that breaks the contract is
/// refused with its violations; otherwise some edit is refused after the
/// ones before it applied, or the check refuses the result.
pub open spec fn plan_outcome(src: Seq<char>, plan: EditPlan, r: Result<EditOutcome, EditRefusal>) -> bool {
    match r {
        Ok(out) => plan_violations(plan).len() == 0 && steps_lead(src, plan.edits@, out.applied@, out.source@) && gate(
            src,
            out.source@,
            Ok::<String, EditRefusal>(out.source),
        ),
        Err(x) => if plan_violations(plan).len() > 0 {
            x matches EditRefusal::InvalidPlan(vs) && violation_views(vs@) == plan_violations(plan)
        } else {
            refused_at(src, plan.edits@, x) || exists|recs: Seq<AppliedEdit>, end: Seq<char>|
                #[trigger] steps_lead(src, plan.edits@, recs, end) && gate(src, end, Err::<String, EditRefusal>(x))
        },
    }
}

/// Applies an edit plan: each edit in turn, as a minimal change; then the
/// result is checked before it is handed back. A plan that breaks the
/// contract is refused before the source is touched; any refusal leaves the
/// caller nothing to write.
///
/// The check before handing back is that the result parses and brings in
/// no new high-risk audit finding; a check against the document's schema
/// block is not made here.
pub fn apply_edit_plan(source: &str, plan: &EditPlan) -> (r: Result<EditOutcome, EditRefusal>)
    requires
        source@.len() < u32::MAX,
    ensures
        plan_outcome(source@, *plan, r),
{
    match plan.validate() {
        Err(vs) => {
            return Err(EditRefusal::InvalidPlan(vs));
        },
        Ok(()) => {},
    }
    let ghost es = plan.edits@;
    let mut current = to_owned_string(source);
    let mut applied: Vec<AppliedEdit> = Vec::new();
    let mut i: usize = 0;
    let ghost mut mids: Seq<Seq<char>> = seq![source@];
    proof {
        assert(es.take(0) =~= Seq::<EditIntent>::empty());
    }
    while i < plan.edits.len()
        invariant
            i <= es.len(),
            es == plan.edits@,
            plan_violations(*plan).len() == 0,
            chain(source@, es.take(i as int), applied@, mids),
            mids.last() == current@,
        decreases es.len() - i,
    {
        let step = apply_one(current.as_str(), &plan.edits[i]);
        proof {
            assert(one_step(current@, es[i as int], step));
        }
        match step {
            Ok((next, rec)) => {
                proof {
                    assert(step_leads(current@, es[i as int], next@, rec));
                    lemma_chain_extend(source@, es, i as int, applied@, mids, next@, rec);
                    mids = mids.push(next@);
                }
                current = next;
                applied.push(rec);
            },
            Err(x) => {
                proof {
                    assert(steps_lead(source@, es.take(i as int), applied@, current@));
                    assert(one_step(current@, es[i as int], Err::<(String, AppliedEdit), EditRefusal>(x)));
                    assert(refused_at(source@, es, x));
                }
                return Err(x);
            },
        }
        i = i + 1;
    }
    proof {
        assert(es.take(es.len() as int) == es);
        assert(steps_lead(source@, es, applied@, current@));
    }
    let ghost end = current@;
    match finalize_edit(source, current) {
        Ok(text) => Ok(EditOutcome { source: text, applied }),
        Err(x) => {
            proof {
                assert(steps_lead(source@, es, applied@, end));
            }
            Err(x)
        },
    }
}

/// How a byte range is named in records and refusals: `bytes[start, end)`.
pub open spec fn range_label(start: usize, end: usize) -> Seq<char> {
    "bytes["@ + decimal_digits(start as nat) + ", "@ + decimal_digits(end as nat) + ")"@
}

/// Replaces the bytes `[start, end)` of `source` with `replacement`, under the
/// same check before handing back as a plan. A range out of bounds or with an
/// end inside a character is refused.
pub fn replace_range(source: &str, start: usize, end: usize, replacement: &str) -> (r: Result<EditOutcome, EditRefusal>)
    requires
        source@.len() < u32::MAX,
    ensures
        ({
            let b = encode_utf8(source@);
            let label = range_label(start, end);
            if start > end || end > b.len() {
                r matches Err(x) && is_unsupported(x, label, "区间越界"@)
            } else if !is_char_boundary(b, start as int) || !is_char_boundary(b, end as int) {
                r matches Err(x) && is_unsupported(x, label, "区间端点不在字符边界上"@)
            } else {
                let candidate = decode_utf8(b.subrange(0, start as int) + encode_utf8(replacement@) + b.subrange(
                    end as int,
                    b.len() as int,
                ));
                match r {
                    Ok(out) => gate(source@, candidate, Ok::<String, EditRefusal>(out.source)) && out.applied@.len() == 1
                        && out.applied@[0].op == EditOp::Assign && out.applied@[0].path@ == label && encode_utf8(
                        out.applied@[0].before@,
                    ) == b.subrange(start as int, end as int) && out.applied@[0].after@ == replacement@
                        && out.applied@[0].reason is None,
                    Err(x) => gate(source@, candidate, Err::<String, EditRefusal>(x)),
                }
            }
        }),
{
    let mut label = to_owned_string("bytes[");
    push_decimal(&mut label, start as u64);
    label.push_str(", ");
    push_decimal(&mut label, end as u64);
    label.push_str(")");
    let bytes = source.as_bytes();
    if start > end || end > bytes.len() {
        return Err(EditRefusal::UnsupportedTarget { path: label, reason: to_owned_string("区间越界") });
    }
    if !source.is_char_boundary(start) || !source.is_char_boundary(end) {
        return Err(EditRefusal::UnsupportedTarget { path: label, reason: to_owned_string("区间端点不在字符边界上") });
    }
    let before = cut(source, start, end);
    let candidate = splice(source, start, end, replacement);
    proof {
        assert(candidate@ == decode_utf8(encode_utf8(candidate@)));
    }
    let text = match finalize_edit(source, candidate) {
        Ok(t) => t,
        Err(x) => {
            return Err(x);
        },
    };
    let mut applied: Vec<AppliedEdit> = Vec::new();
    applied.push(AppliedEdit { op: EditOp::Assign, path: label, before, after: to_owned_string(replacement), reason: None });
    Ok(EditOutcome { source: text, applied })
}

/// The byte range of the value at `path` in a text, given a tree of the
/// text and its tokens.
pub open spec fn span_outcome(
    src: Seq<char>,
    root: TableBlock,
    toks: Result<Vec<(Token, Span)>, LexError>,
    path: Seq<PathSegment>,
    r: Result<(usize, usize), EditRefusal>,
) -> bool {
    let label = path_text(path);
    let b = encode_utf8(src);
    if path.len() == 0 {
        r matches Err(x) && is_empty_path(x)
    } else {
        match path.last() {
            PathSegment::Named { .. } => r matches Err(x) && is_unsupported(x, label, list_tail_reason()),
            PathSegment::Key(name) => match reach(Place::Table(root), path.drop_last()) {
                Reach::At(p) => match place_kv(p, name@) {
                    None => r matches Err(x) && is_not_found(x, label),
                    Some(kv) => match toks {
                        Err(le) => r matches Err(EditRefusal::ParseFailed(m)) && m@ == lex_text(le),
                        Ok(ts) => match value_range(b, ts@, kv) {
                            None => r matches Err(x) && is_unsupported(x, label, no_assign_reason()),
                            Some((s, t)) => if range_ok(b, s, t) {
                                r matches Ok((x, y)) && x == s && y == t
                            } else {
                                r matches Err(x) && is_unsupported(x, label, bad_range_reason())
                            },
                        },
                    },
                },
                Reach::Missing => r matches Err(x) && is_not_found(x, label),
                Reach::NotATable(n) => r matches Err(x) && is_unsupported(x, label, not_a_table_reason(n)),
                Reach::Ambiguous(n) => r matches Err(EditRefusal::TargetAmbiguous { path, matches }) && path@ == label
                    && matches == n,
            },
        }
    }
}

/// Locates the byte range of the value of a field: the yardstick for
/// telling an edit's own change from collateral damage, fixed by the source
/// and its tree alone. A target that is missing, ambiguous or whose range
/// cannot be fixed is refused as an edit would be.
pub fn value_span_for_path(source: &str, path: &Vec<PathSegment>) -> (r: Result<(usize, usize), EditRefusal>)
    requires
        source@.len() < u32::MAX,
    ensures
        r matches Err(EditRefusal::ParseFailed(m)) && parse_refusal(source@, m@) || crate::parser::parses(source@) && exists|
            ast: Ast,
            toks: Result<Vec<(Token, Span)>, LexError>,
        | ast.source.content@ == source@ && #[trigger] span_outcome(source@, ast.root, toks, path@, r),
{
    let label = describe_path(path);
    let ast = match crate::parse(source) {
        Ok(a) => a,
        Err(e) => {
            return Err(EditRefusal::ParseFailed(e.describe()));
        },
    };
    let mut lexer = Lexer::new(source);
    let toks = lexer.tokenize_all();
    let r = span_in_tree(source, &ast.root, &toks, path, label.as_str());
    proof {
        assert(span_outcome(source@, ast.root, toks, path@, r));
    }
    r
}

/// A range the contract gives lies inside the source's bytes, on character
/// boundaries, and is not empty.
pub proof fn lemma_span_within(
    source: Seq<char>,
    root: TableBlock,
    toks: Result<Vec<(Token, Span)>, LexError>,
    path: Seq<PathSegment>,
    start: usize,
    end: usize,
)
    requires
        span_outcome(source, root, toks, path, Ok::<(usize, usize), EditRefusal>((start, end))),
    ensures
        start < end <= encode_utf8(source).len(),
        is_char_boundary(encode_utf8(source), start as int),
        is_char_boundary(encode_utf8(source), end as int),
{
    let b = encode_utf8(source);
    let r = Ok::<(usize, usize), EditRefusal>((start, end));
    let last = path.last();
    let name = last->Key_0;
    let p = reach(Place::Table(root), path.drop_last())->At_0;
    let kv = place_kv(p, name@)->Some_0;
    let ts = toks->Ok_0;
    let st = value_range(b, ts@, kv)->Some_0;
    assert(range_ok(b, st.0, st.1));
    crate::edit::bytes::lemma_boundary_in_range(b, end as int);
}

fn span_in_tree(
    source: &str,
    root: &TableBlock,
    toks: &Result<Vec<(Token, Span)>, LexError>,
    path: &Vec<PathSegment>,
    label: &str,
) -> (r: Result<(usize, usize), EditRefusal>)
    requires
        label@ == path_text(path@),
    ensures
        span_outcome(source@, *root, *toks, path@, r),
{
    let n = path.len();
    if n == 0 {
        let v = PlanViolation::new("empty_path", "路径不能为空", None);
        let mut vs: Vec<PlanViolation> = Vec::new();
        vs.push(v);
        return Err(EditRefusal::InvalidPlan(vs));
    }
    let key = match &path[n - 1] {
        PathSegment::Key(name) => name,
        PathSegment::Named { .. } => {
            return Err(EditRefusal::UnsupportedTarget {
                path: to_owned_string(label),
                reason: to_owned_string("路径最后一段必须是字段名，不能是按名称定位的列表元素"),
            });
        },
    };
    proof {
        assert(path@.take(n - 1) == path@.drop_last());
    }
    let scope = match resolve_container(root, path, n - 1, label) {
        Ok(s) => s,
        Err(x) => {
            return Err(x);
        },
    };
    let existing = match scope.find_key_value(key.as_str()) {
        Some(kv) => kv,
        None => {
            return Err(EditRefusal::TargetNotFound { path: to_owned_string(label) });
        },
    };
    value_span(source, toks, existing, label)
}


/// The landing point of an insertion lies within the text.
pub proof fn lemma_landing_in_range(b: Seq<u8>, p: Place, toks: Result<Vec<(Token, Span)>, LexError>)
    ensures
        landing(b, p, toks) matches Some(at) ==> 0 <= at <= b.len(),
{
    match closing_brace(p, toks) {
        Some(brace) => {
            crate::edit::bytes::lemma_line_start_bounds(b, clamp(b, brace as int));
        },
        None => match last_end(p) {
            Some(e) => {
                crate::edit::bytes::lemma_line_end_bounds(b, clamp(b, e as int));
            },
            None => {},
        },
    }
}

} // verus!
