//! The verdict on one task: it looks at three things only, and never takes
//! a strategy's own word for them.
//!
//! 1. right: the value at the target in the result is the expected one, read
//!    from the tree itself;
//! 2. collateral damage: the value range the contract defines fixes what may
//!    change; the bytes before and after it must stay byte for byte;
//! 3. refusals: must carry the expected code; a refusal for the wrong reason
//!    does not count, or refusing everything would score full marks.

use vstd::prelude::*;
use vstd::utf8::{encode_utf8, decode_utf8, is_char_boundary, valid_utf8};
use crate::ast::{Ast, TableBlock};
use crate::bench::keys::{last_names, target_key_names, collect_key_paths, display_path, keys_of, read_value_at, render_path, shown_path, target_kv, rendered_path};
use crate::bench::lines::{changed_lines, count_of, text_lines, changed_line_count, comments_all_kept, comments_kept, differing_lines, line_count};
use crate::bench::task::{first_op, Outcome, StrategyOutcome, TargetExpect, Task};
use crate::edit::apply::{parse_refusal, span_outcome, value_span_for_path};
use crate::edit::equality::same_value;
use crate::edit::outcome::EditRefusal;
use crate::edit::plan::PathSegment;
use crate::edit::value::EditValue;
use crate::bench::spans::{line_range_of, merge_sorted, range_order, untouched, kept_after, kept_pieces, line_range, merge_ranges, ranges_within, untouched_bytes, bytes_end_with, bytes_start_with, ends_with_bytes, starts_with_bytes};
use crate::lexer::LexError;
use crate::span::Span;
use crate::token::Token;
use crate::edit::bytes::cut;
use crate::edit::gate::{short_enough, strictly_sorted, texts, too_long_text};
use crate::edit::reading::{readable, reads_as};
use crate::edit::value::json_text;
use crate::engine::template::{debug_quoted, push_debug_list, push_debug_quoted};
use crate::text::{trimmed, contains_seq, contains_str, decimal_digits, lines_of, push_decimal, str_eq, to_owned_string};

verus! {

broadcast use vstd::string::group_string_axioms, vstd::utf8::group_utf8_lib;

/// The verdict on one task under one strategy.
pub struct Judgement {
    pub outcome: Outcome,
    pub detail: String,
    /// whether every comment and `#@` metadata fragment of the source is kept
    pub comments_kept: bool,
}

/// `p` is the length of the longest common prefix of `a` and `b`.
pub open spec fn is_common_prefix(a: Seq<u8>, b: Seq<u8>, p: int) -> bool {
    &&& 0 <= p <= a.len() && p <= b.len()
    &&& forall|k: int| 0 <= k < p ==> a[k] == b[k]
    &&& p == a.len() || p == b.len() || a[p] != b[p]
}

/// The byte `k` places from the end of `a`.
pub open spec fn from_end(a: Seq<u8>, k: int) -> u8 {
    a[a.len() - 1 - k]
}

/// `s` is the length of the longest common suffix of `a` and `b` that does
/// not reach into their common prefix of length `p`.
pub open spec fn is_common_suffix(a: Seq<u8>, b: Seq<u8>, p: int, s: int) -> bool {
    &&& 0 <= s && s <= a.len() - p && s <= b.len() - p
    &&& forall|k: int| 0 <= k < s ==> #[trigger] from_end(a, k) == from_end(b, k)
    &&& s == a.len() - p || s == b.len() - p || from_end(a, s) != from_end(b, s)
}

/// The longest common prefix and suffix of two texts, in bytes.
pub struct DiffBounds {
    pub prefix: usize,
    pub suffix: usize,
}

/// The longest common prefix of `source` and `next`, and their longest
/// common suffix after it.
pub fn diff_bounds(source: &str, next: &str) -> (d: DiffBounds)
    ensures
        is_common_prefix(encode_utf8(source@), encode_utf8(next@), d.prefix as int),
        is_common_suffix(encode_utf8(source@), encode_utf8(next@), d.prefix as int, d.suffix as int),
{
    let a = source.as_bytes();
    let b = next.as_bytes();
    let mut prefix: usize = 0;
    while prefix < a.len() && prefix < b.len() && a[prefix] == b[prefix]
        invariant
            prefix <= a@.len(),
            prefix <= b@.len(),
            forall|k: int| 0 <= k < prefix ==> a@[k] == b@[k],
        decreases a@.len() - prefix,
    {
        prefix = prefix + 1;
    }
    let mut suffix: usize = 0;
    while suffix < a.len() - prefix && suffix < b.len() - prefix && a[a.len() - 1 - suffix] == b[b.len() - 1 - suffix]
        invariant
            prefix <= a@.len(),
            prefix <= b@.len(),
            suffix <= a@.len() - prefix,
            suffix <= b@.len() - prefix,
            forall|k: int| 0 <= k < suffix ==> #[trigger] from_end(a@, k) == from_end(b@, k),
        decreases a@.len() - suffix,
    {
        suffix = suffix + 1;
    }
    DiffBounds { prefix, suffix }
}

/// What is left of `source` once the changed middle is cut out: its common
/// prefix and suffix with the result; the whole source when either ends
/// inside a character.
pub open spec fn retained(a: Seq<u8>, p: int, s: int) -> Seq<char> {
    if is_char_boundary(a, p) && is_char_boundary(a, a.len() - s) {
        decode_utf8(a.subrange(0, p)) + decode_utf8(a.subrange(a.len() - s, a.len() as int))
    } else {
        decode_utf8(a)
    }
}

fn retained_source(source: &str, d: &DiffBounds) -> (r: String)
    requires
        d.prefix <= encode_utf8(source@).len(),
        d.suffix <= encode_utf8(source@).len(),
    ensures
        r@ == retained(encode_utf8(source@), d.prefix as int, d.suffix as int),
{
    let n = source.as_bytes().len();
    let tail_start = n - d.suffix;
    if source.is_char_boundary(d.prefix) && source.is_char_boundary(tail_start) {
        proof {
            vstd::utf8::is_char_boundary_start_end_of_seq(encode_utf8(source@));
        }
        let head = cut(source, 0, d.prefix);
        let tail = cut(source, tail_start, n);
        let mut r = head;
        r.push_str(tail.as_str());
        r
    } else {
        to_owned_string(source)
    }
}

pub open spec fn yes_no(b: bool) -> Seq<char> {
    if b { "是"@ } else { "否"@ }
}

fn yes_no_text(b: bool) -> (s: &'static str)
    ensures
        s@ == yes_no(b),
{
    if b { "是" } else { "否" }
}

/// How the line counts, the differing lines and the line breaks of the
/// two texts read in a damage report.
pub open spec fn line_stats(source: Seq<char>, next: Seq<char>) -> Seq<char> {
    "行数 "@ + decimal_digits(lines_of(source).len()) + "→"@ + decimal_digits(lines_of(next).len()) + "，不同行 "@
        + decimal_digits(
        differing_lines(
            lines_of(source),
            lines_of(next),
            if lines_of(source).len() >= lines_of(next).len() {
                lines_of(source).len() as int
            } else {
                lines_of(next).len() as int
            },
        ),
    ) + "，CRLF "@ + yes_no(contains_seq(source, seq!['\r', '\n'])) + "→"@ + yes_no(
        contains_seq(next, seq!['\r', '\n']),
    )
}

fn push_line_stats(out: &mut String, source: &str, next: &str)
    ensures
        final(out)@ == old(out)@ + line_stats(source@, next@),
{
    proof {
        reveal_strlit("\r\n");
        assert("\r\n"@ =~= seq!['\r', '\n']);
    }
    out.push_str("行数 ");
    push_decimal(out, line_count(source) as u64);
    out.push_str("→");
    push_decimal(out, line_count(next) as u64);
    out.push_str("，不同行 ");
    push_decimal(out, changed_line_count(source, next) as u64);
    out.push_str("，CRLF ");
    out.push_str(yes_no_text(contains_str(source, "\r\n")));
    out.push_str("→");
    out.push_str(yes_no_text(contains_str(next, "\r\n")));
}

/// Where the damage around a value range lies: before it, after it, or both.
pub open spec fn damage_place(prefix_ok: bool, suffix_ok: bool) -> Seq<char> {
    if !prefix_ok && !suffix_ok {
        "之前与之后"@
    } else if !prefix_ok {
        "之前"@
    } else if !suffix_ok {
        "之后"@
    } else {
        Seq::empty()
    }
}

/// The report of bytes changed around a value range.
pub open spec fn damage_text(source: Seq<char>, next: Seq<char>, prefix_ok: bool, suffix_ok: bool) -> Seq<char> {
    "改动区间"@ + damage_place(prefix_ok, suffix_ok) + "的字节也变了："@ + line_stats(source, next)
}

/// The report of bytes changed beside an insertion or a deletion.
pub open spec fn bounds_damage_text(source: Seq<char>, next: Seq<char>) -> Seq<char> {
    "改动之外的字节也变了："@ + line_stats(source, next)
}

fn describe_damage(source: &str, next: &str, prefix_ok: bool, suffix_ok: bool) -> (s: String)
    ensures
        s@ == damage_text(source@, next@, prefix_ok, suffix_ok),
{
    let mut s = to_owned_string("改动区间");
    if !prefix_ok && !suffix_ok {
        s.push_str("之前与之后");
    } else if !prefix_ok {
        s.push_str("之前");
    } else if !suffix_ok {
        s.push_str("之后");
    }
    s.push_str("的字节也变了：");
    proof {
        if prefix_ok && suffix_ok {
            assert(damage_place(prefix_ok, suffix_ok) =~= Seq::<char>::empty());
        }
    }
    push_line_stats(&mut s, source, next);
    s
}

fn describe_bounds_damage(source: &str, next: &str) -> (s: String)
    ensures
        s@ == bounds_damage_text(source@, next@),
{
    let mut s = to_owned_string("改动之外的字节也变了：");
    push_line_stats(&mut s, source, next);
    s
}

/// Paths without those that start with `target`.
pub open spec fn without_prefix(ks: Set<Seq<char>>, target: Seq<char>) -> Set<Seq<char>> {
    ks.filter(|k: Seq<char>| !(target.len() <= k.len() && k.subrange(0, target.len() as int) == target))
}

fn has_prefix(s: &str, target: &str) -> (b: bool)
    ensures
        b == (target@.len() <= s@.len() && s@.subrange(0, target@.len() as int) == target@),
{
    let v = crate::text::chars_of(s);
    let t = crate::text::chars_of(target);
    if t.len() > v.len() {
        return false;
    }
    let mut k: usize = 0;
    while k < t.len()
        invariant
            k <= t@.len() <= v@.len(),
            v@ == s@,
            t@ == target@,
            forall|q: int| 0 <= q < k ==> v@[q] == t@[q],
        decreases t@.len() - k,
    {
        if v[k] != t[k] {
            proof {
                assert(s@.subrange(0, target@.len() as int)[k as int] != target@[k as int]);
            }
            return false;
        }
        k = k + 1;
    }
    proof {
        assert(s@.subrange(0, target@.len() as int) =~= target@);
    }
    true
}

/// The members of an ascending list that do not start with `target`.
fn drop_prefixed(v: &Vec<String>, target: &str) -> (r: Vec<String>)
    requires
        strictly_sorted(texts(v@)),
    ensures
        strictly_sorted(texts(r@)),
        texts(r@).to_set() == without_prefix(texts(v@).to_set(), target@),
{
    let mut r: Vec<String> = Vec::new();
    let mut i: usize = 0;
    while i < v.len()
        invariant
            i <= v@.len(),
            strictly_sorted(texts(v@)),
            strictly_sorted(texts(r@)),
            forall|k: int, q: int| 0 <= k < r@.len() && i <= q < v@.len() ==> crate::edit::reading::name_lt(
                #[trigger] texts(r@)[k],
                #[trigger] texts(v@)[q],
            ),
            forall|x: Seq<char>| #[trigger] texts(r@).contains(x) <==> (texts(v@).take(i as int).contains(x) && !(
            target@.len() <= x.len() && x.subrange(0, target@.len() as int) == target@)),
        decreases v@.len() - i,
    {
        let ghost old_r = texts(r@);
        let ghost t0 = texts(v@).take(i as int);
        let ghost t1 = texts(v@).take(i + 1);
        proof {
            assert(t1 == t0.push(texts(v@)[i as int]));
            assert(texts(v@)[i as int] == v@[i as int]@);
        }
        if !has_prefix(v[i].as_str(), target) {
            r.push(to_owned_string(v[i].as_str()));
            proof {
                assert(texts(r@) == old_r.push(texts(v@)[i as int]));
                assert forall|x: int, y: int| 0 <= x < y < texts(r@).len() implies crate::edit::reading::name_lt(
                    #[trigger] texts(r@)[x],
                    #[trigger] texts(r@)[y],
                ) by {
                    if y == old_r.len() {
                        assert(texts(r@)[x] == old_r[x]);
                    } else {
                        assert(texts(r@)[x] == old_r[x] && texts(r@)[y] == old_r[y]);
                    }
                }
                assert forall|k: int, q: int| 0 <= k < texts(r@).len() && i + 1 <= q < v@.len() implies crate::edit::reading::name_lt(
                    #[trigger] texts(r@)[k],
                    #[trigger] texts(v@)[q],
                ) by {
                    if k < old_r.len() {
                        assert(texts(r@)[k] == old_r[k]);
                    }
                }
                assert forall|x: Seq<char>| #[trigger] texts(r@).contains(x) <==> (t1.contains(x)
                    && !(target@.len() <= x.len() && x.subrange(0, target@.len() as int) == target@)) by {
                    if texts(r@).contains(x) {
                        let k = choose|k: int| 0 <= k < texts(r@).len() && texts(r@)[k] == x;
                        if k < old_r.len() {
                            assert(old_r[k] == x);
                            assert(old_r.contains(x));
                            let m = choose|m: int| 0 <= m < i && t0[m] == x;
                            assert(t1[m] == x);
                        } else {
                            assert(t1[i as int] == x);
                        }
                    }
                    if t1.contains(x) && !(target@.len() <= x.len() && x.subrange(
                        0,
                        target@.len() as int,
                    ) == target@) {
                        let m = choose|m: int| 0 <= m < i + 1 && t1[m] == x;
                        if m < i {
                            assert(t0[m] == x);
                            assert(old_r.contains(x));
                            let k = choose|k: int| 0 <= k < old_r.len() && old_r[k] == x;
                            assert(texts(r@)[k] == x);
                        } else {
                            assert(texts(r@)[old_r.len() as int] == x);
                        }
                    }
                }
            }
        } else {
            proof {
                assert forall|x: Seq<char>| #[trigger] texts(r@).contains(x) <==> (t1.contains(x)
                    && !(target@.len() <= x.len() && x.subrange(0, target@.len() as int) == target@)) by {
                    if texts(r@).contains(x) {
                        let m = choose|m: int| 0 <= m < i && t0[m] == x;
                        assert(t1[m] == x);
                    }
                    if t1.contains(x) && !(target@.len() <= x.len() && x.subrange(
                        0,
                        target@.len() as int,
                    ) == target@) {
                        let m = choose|m: int| 0 <= m < i + 1 && t1[m] == x;
                        if m < i {
                            assert(t0[m] == x);
                        }
                    }
                }
            }
        }
        i = i + 1;
    }
    proof {
        assert(texts(v@).take(v@.len() as int) == texts(v@));
        assert forall|x: Seq<char>| texts(r@).to_set().contains(x) <==> without_prefix(texts(v@).to_set(), target@).contains(x) by {
        }
        assert(texts(r@).to_set() =~= without_prefix(texts(v@).to_set(), target@));
    }
    r
}

/// Two strictly ascending lists with the same members are the same list.
proof fn lemma_same_members_same_order(a: Seq<Seq<char>>, b: Seq<Seq<char>>)
    requires
        strictly_sorted(a),
        strictly_sorted(b),
        a.to_set() == b.to_set(),
    ensures
        a == b,
{
    assert forall|x: Seq<char>| a.contains(x) <==> b.contains(x) by {
        assert(a.to_set().contains(x) == a.contains(x));
        assert(b.to_set().contains(x) == b.contains(x));
    }
    crate::edit::equality::lemma_sorted_names_equal(a, b);
}

/// Whether two ascending lists hold the same texts.
fn same_texts(a: &Vec<String>, b: &Vec<String>) -> (r: bool)
    requires
        strictly_sorted(texts(a@)),
        strictly_sorted(texts(b@)),
    ensures
        r == (texts(a@).to_set() == texts(b@).to_set()),
{
    if a.len() != b.len() {
        proof {
            if texts(a@).to_set() == texts(b@).to_set() {
                lemma_same_members_same_order(texts(a@), texts(b@));
            }
        }
        return false;
    }
    let mut i: usize = 0;
    while i < a.len()
        invariant
            i <= a@.len() == b@.len(),
            strictly_sorted(texts(a@)),
            strictly_sorted(texts(b@)),
            forall|k: int| 0 <= k < i ==> texts(a@)[k] == texts(b@)[k],
        decreases a@.len() - i,
    {
        if !str_eq(a[i].as_str(), b[i].as_str()) {
            proof {
                assert(texts(a@)[i as int] == a@[i as int]@);
                assert(texts(b@)[i as int] == b@[i as int]@);
                if texts(a@).to_set() == texts(b@).to_set() {
                    lemma_same_members_same_order(texts(a@), texts(b@));
                }
            }
            return false;
        }
        i = i + 1;
    }
    proof {
        assert(texts(a@) =~= texts(b@));
    }
    true
}

/// Whether the field paths of the two texts agree but for those under
/// `target`: dropped from the source's for a deletion, from the result's
/// for an insertion.
fn key_sets_match(source: &str, next: &str, target: &str, deleting: bool) -> (b: bool)
    requires
        source@.len() < u32::MAX,
        next@.len() < u32::MAX,
    ensures
        exists|s: Set<Seq<char>>, n: Set<Seq<char>>|
            keys_of(source@, s) && keys_of(next@, n) && b == if deleting {
                without_prefix(s, target@) == n
            } else {
                s == without_prefix(n, target@)
            },
{
    let source_keys = collect_key_paths(source);
    let next_keys = collect_key_paths(next);
    let ghost s = texts(source_keys@).to_set();
    let ghost n = texts(next_keys@).to_set();
    if deleting {
        let kept = drop_prefixed(&source_keys, target);
        let r = same_texts(&kept, &next_keys);
        proof {
            assert(keys_of(source@, s) && keys_of(next@, n));
        }
        r
    } else {
        let kept = drop_prefixed(&next_keys, target);
        let r = same_texts(&source_keys, &kept);
        proof {
            assert(keys_of(source@, s) && keys_of(next@, n));
        }
        r
    }
}


/// The code a refusal must carry; empty when the task names none.
pub open spec fn expected_code(t: Task) -> Seq<char> {
    match t.expect.code {
        Some(c) => c@,
        None => Seq::empty(),
    }
}

/// The verdict on a task that expects a refusal: its outcome, detail and
/// whether the comments count as kept.
pub open spec fn refusal_verdict(expected: Seq<char>, result: StrategyOutcome) -> (Outcome, Seq<char>, bool) {
    match result {
        StrategyOutcome::Refused { code, message } => if code@ == expected {
            (Outcome::RefusedCorrectly, "按 "@ + code@ + " 拒绝："@ + message@, true)
        } else {
            (Outcome::Wrong, "应以 "@ + expected + " 拒绝，实际是 "@ + code@ + "："@ + message@, true)
        },
        StrategyOutcome::Applied(_) => (Outcome::AppliedWrongly, "应以 "@ + expected + " 拒绝，实际改动了文件"@, false),
    }
}

fn judge_refusal(task: &Task, result: &StrategyOutcome) -> (j: Judgement)
    ensures
        (j.outcome, j.detail@, j.comments_kept) == refusal_verdict(expected_code(*task), *result),
{
    let expected = match &task.expect.code {
        Some(c) => c.as_str(),
        None => "",
    };
    proof {
        reveal_strlit("");
        assert(expected@ == expected_code(*task));
    }
    match result {
        StrategyOutcome::Refused { code, message } => {
            if str_eq(code.as_str(), expected) {
                let mut d = to_owned_string("按 ");
                d.push_str(code.as_str());
                d.push_str(" 拒绝：");
                d.push_str(message.as_str());
                Judgement { outcome: Outcome::RefusedCorrectly, detail: d, comments_kept: true }
            } else {
                let mut d = to_owned_string("应以 ");
                d.push_str(expected);
                d.push_str(" 拒绝，实际是 ");
                d.push_str(code.as_str());
                d.push_str("：");
                d.push_str(message.as_str());
                Judgement { outcome: Outcome::Wrong, detail: d, comments_kept: true }
            }
        },
        StrategyOutcome::Applied(_) => {
            let mut d = to_owned_string("应以 ");
            d.push_str(expected);
            d.push_str(" 拒绝，实际改动了文件");
            Judgement { outcome: Outcome::AppliedWrongly, detail: d, comments_kept: false }
        },
    }
}

/// The verdict on a result that cannot be parsed, with the reason.
fn unparseable(reason: String) -> (j: Judgement)
    ensures
        j.outcome == Outcome::Wrong,
        j.detail@ == "结果无法解析："@ + reason@,
        !j.comments_kept,
{
    let mut d = to_owned_string("结果无法解析：");
    d.push_str(reason.as_str());
    Judgement { outcome: Outcome::Wrong, detail: d, comments_kept: false }
}

/// A value's text, or `<缺失>` when there is none.
fn value_or_missing(v: &Option<EditValue>) -> (s: String)
    ensures
        s@ == match *v {
            Some(x) => json_text(x),
            None => "<缺失>"@,
        },
{
    match v {
        Some(x) => x.to_text(),
        None => to_owned_string("<缺失>"),
    }
}

/// Some tree of `text` holds at `path` a value that is the same as `expected`.
pub open spec fn value_held(text: Seq<char>, path: Seq<PathSegment>, expected: EditValue) -> bool {
    crate::parser::parses(text) && exists|ast: Ast|
        ast.source.content@ == text && match #[trigger] target_kv(ast.root, path) {
            Some(kv) => exists|v: EditValue| readable(kv.value) && reads_as(kv.value, v) && same_value(v, expected),
            None => false,
        }
}

/// Some tree of `text` holds no readable value at `path`.
pub open spec fn value_gone(text: Seq<char>, path: Seq<PathSegment>) -> bool {
    crate::parser::parses(text) && exists|ast: Ast|
        ast.source.content@ == text && match #[trigger] target_kv(ast.root, path) {
            Some(kv) => !readable(kv.value),
            None => true,
        }
}

/// `b`'s bytes all lie in its common prefix and suffix with `a`: `b` is
/// `a` with one piece cut out.
pub open spec fn covered_by_ends(a: Seq<u8>, b: Seq<u8>) -> bool {
    exists|p: int, s: int| is_common_prefix(a, b, p) && #[trigger] is_common_suffix(a, b, p, s) && p + s >= b.len()
}

/// The same with the roles swapped: `b` is `a` with one piece added.
pub open spec fn covers_by_ends(a: Seq<u8>, b: Seq<u8>) -> bool {
    exists|p: int, s: int| is_common_prefix(a, b, p) && #[trigger] is_common_suffix(a, b, p, s) && p + s >= a.len()
}

/// The field paths of the two texts agree but for those under `target`.
pub open spec fn keys_agree(source: Seq<char>, next: Seq<char>, target: Seq<char>, deleting: bool) -> bool {
    exists|s: Set<Seq<char>>, n: Set<Seq<char>>|
        #[trigger] keys_of(source, s) && #[trigger] keys_of(next, n) && if deleting {
            without_prefix(s, target) == n
        } else {
            s == without_prefix(n, target)
        }
}

/// The range the edit contract gives for the value at `path` in `source`.
pub open spec fn span_fixed(source: Seq<char>, path: Seq<PathSegment>, start: usize, end: usize) -> bool {
    crate::parser::parses(source) && exists|ast: Ast, toks: Result<Vec<(Token, Span)>, LexError>|
        ast.source.content@ == source && #[trigger] span_outcome(
            source,
            ast.root,
            toks,
            path,
            Ok::<(usize, usize), EditRefusal>((start, end)),
        )
}

/// `b` keeps `a`'s bytes before `start` and from `end` on at its two ends.
pub open spec fn ends_kept(a: Seq<u8>, b: Seq<u8>, start: int, end: int) -> bool {
    starts_with_bytes(b, a.subrange(0, start)) && ends_with_bytes(b, a.subrange(end, a.len() as int))
}

/// The message for a task that expects an edit and has no value.
pub open spec fn missing_value_text(id: Seq<char>) -> Seq<char> {
    "任务 "@ + id + " 声明为 applied 但没有 expect.value"@
}

fn missing_value(task: &Task) -> (m: String)
    ensures
        m@ == missing_value_text(task.id@),
{
    let mut m = to_owned_string("任务 ");
    m.push_str(task.id.as_str());
    m.push_str(" 声明为 applied 但没有 expect.value");
    m
}

fn wrong_value(expected: &EditValue, actual: &Option<EditValue>, source: &str, next: &str) -> (j: Judgement)
    ensures
        j.outcome == Outcome::Wrong,
        j.comments_kept == comments_all_kept(source@, next@),
        ("目标值应为 "@ + json_text(*expected)).is_prefix_of(j.detail@),
{
    let mut d = to_owned_string("目标值应为 ");
    d.push_str(expected.to_text().as_str());
    let ghost head = d@;
    d.push_str("，实际为 ");
    d.push_str(value_or_missing(actual).as_str());
    proof {
        lemma_prefix_of_concat(head, d@.subrange(head.len() as int, d@.len() as int));
        assert(head + d@.subrange(head.len() as int, d@.len() as int) =~= d@);
    }
    Judgement { outcome: Outcome::Wrong, detail: d, comments_kept: comments_kept(source, next) }
}


/// The message for a result that should have been an edit and is a refusal.
pub open spec fn refused_wrongly_text(code: Seq<char>) -> Seq<char> {
    "应当改动，实际以 "@ + code + " 拒绝"@
}

/// Why one edit is a mis-edit: the result does not parse; or it parses and,
/// for a deletion, the target still holds a value (the detail names it),
/// or the target does not hold the expected value (the detail gives it).
pub open spec fn single_wrong(task: Task, op: Seq<char>, next: Seq<char>, d: Seq<char>) -> bool {
    let path = task.expect.path@;
    ||| unparsed_detail(next, d)
    ||| crate::parser::parses(next) && exists|ast: Ast|
        ast.source.content@ == next && if op == "delete"@ {
            (match #[trigger] target_kv(ast.root, path) {
                Some(kv) => readable(kv.value),
                None => false,
            }) && ("目标 "@ + shown_path(path)).is_prefix_of(d)
        } else {
            match task.expect.value {
                Some(v) => !(match target_kv(ast.root, path) {
                    Some(kv) => exists|y: EditValue| readable(kv.value) && reads_as(kv.value, y) && same_value(y, v),
                    None => false,
                }) && ("目标值应为 "@ + json_text(v)).is_prefix_of(d),
                None => false,
            }
        }
}

/// What holds of the verdict on one edit of a plan whose first edit is `op`.
pub open spec fn single_verdict(task: Task, op: Seq<char>, source: Seq<char>, next: Seq<char>, r: Result<Judgement, String>) -> bool {
    let path = task.expect.path@;
    let a = encode_utf8(source);
    let b = encode_utf8(next);
    &&& next.len() >= u32::MAX ==> (r matches Ok(j) && j.outcome == Outcome::Wrong && j.detail@ == "结果无法解析："@
        + too_long_text() && !j.comments_kept)
    &&& r matches Err(m) ==> op != "delete"@ && task.expect.value is None && m@ == missing_value_text(task.id@)
    &&& r matches Ok(j) ==> j.outcome == Outcome::Correct || j.outcome == Outcome::Collateral || j.outcome
        == Outcome::Wrong
    &&& r matches Ok(j) ==> (j.outcome == Outcome::Wrong ==> single_wrong(task, op, next, j.detail@))
    &&& r matches Ok(j) ==> (j.outcome != Outcome::Wrong ==> next.len() < u32::MAX && (if op == "delete"@ {
        value_gone(next, path)
    } else {
        task.expect.value matches Some(v) && value_held(next, path, v)
    }))
    &&& r matches Ok(j) ==> (j.outcome == Outcome::Correct ==> (if op == "delete"@ {
        covered_by_ends(a, b) && keys_agree(source, next, rendered_path(path), true)
            && j.detail@ == "目标已删除，删除区间之外字节零变化"@
    } else if op == "insert"@ {
        covers_by_ends(a, b) && keys_agree(source, next, rendered_path(path), false)
            && j.detail@ == "目标已插入，插入区间之外字节零变化"@ && j.comments_kept == comments_all_kept(source, next)
    } else {
        (exists|start: usize, end: usize| span_fixed(source, path, start, end) && #[trigger] ends_kept(a, b, start as int, end as int))
            && j.detail@ == "目标值已改对，改动区间之外字节零变化"@ && j.comments_kept == comments_all_kept(source, next)
    }))
}

/// What holds of the verdict on a task that expects an edit.
pub open spec fn application_verdict(task: Task, source: Seq<char>, result: StrategyOutcome, r: Result<Judgement, String>) -> bool {
    match result {
        StrategyOutcome::Refused { code, .. } => r matches Ok(j) && j.outcome == Outcome::RefusedWrongly
            && j.detail@ == refused_wrongly_text(code@) && j.comments_kept,
        StrategyOutcome::Applied(next) => if task.expect.targets@.len() > 0 {
            r matches Ok(j) && multi_verdict(task.expect.targets@, source, next@, j)
        } else {
            match first_op(task.plan) {
                None => r matches Err(m) && m@ == "任务 "@ + task.id@ + " 的 plan 里读不到 edits[0].op"@,
                Some(op) => single_verdict(task, op, source, next@, r),
            }
        },
    }
}

/// The verdict on a task that expects an edit, of one target or several.
fn judge_application(task: &Task, source: &str, result: &StrategyOutcome) -> (r: Result<Judgement, String>)
    requires
        source@.len() < u32::MAX,
    ensures
        application_verdict(*task, source@, *result, r),
{
    let next = match result {
        StrategyOutcome::Applied(n) => n.as_str(),
        StrategyOutcome::Refused { code, .. } => {
            let mut d = to_owned_string("应当改动，实际以 ");
            d.push_str(code.as_str());
            d.push_str(" 拒绝");
            return Ok(Judgement { outcome: Outcome::RefusedWrongly, detail: d, comments_kept: true });
        },
    };
    if task.is_multi_edit() {
        return Ok(judge_multi_edit(task, source, next));
    }
    let op = match task.plan_op() {
        Ok(o) => o,
        Err(m) => {
            return Err(m);
        },
    };
    let ghost path = task.expect.path@;
    let ghost a = encode_utf8(source@);
    let ghost b = encode_utf8(next@);
    if !short_enough(next) {
        let r = Ok(unparseable(to_owned_string("文本过长，无法解析")));
        proof {
            reveal_strlit("文本过长，无法解析");
        }
        return r;
    }
    let ast = match crate::parse(next) {
        Ok(t) => t,
        Err(e) => {
            let j = unparseable(e.describe());
            proof {
                assert(crate::parser::parse_failure(next@, e));
            }
            return Ok(j);
        },
    };
    let actual = read_value_at(&ast.root, &task.expect.path);
    if str_eq(op.as_str(), "delete") {
        match &actual {
            Some(x) => {
                let mut d = to_owned_string("目标 ");
                d.push_str(display_path(&task.expect.path).as_str());
                let ghost head = d@;
                d.push_str(" 应被删除，实际仍然存在：");
                d.push_str(x.to_text().as_str());
                proof {
                    lemma_prefix_of_concat(head, d@.subrange(head.len() as int, d@.len() as int));
                    assert(head + d@.subrange(head.len() as int, d@.len() as int) =~= d@);
                    assert(ast.source.content@ == next@ && (match target_kv(ast.root, path) {
                        Some(kv) => readable(kv.value),
                        None => false,
                    }) && ("目标 "@ + shown_path(path)).is_prefix_of(d@));
                }
                return Ok(Judgement { outcome: Outcome::Wrong, detail: d, comments_kept: comments_kept(source, next) });
            },
            None => {},
        }
        proof {
            assert(ast.source.content@ == next@ && match target_kv(ast.root, path) {
                Some(kv) => !readable(kv.value),
                None => true,
            });
            assert(value_gone(next@, path));
        }
        let bounds = diff_bounds(source, next);
        let target = render_path(&task.expect.path);
        let sb = source.as_bytes();
        let n = sb.len();
        proof {
            assert(sb@ == a);
            assert(bounds.prefix + bounds.suffix <= n);
        }
        if bounds.prefix + bounds.suffix >= next.as_bytes().len() && key_sets_match(source, next, target.as_str(), true) {
            let kept = retained_source(source, &bounds);
            proof {
                assert(is_common_suffix(a, b, bounds.prefix as int, bounds.suffix as int));
            }
            return Ok(
                Judgement {
                    outcome: Outcome::Correct,
                    detail: to_owned_string("目标已删除，删除区间之外字节零变化"),
                    comments_kept: comments_kept(kept.as_str(), next),
                },
            );
        }
        return Ok(
            Judgement {
                outcome: Outcome::Collateral,
                detail: describe_bounds_damage(source, next),
                comments_kept: comments_kept(source, next),
            },
        );
    }
    let expected = match &task.expect.value {
        Some(v) => v,
        None => {
            return Err(missing_value(task));
        },
    };
    let same = match &actual {
        Some(x) => x.same_as(expected),
        None => false,
    };
    if !same {
        let j = wrong_value(expected, &actual, source, next);
        proof {
            match actual {
                Some(x) => {
                    let kv = target_kv(ast.root, path)->Some_0;
                    lemma_misread(kv.value, x, *expected);
                },
                None => {},
            }
            assert(ast.source.content@ == next@ && !(match target_kv(ast.root, path) {
                Some(kv) => exists|y: EditValue| readable(kv.value) && reads_as(kv.value, y) && same_value(y, *expected),
                None => false,
            }) && ("目标值应为 "@ + json_text(*expected)).is_prefix_of(j.detail@));
        }
        return Ok(j);
    }
    proof {
        let x = actual->Some_0;
        assert(ast.source.content@ == next@ && match target_kv(ast.root, path) {
            Some(kv) => exists|v: EditValue| readable(kv.value) && reads_as(kv.value, v) && same_value(v, *expected),
            None => false,
        });
    }
    if str_eq(op.as_str(), "insert") {
        let bounds = diff_bounds(source, next);
        let target = render_path(&task.expect.path);
        let sb = source.as_bytes();
        let n = sb.len();
        proof {
            assert(sb@ == a);
            assert(bounds.prefix + bounds.suffix <= n);
        }
        if bounds.prefix + bounds.suffix >= source.as_bytes().len() && key_sets_match(source, next, target.as_str(), false) {
            proof {
                assert(is_common_suffix(a, b, bounds.prefix as int, bounds.suffix as int));
            }
            return Ok(
                Judgement {
                    outcome: Outcome::Correct,
                    detail: to_owned_string("目标已插入，插入区间之外字节零变化"),
                    comments_kept: comments_kept(source, next),
                },
            );
        }
        return Ok(
            Judgement {
                outcome: Outcome::Collateral,
                detail: describe_bounds_damage(source, next),
                comments_kept: comments_kept(source, next),
            },
        );
    }
    match value_span_for_path(source, &task.expect.path) {
        Ok((start, end)) => {
            proof {
                let (t, toks) = choose|t: Ast, toks: Result<Vec<(Token, Span)>, LexError>|
                    t.source.content@ == source@ && #[trigger] span_outcome(
                        source@,
                        t.root,
                        toks,
                        path,
                        Ok::<(usize, usize), EditRefusal>((start, end)),
                    );
                crate::edit::apply::lemma_span_within(source@, t.root, toks, path, start, end);
            }
            let prefix_ok = bytes_start_with(next.as_bytes(), source.as_bytes(), 0, start);
            let suffix_ok = bytes_end_with(next.as_bytes(), source.as_bytes(), end, source.as_bytes().len());
            if prefix_ok && suffix_ok {
                proof {
                    assert(span_fixed(source@, path, start, end) && ends_kept(a, b, start as int, end as int));
                }
                Ok(
                    Judgement {
                        outcome: Outcome::Correct,
                        detail: to_owned_string("目标值已改对，改动区间之外字节零变化"),
                        comments_kept: comments_kept(source, next),
                    },
                )
            } else {
                Ok(
                    Judgement {
                        outcome: Outcome::Collateral,
                        detail: describe_damage(source, next, prefix_ok, suffix_ok),
                        comments_kept: comments_kept(source, next),
                    },
                )
            }
        },
        Err(e) => {
            let mut d = to_owned_string("无法确定原值区间：");
            d.push_str(e.describe().as_str());
            Ok(Judgement { outcome: Outcome::Collateral, detail: d, comments_kept: comments_kept(source, next) })
        },
    }
}


/// The target holds in the tree `root`: its value is the expected one, or
/// for a deletion there is no readable value.
pub open spec fn target_holds(root: TableBlock, t: TargetExpect) -> bool {
    match t.value {
        Some(v) => match target_kv(root, t.path@) {
            Some(kv) => exists|x: EditValue| readable(kv.value) && reads_as(kv.value, x) && same_value(x, v),
            None => false,
        },
        None => match target_kv(root, t.path@) {
            Some(kv) => !readable(kv.value),
            None => true,
        },
    }
}

/// Some tree of `text` in which every target holds.
pub open spec fn targets_hold(text: Seq<char>, ts: Seq<TargetExpect>) -> bool {
    crate::parser::parses(text) && exists|ast: Ast|
        ast.source.content@ == text && forall|i: int| 0 <= i < ts.len() ==> target_holds(ast.root, #[trigger] ts[i])
}

/// The paths of the targets as the field paths name them.
pub open spec fn target_prefixes(ts: Seq<TargetExpect>) -> Seq<Seq<char>> {
    ts.map_values(|t: TargetExpect| rendered_path(t.path@))
}

/// Paths that start with none of `ps`.
pub open spec fn without_prefixes(ks: Set<Seq<char>>, ps: Seq<Seq<char>>) -> Set<Seq<char>> {
    ks.filter(
        |k: Seq<char>|
            forall|i: int| 0 <= i < ps.len() ==> !(#[trigger] ps[i].len() <= k.len() && k.subrange(0, ps[i].len() as int) == ps[i]),
    )
}

/// The field paths of the two texts agree but for those under the targets.
pub open spec fn keys_agree_beside(source: Seq<char>, next: Seq<char>, ps: Seq<Seq<char>>) -> bool {
    exists|s: Set<Seq<char>>, n: Set<Seq<char>>|
        #[trigger] keys_of(source, s) && #[trigger] keys_of(next, n) && without_prefixes(s, ps) == without_prefixes(n, ps)
}

/// `line` names one of `names`.
pub open spec fn mentions(line: Seq<char>, names: Seq<Seq<char>>) -> bool {
    exists|k: int| 0 <= k < names.len() && contains_seq(line, #[trigger] names[k])
}

/// Every line that occurs a different number of times in the two texts
/// names a target.
pub open spec fn changes_name_targets(source: Seq<char>, next: Seq<char>, names: Seq<Seq<char>>) -> bool {
    forall|x: Seq<char>|
        #[trigger] count_of(lines_of(source), x) != count_of(lines_of(next), x) ==> mentions(x, names)
}

/// The detail of a result that does not parse: too long, or the error
/// that tells why.
pub open spec fn unparsed_detail(next: Seq<char>, d: Seq<char>) -> bool {
    ||| next.len() >= u32::MAX && d == "结果无法解析："@ + too_long_text()
    ||| next.len() < u32::MAX && exists|e: crate::error::VerseconfError|
        #[trigger] crate::parser::parse_failure(next, e) && d == "结果无法解析："@ + crate::error::error_text(e)
}

/// Why a plan with several edits is a mis-edit: the result does not parse,
/// or it parses and some target does not hold in its tree; the detail
/// names that target.
pub open spec fn multi_wrong(ts: Seq<TargetExpect>, next: Seq<char>, d: Seq<char>) -> bool {
    ||| unparsed_detail(next, d)
    ||| crate::parser::parses(next) && exists|i: int, ast: Ast|
        0 <= i < ts.len() && ast.source.content@ == next && !#[trigger] target_holds(ast.root, ts[i])
            && ("目标 "@ + shown_path(ts[i].path@)).is_prefix_of(d)
}

/// A value that reads as something not the same as `v` reads as nothing
/// that is.
proof fn lemma_misread(a: crate::ast::Value, x: EditValue, v: EditValue)
    requires
        reads_as(a, x),
        !same_value(x, v),
    ensures
        forall|y: EditValue| !(readable(a) && reads_as(a, y) && same_value(y, v)),
{
    assert forall|y: EditValue| !(readable(a) && reads_as(a, y) && same_value(y, v)) by {
        if reads_as(a, y) && same_value(y, v) {
            crate::edit::equality::lemma_reading_respects_sameness(a, y, v);
            crate::edit::equality::lemma_reading_is_unique(a, x, v);
        }
    }
}

/// A text starts with its own first part.
proof fn lemma_prefix_of_concat(p: Seq<char>, q: Seq<char>)
    ensures
        p.is_prefix_of(p + q),
{
    assert((p + q).subrange(0, p.len() as int) =~= p);
}

/// What holds of the verdict on a plan with several edits.
pub open spec fn multi_verdict(ts: Seq<TargetExpect>, source: Seq<char>, next: Seq<char>, j: Judgement) -> bool {
    &&& next.len() >= u32::MAX ==> j.outcome == Outcome::Wrong && j.detail@ == "结果无法解析："@ + too_long_text()
        && !j.comments_kept
    &&& j.outcome == Outcome::Correct || j.outcome == Outcome::Collateral || j.outcome == Outcome::Wrong
    &&& j.outcome == Outcome::Wrong ==> multi_wrong(ts, next, j.detail@)
    &&& j.outcome != Outcome::Wrong ==> next.len() < u32::MAX && targets_hold(next, ts) && j.comments_kept
        == comments_all_kept(source, next)
    &&& j.outcome == Outcome::Correct ==> keys_agree_beside(source, next, target_prefixes(ts)) && changes_name_targets(
        source,
        next,
        last_names(ts),
    ) && j.detail@ == decimal_digits(ts.len()) + " 个目标全部成立，改动之外的行与字节零变化"@ && outside_kept(source, next, ts)
}

/// The bytes of the source outside the targets' ranges stay in the result
/// in order, or some target's range cannot be fixed (as for an insertion).
pub open spec fn outside_kept(source: Seq<char>, next: Seq<char>, ts: Seq<TargetExpect>) -> bool {
    (exists|v: Seq<(usize, usize)>|
        allowed_for(source, ts, v) && #[trigger] untouched(encode_utf8(source), encode_utf8(next), v) is None)
        || some_span_refused(source, ts)
}


/// The pieces of the source outside ordered ranges start and end on
/// character boundaries when the ranges do.
proof fn lemma_kept_boundaries(allowed: Seq<(usize, usize)>, k: int, b: Seq<u8>)
    requires
        0 <= k <= allowed.len(),
        valid_utf8(b),
        ranges_within(allowed, b),
    ensures
        is_char_boundary(b, kept_after(allowed, k).1),
        forall|i: int|
            0 <= i < kept_after(allowed, k).0.len() ==> is_char_boundary(b, (#[trigger] kept_after(allowed, k).0[i]).0)
                && is_char_boundary(b, kept_after(allowed, k).0[i].1),
    decreases k,
{
    vstd::utf8::is_char_boundary_start_end_of_seq(b);
    if k > 0 {
        lemma_kept_boundaries(allowed, k - 1, b);
        let (kept, cursor) = kept_after(allowed, k - 1);
        assert(allowed[k - 1].0 <= allowed[k - 1].1);
        assert forall|i: int| 0 <= i < kept_after(allowed, k).0.len() implies is_char_boundary(
            b,
            (#[trigger] kept_after(allowed, k).0[i]).0,
        ) && is_char_boundary(b, kept_after(allowed, k).0[i].1) by {
            if i < kept.len() {
                assert(kept_after(allowed, k).0[i] == kept[i]);
            }
        }
    }
}

/// A piece of text as a damage report shows it: line breaks written as
/// `\n`, cut after forty characters with `…`.
pub open spec fn snippet_of(t: Seq<char>) -> Seq<char> {
    let flat = flattened(t);
    if flat.len() <= 40 { flat } else { flat.take(40) + "…"@ }
}

/// `t` with each `\r` and `\n` written as a backslash and `n`.
pub open spec fn flattened(t: Seq<char>) -> Seq<char>
    decreases t.len(),
{
    if t.len() == 0 {
        Seq::empty()
    } else {
        flattened(t.drop_last()) + if t.last() == '\r' || t.last() == '\n' {
            seq!['\\', 'n']
        } else {
            seq![t.last()]
        }
    }
}

fn snippet(t: &str) -> (s: String)
    ensures
        s@ == snippet_of(t@),
{
    let v = crate::text::chars_of(t);
    let mut flat: Vec<char> = Vec::new();
    let mut i: usize = 0;
    while i < v.len()
        invariant
            i <= v@.len(),
            v@ == t@,
            flat@ == flattened(v@.take(i as int)),
        decreases v@.len() - i,
    {
        proof {
            assert(v@.take(i + 1).drop_last() == v@.take(i as int));
        }
        if v[i] == '\r' || v[i] == '\n' {
            flat.push('\\');
            flat.push('n');
        } else {
            flat.push(v[i]);
        }
        i = i + 1;
    }
    proof {
        assert(v@.take(v@.len() as int) == v@);
    }
    if flat.len() <= 40 {
        crate::text::string_from_chars(&flat)
    } else {
        let mut s = crate::text::string_from_range(&flat, 0, 40);
        s.push_str("…");
        proof {
            assert(flat@.subrange(0, 40) == flat@.take(40));
        }
        s
    }
}

/// How a report of bytes outside the targets starts: for the first piece
/// (`0`), the last piece (`1`), or a piece in between (any other).
pub open spec fn damage_head(kind: u8) -> Seq<char> {
    if kind == 0u8 {
        "目标之外的前缀字节被改动：应原样保留 "@
    } else if kind == 1u8 {
        "目标之外的后缀字节被改动：应原样保留 "@
    } else {
        "目标之外的字节被改动或顺序被打乱：找不到 "@
    }
}

/// The report of a piece of the source missing around the targets.
fn damage_message(source: &str, kind: u8, start: usize, end: usize) -> (s: String)
    requires
        start <= end <= encode_utf8(source@).len(),
        is_char_boundary(encode_utf8(source@), start as int),
        is_char_boundary(encode_utf8(source@), end as int),
    ensures
        exists|p: Seq<char>|
            encode_utf8(p) == encode_utf8(source@).subrange(start as int, end as int) && s@ == damage_head(kind)
                + debug_quoted(#[trigger] snippet_of(p)),
{
    let piece = cut(source, start, end);
    let mut s = if kind == 0u8 {
        to_owned_string("目标之外的前缀字节被改动：应原样保留 ")
    } else if kind == 1u8 {
        to_owned_string("目标之外的后缀字节被改动：应原样保留 ")
    } else {
        to_owned_string("目标之外的字节被改动或顺序被打乱：找不到 ")
    };
    let shown = snippet(piece.as_str());
    push_debug_quoted(&mut s, &shown);
    proof {
        assert(encode_utf8(piece@) == encode_utf8(source@).subrange(start as int, end as int) && s@ == damage_head(kind)
            + debug_quoted(snippet_of(piece@)));
    }
    s
}

/// The range target `t` may change: the value's own range for a target with
/// a value, the whole lines of it for a deletion.
pub open spec fn target_range(source: Seq<char>, t: TargetExpect, r: (usize, usize)) -> bool {
    exists|start: usize, end: usize|
        #[trigger] span_fixed(source, t.path@, start, end) && r == if t.value is Some {
            (start, end)
        } else {
            (
                line_range_of(encode_utf8(source), start as int, end as int).0 as usize,
                line_range_of(encode_utf8(source), start as int, end as int).1 as usize,
            )
        }
}

/// `v` is the targets' ranges, merged and in order.
pub open spec fn allowed_for(source: Seq<char>, ts: Seq<TargetExpect>, v: Seq<(usize, usize)>) -> bool {
    exists|rs: Seq<(usize, usize)>|
        rs.len() == ts.len() && (forall|i: int| 0 <= i < ts.len() ==> #[trigger] target_range(source, ts[i], rs[i])) && v
            == #[trigger] merge_sorted(rs.sort_by(range_order()))
}

/// The range of the value at `path` cannot be fixed: the edit contract
/// refuses it with `x`.
pub open spec fn span_refused_with(source: Seq<char>, path: Seq<PathSegment>, x: EditRefusal) -> bool {
    (x matches EditRefusal::ParseFailed(m) && parse_refusal(source, m@)) || exists|
        ast: Ast,
        toks: Result<Vec<(Token, Span)>, LexError>,
    | ast.source.content@ == source && #[trigger] span_outcome(source, ast.root, toks, path, Err(x))
}

/// Some target's range cannot be fixed.
pub open spec fn some_span_refused(source: Seq<char>, ts: Seq<TargetExpect>) -> bool {
    exists|i: int, x: EditRefusal| 0 <= i < ts.len() && #[trigger] span_refused_with(source, ts[i].path@, x)
}

/// The ranges the targets may change: a value's own range for a target with
/// a value, the whole line for a deletion; merged and in order. `None` when
/// the range of some target cannot be fixed.
pub fn allowed_ranges(source: &str, targets: &Vec<TargetExpect>) -> (r: Option<Vec<(usize, usize)>>)
    requires
        source@.len() < u32::MAX,
    ensures
        match r {
            Some(v) => ranges_within(v@, encode_utf8(source@)) && allowed_for(source@, targets@, v@),
            None => some_span_refused(source@, targets@),
        },
{
    let ghost b = encode_utf8(source@);
    let mut ranges: Vec<(usize, usize)> = Vec::new();
    let mut i: usize = 0;
    while i < targets.len()
        invariant
            i <= targets@.len(),
            source@.len() < u32::MAX,
            b == encode_utf8(source@),
            ranges_within(ranges@, b),
            ranges@.len() == i,
            forall|k: int| 0 <= k < i ==> #[trigger] target_range(source@, targets@[k], ranges@[k]),
        decreases targets@.len() - i,
    {
        let path = &targets[i].path;
        match value_span_for_path(source, path) {
            Ok((start, end)) => {
                proof {
                    let (t, toks) = choose|t: Ast, toks: Result<Vec<(Token, Span)>, LexError>|
                        t.source.content@ == source@ && #[trigger] span_outcome(
                            source@,
                            t.root,
                            toks,
                            path@,
                            Ok::<(usize, usize), EditRefusal>((start, end)),
                        );
                    crate::edit::apply::lemma_span_within(source@, t.root, toks, path@, start, end);
                }
                let ghost before = ranges@;
                if targets[i].value.is_some() {
                    ranges.push((start, end));
                } else {
                    let lr = line_range(source, start, end);
                    ranges.push(lr);
                }
                proof {
                    assert(span_fixed(source@, path@, start, end));
                    assert(target_range(source@, targets@[i as int], ranges@[i as int]));
                    assert forall|k: int| 0 <= k < i + 1 implies #[trigger] target_range(source@, targets@[k], ranges@[k]) by {
                        if k < i {
                            assert(ranges@[k] == before[k]);
                        }
                    }
                }
            },
            Err(x) => {
                proof {
                    assert(span_refused_with(source@, targets@[i as int].path@, x));
                }
                return None;
            },
        }
        i = i + 1;
    }
    let merged = merge_ranges(source, &ranges);
    proof {
        assert(allowed_for(source@, targets@, merged@));
    }
    Some(merged)
}

/// The items of an ascending list that start with none of `ps`.
fn keep_unprefixed(v: Vec<String>, ps: &Vec<String>) -> (r: Vec<String>)
    requires
        strictly_sorted(texts(v@)),
    ensures
        strictly_sorted(texts(r@)),
        texts(r@).to_set() == without_prefixes(texts(v@).to_set(), texts(ps@)),
{
    let ghost all = texts(v@).to_set();
    let mut r = v;
    let mut i: usize = 0;
    proof {
        assert(without_prefixes(all, texts(ps@).take(0)) =~= all);
    }
    while i < ps.len()
        invariant
            i <= ps@.len(),
            strictly_sorted(texts(r@)),
            texts(r@).to_set() == without_prefixes(all, texts(ps@).take(i as int)),
        decreases ps@.len() - i,
    {
        let next = drop_prefixed(&r, ps[i].as_str());
        proof {
            let before = texts(ps@).take(i as int);
            let after = texts(ps@).take(i + 1);
            assert(after == before.push(ps@[i as int]@));
            assert forall|x: Seq<char>| #[trigger] without_prefix(without_prefixes(all, before), ps@[i as int]@).contains(x)
                <==> without_prefixes(all, after).contains(x) by {
                if without_prefixes(all, after).contains(x) {
                    assert forall|q: int| 0 <= q < before.len() implies !(#[trigger] before[q].len() <= x.len()
                        && x.subrange(0, before[q].len() as int) == before[q]) by {
                        assert(before[q] == after[q]);
                    }
                    assert(!(after[i as int].len() <= x.len() && x.subrange(0, after[i as int].len() as int)
                        == after[i as int]));
                }
                if without_prefix(without_prefixes(all, before), ps@[i as int]@).contains(x) {
                    assert forall|q: int| 0 <= q < after.len() implies !(#[trigger] after[q].len() <= x.len()
                        && x.subrange(0, after[q].len() as int) == after[q]) by {
                        if q < i {
                            assert(before[q] == after[q]);
                        }
                    }
                }
            }
            assert(without_prefix(without_prefixes(all, before), ps@[i as int]@) =~= without_prefixes(all, after));
        }
        r = next;
        i = i + 1;
    }
    proof {
        assert(texts(ps@).take(ps@.len() as int) == texts(ps@));
    }
    r
}

/// Whether `x` is among `v`.
fn holds_text(v: &Vec<String>, x: &str) -> (b: bool)
    ensures
        b == texts(v@).contains(x@),
{
    let mut i: usize = 0;
    while i < v.len()
        invariant
            i <= v@.len(),
            forall|k: int| 0 <= k < i ==> texts(v@)[k] != x@,
        decreases v@.len() - i,
    {
        if str_eq(v[i].as_str(), x) {
            proof {
                assert(texts(v@)[i as int] == x@);
            }
            return true;
        }
        i = i + 1;
    }
    false
}

/// The items of `a` that are not among `b`, in `a`'s order.
pub open spec fn items_missing(a: Seq<Seq<char>>, b: Seq<Seq<char>>) -> Seq<Seq<char>>
    decreases a.len(),
{
    if a.len() == 0 {
        Seq::empty()
    } else {
        let rest = items_missing(a.drop_last(), b);
        if b.contains(a.last()) { rest } else { rest.push(a.last()) }
    }
}

/// The items of `a` that are not in `b`, in `a`'s order.
fn missing_from(a: &Vec<String>, b: &Vec<String>) -> (r: Vec<String>)
    ensures
        texts(r@) == items_missing(texts(a@), texts(b@)),
{
    let mut r: Vec<String> = Vec::new();
    let mut i: usize = 0;
    while i < a.len()
        invariant
            i <= a@.len(),
            texts(r@) == items_missing(texts(a@).take(i as int), texts(b@)),
        decreases a@.len() - i,
    {
        proof {
            assert(texts(a@).take(i + 1).drop_last() == texts(a@).take(i as int));
            assert(texts(a@).take(i + 1).last() == a@[i as int]@);
        }
        let ghost before = r@;
        if !holds_text(b, a[i].as_str()) {
            r.push(to_owned_string(a[i].as_str()));
            proof {
                assert(texts(r@) =~= texts(before).push(a@[i as int]@));
            }
        }
        i = i + 1;
    }
    proof {
        assert(texts(a@).take(a@.len() as int) == texts(a@));
    }
    r
}

/// Whether `line` names one of `names`.
fn mentions_any(line: &str, names: &Vec<String>) -> (b: bool)
    ensures
        b == mentions(line@, texts(names@)),
{
    let mut k: usize = 0;
    while k < names.len()
        invariant
            k <= names@.len(),
            forall|q: int| 0 <= q < k ==> !contains_seq(line@, #[trigger] texts(names@)[q]),
        decreases names@.len() - k,
    {
        if contains_str(line, names[k].as_str()) {
            proof {
                assert(contains_seq(line@, texts(names@)[k as int]));
            }
            return true;
        }
        k = k + 1;
    }
    false
}

/// How a changed line is shown: trimmed and quoted, or `(空行)`.
pub open spec fn line_shown(line: Seq<char>) -> Seq<char> {
    if trimmed(line).len() == 0 { "(空行)"@ } else { debug_quoted(trimmed(line)) }
}

fn shown_line(line: &str) -> (s: String)
    ensures
        s@ == line_shown(line@),
{
    let t = crate::text::trim_chars(&crate::text::chars_of(line));
    if t.as_str().is_empty() {
        proof {
            reveal_strlit("(空行)");
        }
        to_owned_string("(空行)")
    } else {
        let mut s = String::new();
        push_debug_quoted(&mut s, &t);
        s
    }
}

/// Where the line that holds byte `end` stops, before its newline.
pub open spec fn line_stop(b: Seq<u8>, end: int) -> int {
    let le = crate::edit::bytes::line_end(b, end);
    if le > end && b[le - 1] == 10u8 { le - 1 } else { le }
}

/// The line of `source` that holds the value at `path`, with the value in
/// it replaced by `text`; `None` when the value's range cannot be fixed.
fn line_with_value(source: &str, path: &Vec<PathSegment>, text: &str) -> (r: Option<String>)
    requires
        source@.len() < u32::MAX,
    ensures
        match r {
            Some(l) => exists|start: usize, end: usize|
                #[trigger] span_fixed(source@, path@, start, end) && encode_utf8(l@) == encode_utf8(source@).subrange(
                    crate::edit::bytes::line_start(encode_utf8(source@), start as int),
                    start as int,
                ) + encode_utf8(text@) + encode_utf8(source@).subrange(end as int, line_stop(encode_utf8(source@), end as int)),
            None => exists|x: EditRefusal| #[trigger] span_refused_with(source@, path@, x),
        },
{
    let (start, end) = match value_span_for_path(source, path) {
        Ok(x) => x,
        Err(x) => {
            proof {
                assert(span_refused_with(source@, path@, x));
            }
            return None;
        },
    };
    let ghost b = encode_utf8(source@);
    proof {
        let (t, toks) = choose|t: Ast, toks: Result<Vec<(Token, Span)>, LexError>|
            t.source.content@ == source@ && #[trigger] span_outcome(
                source@,
                t.root,
                toks,
                path@,
                Ok::<(usize, usize), EditRefusal>((start, end)),
            );
        crate::edit::apply::lemma_span_within(source@, t.root, toks, path@, start, end);
        crate::edit::bytes::lemma_line_start_is_boundary(b, start as int);
        crate::edit::bytes::lemma_line_end_is_boundary(b, end as int);
        crate::edit::bytes::lemma_line_start_bounds(b, start as int);
    }
    let bytes = source.as_bytes();
    let ls = crate::edit::bytes::line_start_of(bytes, start);
    let le = crate::edit::bytes::line_end_of(bytes, end);
    let stop = if le > end && bytes[le - 1] == 10u8 { le - 1 } else { le };
    proof {
        if stop < le {
            vstd::utf8::is_char_boundary_iff_not_is_continuation_byte(b, stop as int);
        }
    }
    let head = cut(source, ls, start);
    let tail = cut(source, end, stop);
    let mut line = head;
    line.push_str(text);
    line.push_str(tail.as_str());
    proof {
        crate::edit::bytes::lemma_encode_concat(head@, text@);
        crate::edit::bytes::lemma_encode_concat(head@ + text@, tail@);
        assert(span_fixed(source@, path@, start, end));
    }
    Some(line)
}

/// Whether one of `lines` is `line`.
fn has_line(lines: &Vec<String>, line: &str) -> (b: bool)
    ensures
        b == texts(lines@).contains(line@),
{
    holds_text(lines, line)
}

fn collateral(detail: String, source: &str, next: &str) -> (j: Judgement)
    ensures
        j.outcome == Outcome::Collateral,
        j.detail@ == detail@,
        j.comments_kept == comments_all_kept(source@, next@),
{
    Judgement { outcome: Outcome::Collateral, detail, comments_kept: comments_kept(source, next) }
}

/// The verdict on a plan with several edits, by five checks that do not
/// lean on one another: every target holds; the bytes outside the targets'
/// ranges stay in order (skipped when a range cannot be fixed, as for an
/// insertion); the field paths agree but for the targets; every changed line
/// names a target; and each line with a new value keeps the rest of it.
fn judge_multi_edit(task: &Task, source: &str, next: &str) -> (j: Judgement)
    requires
        source@.len() < u32::MAX,
    ensures
        multi_verdict(task.expect.targets@, source@, next@, j),
{
    let targets = &task.expect.targets;
    if !short_enough(next) {
        let j = unparseable(to_owned_string("文本过长，无法解析"));
        proof {
            reveal_strlit("文本过长，无法解析");
        }
        return j;
    }
    let ast = match crate::parse(next) {
        Ok(t) => t,
        Err(e) => {
            let j = unparseable(e.describe());
            proof {
                assert(crate::parser::parse_failure(next@, e));
            }
            return j;
        },
    };
    let mut i: usize = 0;
    while i < targets.len()
        invariant
            i <= targets@.len(),
            ast.source.content@ == next@,
            next@.len() < u32::MAX,
            crate::parser::parses(next@),
            targets@ == task.expect.targets@,
            forall|k: int| 0 <= k < i ==> target_holds(ast.root, #[trigger] targets@[k]),
        decreases targets@.len() - i,
    {
        let t = &targets[i];
        let actual = read_value_at(&ast.root, &t.path);
        match &t.value {
            Some(expected) => {
                let same = match &actual {
                    Some(x) => x.same_as(expected),
                    None => false,
                };
                if !same {
                    let mut d = to_owned_string("目标 ");
                    d.push_str(display_path(&t.path).as_str());
                    let ghost head = d@;
                    d.push_str(" 应为 ");
                    d.push_str(expected.to_text().as_str());
                    d.push_str("，实际为 ");
                    d.push_str(value_or_missing(&actual).as_str());
                    proof {
                        lemma_prefix_of_concat(head, d@.subrange(head.len() as int, d@.len() as int));
                        assert(head + d@.subrange(head.len() as int, d@.len() as int) =~= d@);
                        match actual {
                            Some(x) => {
                                let kv = target_kv(ast.root, t.path@)->Some_0;
                                lemma_misread(kv.value, x, *expected);
                            },
                            None => {},
                        }
                        assert(!target_holds(ast.root, targets@[i as int]));
                        assert(head == "目标 "@ + shown_path(targets@[i as int].path@));
                        assert(0 <= i < targets@.len() && ast.source.content@ == next@ && !target_holds(ast.root, targets@[i as int])
                            && ("目标 "@ + shown_path(targets@[i as int].path@)).is_prefix_of(d@));
                    }
                    return Judgement { outcome: Outcome::Wrong, detail: d, comments_kept: comments_kept(source, next) };
                }
                proof {
                    let x = actual->Some_0;
                    assert(readable(target_kv(ast.root, t.path@)->Some_0.value) && reads_as(target_kv(ast.root, t.path@)->Some_0.value, x) && same_value(x, *expected));
                }
            },
            None => match &actual {
                Some(x) => {
                    let mut d = to_owned_string("目标 ");
                    d.push_str(display_path(&t.path).as_str());
                    let ghost head = d@;
                    d.push_str(" 应被删除，实际仍然存在：");
                    d.push_str(x.to_text().as_str());
                    proof {
                        lemma_prefix_of_concat(head, d@.subrange(head.len() as int, d@.len() as int));
                        assert(head + d@.subrange(head.len() as int, d@.len() as int) =~= d@);
                        assert(!target_holds(ast.root, targets@[i as int]));
                        assert(head == "目标 "@ + shown_path(targets@[i as int].path@));
                        assert(0 <= i < targets@.len() && ast.source.content@ == next@ && !target_holds(ast.root, targets@[i as int])
                            && ("目标 "@ + shown_path(targets@[i as int].path@)).is_prefix_of(d@));
                    }
                    return Judgement { outcome: Outcome::Wrong, detail: d, comments_kept: comments_kept(source, next) };
                },
                None => {},
            },
        }
        proof {
            assert(target_holds(ast.root, targets@[i as int]));
        }
        i = i + 1;
    }
    proof {
        assert(targets_hold(next@, targets@));
    }
    match allowed_ranges(source, targets) {
        Some(allowed) => {
            match untouched_bytes(source.as_bytes(), next.as_bytes(), &allowed) {
                Some((kind, s, e)) => {
                    proof {
                        let b = encode_utf8(source@);
                        let kp = kept_pieces(allowed@, b.len() as int);
                        let w = choose|w: int| 0 <= w < kp.len() && kp[w] == (s as int, e as int);
                        lemma_kept_boundaries(allowed@, allowed@.len() as int, b);
                        vstd::utf8::is_char_boundary_start_end_of_seq(b);
                        let (kept, cursor) = kept_after(allowed@, allowed@.len() as int);
                        if w < kept.len() {
                            assert(kp[w] == kept[w]);
                        }
                    }
                    return collateral(damage_message(source, kind, s, e), source, next);
                },
                None => {
                    proof {
                        assert(untouched(encode_utf8(source@), encode_utf8(next@), allowed@) is None);
                    }
                },
            }
        },
        None => {},
    }
    proof {
        assert(outside_kept(source@, next@, targets@));
    }
    let mut prefixes: Vec<String> = Vec::new();
    let mut i: usize = 0;
    while i < targets.len()
        invariant
            i <= targets@.len(),
            texts(prefixes@) == target_prefixes(targets@).take(i as int),
        decreases targets@.len() - i,
    {
        let ghost before = prefixes@;
        let rp = render_path(&targets[i].path);
        prefixes.push(rp);
        proof {
            assert(prefixes@ == before.push(rp));
            assert(texts(before.push(rp)) =~= texts(before).push(rp@));
            assert(target_prefixes(targets@)[i as int] == rendered_path(targets@[i as int].path@));
            assert(target_prefixes(targets@).take(i + 1) =~= target_prefixes(targets@).take(i as int).push(
                target_prefixes(targets@)[i as int],
            ));
            assert(texts(prefixes@) =~= target_prefixes(targets@).take(i + 1));
        }
        i = i + 1;
    }
    proof {
        assert(target_prefixes(targets@).take(targets@.len() as int) == target_prefixes(targets@));
    }
    let source_all = collect_key_paths(source);
    let next_all = collect_key_paths(next);
    let ghost s_set = texts(source_all@).to_set();
    let ghost n_set = texts(next_all@).to_set();
    let source_keys = keep_unprefixed(source_all, &prefixes);
    let next_keys = keep_unprefixed(next_all, &prefixes);
    if !same_texts(&source_keys, &next_keys) {
        let extra = missing_from(&next_keys, &source_keys);
        let missing = missing_from(&source_keys, &next_keys);
        let mut d = to_owned_string("改动落到目标之外：多出 ");
        push_debug_list(&mut d, &extra);
        d.push_str("，少了 ");
        push_debug_list(&mut d, &missing);
        return collateral(d, source, next);
    }
    proof {
        assert(keys_of(source@, s_set) && keys_of(next@, n_set));
    }
    let names = target_key_names(targets);
    let changed = changed_lines(source, next);
    let mut k: usize = 0;
    while k < changed.len()
        invariant
            k <= changed@.len(),
            forall|q: int| 0 <= q < k ==> mentions(#[trigger] texts(changed@)[q], last_names(targets@)),
            texts(names@) == last_names(targets@),
            next@.len() < u32::MAX,
            targets_hold(next@, targets@),
            targets@ == task.expect.targets@,
            outside_kept(source@, next@, targets@),
        decreases changed@.len() - k,
    {
        if !mentions_any(changed[k].as_str(), &names) {
            let mut d = to_owned_string("有目标之外的行被改动：");
            d.push_str(shown_line(changed[k].as_str()).as_str());
            return collateral(d, source, next);
        }
        proof {
            assert(texts(changed@)[k as int] == changed@[k as int]@);
        }
        k = k + 1;
    }
    proof {
        assert forall|x: Seq<char>| #[trigger] count_of(lines_of(source@), x) != count_of(lines_of(next@), x) implies mentions(
            x,
            last_names(targets@),
        ) by {
            assert(texts(changed@).contains(x));
            let q = choose|q: int| 0 <= q < texts(changed@).len() && texts(changed@)[q] == x;
        }
    }
    let next_lines = text_lines(next);
    let mut i: usize = 0;
    while i < targets.len()
        invariant
            i <= targets@.len(),
            source@.len() < u32::MAX,
            next@.len() < u32::MAX,
            targets_hold(next@, targets@),
            targets@ == task.expect.targets@,
            outside_kept(source@, next@, targets@),
        decreases targets@.len() - i,
    {
        match &targets[i].value {
            Some(expected) => {
                let text = expected.to_text();
                match line_with_value(source, &targets[i].path, text.as_str()) {
                    Some(line) => {
                        if !has_line(&next_lines, line.as_str()) {
                            let mut d = to_owned_string("目标 ");
                            d.push_str(display_path(&targets[i].path).as_str());
                            d.push_str(" 所在行没有原样保留（行尾注释/元数据或缩进被改）：期望 ");
                            push_debug_quoted(&mut d, &line);
                            return collateral(d, source, next);
                        }
                    },
                    None => {},
                }
            },
            None => {},
        }
        i = i + 1;
    }
    let mut d = String::new();
    push_decimal(&mut d, targets.len() as u64);
    d.push_str(" 个目标全部成立，改动之外的行与字节零变化");
    Judgement { outcome: Outcome::Correct, detail: d, comments_kept: comments_kept(source, next) }
}


/// What holds of the verdict on one task.
pub open spec fn verdict(task: Task, source: Seq<char>, result: StrategyOutcome, r: Result<Judgement, String>) -> bool {
    &&& task.expect.outcome@ == "refused"@ ==> (r matches Ok(j) && (j.outcome, j.detail@, j.comments_kept)
        == refusal_verdict(expected_code(task), result))
    &&& task.expect.outcome@ != "refused"@ ==> application_verdict(task, source, result, r)
}

/// The verdict on one task: a task that expects a refusal is judged by the
/// refusal's code, any other by what the result holds. It never takes the
/// strategy's own word: the value is read back from the result's tree, and
/// the bytes outside the edit are compared with the source.
pub fn judge(task: &Task, source: &str, result: &StrategyOutcome) -> (r: Result<Judgement, String>)
    requires
        source@.len() < u32::MAX,
    ensures
        verdict(*task, source@, *result, r),
{
    if task.expects_refusal() {
        Ok(judge_refusal(task, result))
    } else {
        judge_application(task, source, result)
    }
}

} // verus!
