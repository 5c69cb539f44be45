//! Byte ranges of a text: cutting and splicing at character boundaries, and
//! the lines and indentation around an offset.

use vstd::prelude::*;
use vstd::utf8::{encode_utf8, decode_utf8, is_char_boundary, valid_utf8, is_continuation_byte, length_of_first_scalar, pop_first_scalar};

verus! {

broadcast use vstd::string::group_string_axioms, vstd::utf8::group_utf8_lib;

/// The encoding of two texts one after the other is the two encodings one
/// after the other.
pub proof fn lemma_encode_concat(a: Seq<char>, b: Seq<char>)
    ensures
        encode_utf8(a + b) == encode_utf8(a) + encode_utf8(b),
    decreases a.len(),
{
    if a.len() == 0 {
        assert(a + b =~= b);
        assert(encode_utf8(a) =~= Seq::<u8>::empty());
        assert(encode_utf8(a) + encode_utf8(b) =~= encode_utf8(b));
    } else {
        lemma_encode_concat(a.drop_first(), b);
        assert((a + b).drop_first() =~= a.drop_first() + b);
        assert((a + b)[0] == a[0]);
        assert(encode_utf8(a + b) =~= encode_utf8(a) + encode_utf8(b));
    }
}

/// A boundary lies within the text.
pub proof fn lemma_boundary_in_range(b: Seq<u8>, i: int)
    requires
        valid_utf8(b),
        is_char_boundary(b, i),
    ensures
        0 <= i <= b.len(),
{
}

/// A boundary of a text is a boundary of what follows any earlier boundary.
proof fn lemma_boundary_in_rest(b: Seq<u8>, start: int, end: int)
    requires
        valid_utf8(b),
        0 <= start <= end <= b.len(),
        is_char_boundary(b, start),
        is_char_boundary(b, end),
    ensures
        valid_utf8(b.subrange(start, b.len() as int)),
        is_char_boundary(b.subrange(start, b.len() as int), end - start),
{
    let rest = b.subrange(start, b.len() as int);
    assert(valid_utf8(rest));
    if end == b.len() {
        assert(rest.len() == end - start);
    } else {
        assert(rest[end - start] == b[end]);
        assert(!is_continuation_byte(b[end]));
        assert(is_char_boundary(rest, end - start) <==> !is_continuation_byte(rest[end - start]));
    }
}

/// The text between two boundaries, as a new string.
pub fn cut(source: &str, start: usize, end: usize) -> (r: String)
    requires
        start <= end <= encode_utf8(source@).len(),
        is_char_boundary(encode_utf8(source@), start as int),
        is_char_boundary(encode_utf8(source@), end as int),
    ensures
        encode_utf8(r@) == encode_utf8(source@).subrange(start as int, end as int),
{
    let ghost b = encode_utf8(source@);
    proof {
        lemma_boundary_in_rest(b, start as int, end as int);
    }
    let (_, rest) = source.split_at(start);
    let (middle, _) = rest.split_at(end - start);
    proof {
        assert(encode_utf8(middle@) =~= b.subrange(start as int, end as int));
    }
    crate::text::to_owned_string(middle)
}

/// `source` with the range `[start, end)` replaced by `middle`.
pub fn splice(source: &str, start: usize, end: usize, middle: &str) -> (r: String)
    requires
        start <= end <= encode_utf8(source@).len(),
        is_char_boundary(encode_utf8(source@), start as int),
        is_char_boundary(encode_utf8(source@), end as int),
    ensures
        encode_utf8(r@) == encode_utf8(source@).subrange(0, start as int) + encode_utf8(middle@)
            + encode_utf8(source@).subrange(end as int, encode_utf8(source@).len() as int),
{
    let ghost b = encode_utf8(source@);
    proof {
        lemma_boundary_in_rest(b, start as int, end as int);
    }
    let (head, rest) = source.split_at(start);
    let (_, tail) = rest.split_at(end - start);
    proof {
        assert(encode_utf8(tail@) =~= b.subrange(end as int, b.len() as int));
    }
    let mut r = String::new();
    r.push_str(head);
    r.push_str(middle);
    r.push_str(tail);
    proof {
        lemma_encode_concat(head@, middle@);
        lemma_encode_concat(head@ + middle@, tail@);
        assert(r@ == head@ + middle@ + tail@);
    }
    r
}

/// `source` with `middle` put in at `at`.
pub fn insert_at(source: &str, at: usize, middle: &str) -> (r: String)
    requires
        at <= encode_utf8(source@).len(),
        is_char_boundary(encode_utf8(source@), at as int),
    ensures
        encode_utf8(r@) == encode_utf8(source@).subrange(0, at as int) + encode_utf8(middle@)
            + encode_utf8(source@).subrange(at as int, encode_utf8(source@).len() as int),
{
    splice(source, at, at, middle)
}

/// The start of the line that holds byte `i`: just past the last newline
/// before it.
pub open spec fn line_start(b: Seq<u8>, i: int) -> int
    decreases i,
{
    if i <= 0 {
        0
    } else if b[i - 1] == 10u8 {
        i
    } else {
        line_start(b, i - 1)
    }
}

/// The end of the line that holds byte `i`, past its newline if it has one.
pub open spec fn line_end(b: Seq<u8>, i: int) -> int
    decreases b.len() - i,
{
    if i >= b.len() {
        b.len() as int
    } else if b[i] == 10u8 {
        i + 1
    } else {
        line_end(b, i + 1)
    }
}

/// `i`, but no further than the end of `b`.
pub open spec fn clamp(b: Seq<u8>, i: int) -> int {
    if i < b.len() { i } else { b.len() as int }
}

pub proof fn lemma_line_start_bounds(b: Seq<u8>, i: int)
    requires
        0 <= i <= b.len(),
    ensures
        0 <= line_start(b, i) <= i,
        line_start(b, i) > 0 ==> b[line_start(b, i) - 1] == 10u8,
        forall|k: int| line_start(b, i) <= k < i ==> b[k] != 10u8,
    decreases i,
{
    if i > 0 && b[i - 1] != 10u8 {
        lemma_line_start_bounds(b, i - 1);
    }
}

pub proof fn lemma_line_end_bounds(b: Seq<u8>, i: int)
    requires
        0 <= i <= b.len(),
    ensures
        i <= line_end(b, i) <= b.len(),
    decreases b.len() - i,
{
    if i < b.len() && b[i] != 10u8 {
        lemma_line_end_bounds(b, i + 1);
    }
}

/// The start of the line that holds `offset`.
pub fn line_start_of(bytes: &[u8], offset: usize) -> (r: usize)
    ensures
        r == line_start(bytes@, clamp(bytes@, offset as int)),
        r <= bytes@.len(),
        r == 0 || bytes@[r - 1] == 10u8,
{
    let mut index = if offset < bytes.len() { offset } else { bytes.len() };
    let ghost target = line_start(bytes@, index as int);
    proof {
        lemma_line_start_bounds(bytes@, index as int);
    }
    while index > 0 && bytes[index - 1] != 10u8
        invariant
            index <= bytes@.len(),
            line_start(bytes@, index as int) == target,
        decreases index,
    {
        index = index - 1;
    }
    index
}

/// The end of the line that holds `offset`, past its newline if it has one.
pub fn line_end_of(bytes: &[u8], offset: usize) -> (r: usize)
    ensures
        r == line_end(bytes@, clamp(bytes@, offset as int)),
        r <= bytes@.len(),
{
    let mut index = if offset < bytes.len() { offset } else { bytes.len() };
    let ghost target = line_end(bytes@, index as int);
    while index < bytes.len() && bytes[index] != 10u8
        invariant
            index <= bytes@.len(),
            line_end(bytes@, index as int) == target,
        decreases bytes@.len() - index,
    {
        index = index + 1;
    }
    if index < bytes.len() {
        index = index + 1;
    }
    index
}

/// Whether a byte is a space or a tab.
pub open spec fn is_blank_byte(x: u8) -> bool {
    x == 32u8 || x == 9u8
}

/// The end of the run of spaces and tabs that starts at `i`, no further than `to`.
pub open spec fn blank_run_end(b: Seq<u8>, i: int, to: int) -> int
    decreases to - i,
{
    if i >= to || i >= b.len() || i < 0 {
        i
    } else if is_blank_byte(b[i]) {
        blank_run_end(b, i + 1, to)
    } else {
        i
    }
}

/// The run of spaces and tabs between `from` and `to`, as characters.
pub open spec fn blank_chars(b: Seq<u8>, from: int, to: int) -> Seq<char> {
    b.subrange(from, to).map_values(|x: u8| if x == 9u8 { '\t' } else { ' ' })
}

/// The spaces and tabs at the start of the line that holds `offset`, up to `offset`.
pub open spec fn indent_of(b: Seq<u8>, offset: int) -> Seq<char> {
    let ls = line_start(b, clamp(b, offset));
    blank_chars(b, ls, blank_run_end(b, ls, clamp(b, offset)))
}

proof fn lemma_blank_run_bounds(b: Seq<u8>, i: int, to: int)
    requires
        0 <= i <= to <= b.len(),
    ensures
        i <= blank_run_end(b, i, to) <= to,
        forall|k: int| i <= k < blank_run_end(b, i, to) ==> is_blank_byte(#[trigger] b[k]),
    decreases to - i,
{
    if i < to && is_blank_byte(b[i]) {
        lemma_blank_run_bounds(b, i + 1, to);
    }
}

/// The indentation of the line that holds `offset`: its spaces and tabs
/// before `offset`.
pub fn line_indent(bytes: &[u8], offset: usize) -> (r: String)
    ensures
        r@ == indent_of(bytes@, offset as int),
{
    let ls = line_start_of(bytes, offset);
    let to = if offset < bytes.len() { offset } else { bytes.len() };
    proof {
        lemma_line_start_bounds(bytes@, to as int);
        lemma_blank_run_bounds(bytes@, ls as int, to as int);
    }
    let ghost stop = blank_run_end(bytes@, ls as int, to as int);
    let mut r = String::new();
    let mut i = ls;
    while i < to && (bytes[i] == 32u8 || bytes[i] == 9u8)
        invariant
            ls <= i <= to <= bytes@.len(),
            blank_run_end(bytes@, i as int, to as int) == stop,
            r@ == blank_chars(bytes@, ls as int, i as int),
        decreases to - i,
    {
        let c = if bytes[i] == 9u8 { '\t' } else { ' ' };
        r.push(c);
        proof {
            assert(blank_chars(bytes@, ls as int, i + 1) =~= blank_chars(bytes@, ls as int, i as int).push(c));
        }
        i = i + 1;
    }
    r
}

/// How deep the line that holds `offset` is indented, two columns a level.
pub fn indent_level_at(bytes: &[u8], offset: usize) -> (n: usize)
    ensures
        n == indent_of(bytes@, offset as int).len() / 2,
{
    let indent = line_indent(bytes, offset);
    let n = crate::text::chars_of(indent.as_str()).len();
    n / 2
}

/// Whether a byte is a space, a tab or a line break.
pub open spec fn is_trailing_byte(x: u8) -> bool {
    x == 32u8 || x == 9u8 || x == 10u8 || x == 13u8
}

/// `end`, moved back over spaces, tabs and line breaks, but not past `start`.
pub open spec fn trim_back(b: Seq<u8>, start: int, end: int) -> int
    decreases end,
{
    if end > start && end <= b.len() && end >= 1 && is_trailing_byte(b[end - 1]) {
        trim_back(b, start, end - 1)
    } else {
        end
    }
}

/// `start`, moved forward over spaces and tabs.
pub open spec fn skip_blank_bytes(b: Seq<u8>, start: int) -> int
    decreases b.len() - start,
{
    if 0 <= start < b.len() && is_blank_byte(b[start]) {
        skip_blank_bytes(b, start + 1)
    } else {
        start
    }
}

pub fn skip_blanks_from(bytes: &[u8], start: usize) -> (r: usize)
    ensures
        r == skip_blank_bytes(bytes@, start as int),
{
    let mut i = start;
    let ghost target = skip_blank_bytes(bytes@, start as int);
    while i < bytes.len() && (bytes[i] == 32u8 || bytes[i] == 9u8)
        invariant
            start <= i,
            skip_blank_bytes(bytes@, i as int) == target,
        decreases bytes@.len() - i,
    {
        i = i + 1;
    }
    i
}

pub fn trim_back_to(bytes: &[u8], start: usize, end: usize) -> (r: usize)
    ensures
        r == trim_back(bytes@, start as int, end as int),
{
    let mut e = end;
    let ghost target = trim_back(bytes@, start as int, end as int);
    while e > start && e <= bytes.len() && (bytes[e - 1] == 32u8 || bytes[e - 1] == 9u8 || bytes[e - 1] == 10u8
        || bytes[e - 1] == 13u8)
        invariant
            e <= end,
            trim_back(bytes@, start as int, e as int) == target,
        decreases e,
    {
        e = e - 1;
    }
    e
}


/// Just past an ASCII byte is a boundary.
pub proof fn lemma_boundary_after_ascii(b: Seq<u8>, i: int)
    requires
        valid_utf8(b),
        0 < i <= b.len(),
        b[i - 1] <= 0x7fu8,
    ensures
        is_char_boundary(b, i),
    decreases b.len(),
{
    let n = length_of_first_scalar(b);
    if i < n {
        if i - 1 > 0 {
            assert(is_continuation_byte(b[i - 1]));
        }
    } else if i == n {
        assert(is_char_boundary(pop_first_scalar(b), 0));
    } else {
        let rest = pop_first_scalar(b);
        assert(rest[i - n - 1] == b[i - 1]);
        lemma_boundary_after_ascii(rest, i - n);
    }
}

/// The start of a line is a boundary.
pub proof fn lemma_line_start_is_boundary(b: Seq<u8>, i: int)
    requires
        valid_utf8(b),
        0 <= i <= b.len(),
    ensures
        is_char_boundary(b, line_start(b, i)),
        line_start(b, i) <= i,
{
    lemma_line_start_bounds(b, i);
    if line_start(b, i) > 0 {
        lemma_boundary_after_ascii(b, line_start(b, i));
    }
}

/// The end of a line, past its newline, is a boundary.
pub proof fn lemma_line_end_is_boundary(b: Seq<u8>, i: int)
    requires
        valid_utf8(b),
        0 <= i <= b.len(),
    ensures
        is_char_boundary(b, line_end(b, i)),
        i <= line_end(b, i) <= b.len(),
        line_end(b, i) == b.len() || b[line_end(b, i) - 1] == 10u8,
    decreases b.len() - i,
{
    lemma_line_end_bounds(b, i);
    if i < b.len() {
        if b[i] == 10u8 {
            lemma_boundary_after_ascii(b, i + 1);
        } else {
            lemma_line_end_is_boundary(b, i + 1);
        }
    }
}

/// Whether every character of `s` is white space.
pub open spec fn all_white(s: Seq<char>) -> bool {
    forall|i: int| 0 <= i < s.len() ==> crate::text::is_white_space(#[trigger] s[i])
}

pub fn is_all_white(s: &str) -> (r: bool)
    ensures
        r == all_white(s@),
{
    let v = crate::text::chars_of(s);
    let mut i: usize = 0;
    while i < v.len()
        invariant
            i <= v@.len(),
            v@ == s@,
            forall|k: int| 0 <= k < i ==> crate::text::is_white_space(#[trigger] v@[k]),
        decreases v@.len() - i,
    {
        if !crate::text::white_space(v[i]) {
            return false;
        }
        i = i + 1;
    }
    true
}


/// The two ends of a text are boundaries.
pub proof fn lemma_boundary_at_ends(b: Seq<u8>)
    requires
        valid_utf8(b),
    ensures
        is_char_boundary(b, 0),
        is_char_boundary(b, b.len() as int),
{
}

} // verus!
