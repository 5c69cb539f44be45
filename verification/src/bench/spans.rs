//! Byte ranges of a text that an edit may change, and whether the bytes
//! outside them stayed as they were.

use vstd::prelude::*;
use vstd::relations::{sorted_by, total_ordering};
use vstd::utf8::{encode_utf8, is_char_boundary};

verus! {

broadcast use vstd::string::group_string_axioms, vstd::utf8::group_utf8_lib, vstd::seq_lib::group_to_multiset_ensures,
    vstd::multiset::group_multiset_axioms;

/// Ranges ordered by start, then by end.
pub open spec fn range_le(a: (usize, usize), b: (usize, usize)) -> bool {
    a.0 < b.0 || (a.0 == b.0 && a.1 <= b.1)
}

pub open spec fn range_order() -> spec_fn((usize, usize), (usize, usize)) -> bool {
    |a: (usize, usize), b: (usize, usize)| range_le(a, b)
}

pub proof fn lemma_range_order_total()
    ensures
        total_ordering(range_order()),
{
}

/// Sorted ranges merged: each range that starts at or before the end of the
/// last merged one extends it; any other starts a new one.
pub open spec fn merge_sorted(rs: Seq<(usize, usize)>) -> Seq<(usize, usize)>
    decreases rs.len(),
{
    if rs.len() == 0 {
        Seq::empty()
    } else {
        let m = merge_sorted(rs.drop_last());
        let r = rs.last();
        if m.len() > 0 && r.0 <= m.last().1 {
            m.update(m.len() - 1, (m.last().0, if m.last().1 >= r.1 { m.last().1 } else { r.1 }))
        } else {
            m.push(r)
        }
    }
}

/// Puts `x` into the ordered list `v` after every range not above it.
fn insert_range(v: &mut Vec<(usize, usize)>, x: (usize, usize))
    requires
        sorted_by(old(v)@, range_order()),
    ensures
        sorted_by(final(v)@, range_order()),
        final(v)@.to_multiset() == old(v)@.to_multiset().insert(x),
{
    let ghost before = v@;
    let mut p: usize = 0;
    while p < v.len() && (v[p].0 < x.0 || (v[p].0 == x.0 && v[p].1 <= x.1))
        invariant
            p <= v@.len(),
            v@ == before,
            forall|q: int| 0 <= q < p ==> range_le(#[trigger] v@[q], x),
        decreases v@.len() - p,
    {
        p = p + 1;
    }
    v.insert(p, x);
    proof {
        assert(v@ == before.insert(p as int, x));
        assert forall|i: int, j: int| 0 <= i < j < v@.len() implies #[trigger] (range_order())(v@[i], v@[j]) by {
            if j < p {
                assert(v@[i] == before[i] && v@[j] == before[j]);
                assert((range_order())(before[i], before[j]));
            } else if j == p {
                assert(v@[i] == before[i]);
            } else if i == p {
                assert(v@[j] == before[j - 1]);
                if j - 1 > p {
                    assert((range_order())(before[p as int], before[j - 1]));
                }
            } else if i < p {
                assert(v@[i] == before[i] && v@[j] == before[j - 1]);
                assert(range_le(before[i], x));
                if j - 1 >= p {
                    assert(!range_le(before[p as int], x));
                    if j - 1 > p {
                        assert((range_order())(before[p as int], before[j - 1]));
                    }
                }
            } else {
                assert(v@[i] == before[i - 1] && v@[j] == before[j - 1]);
                assert((range_order())(before[i - 1], before[j - 1]));
            }
        }
        vstd::seq_lib::to_multiset_insert(before, p as int, x);
    }
}

/// Ranges of the bytes `b` that start and end on character boundaries.
pub open spec fn ranges_within(rs: Seq<(usize, usize)>, b: Seq<u8>) -> bool {
    forall|i: int|
        0 <= i < rs.len() ==> (#[trigger] rs[i]).0 <= rs[i].1 <= b.len() && is_char_boundary(b, rs[i].0 as int)
            && is_char_boundary(b, rs[i].1 as int)
}

/// Ranges of `source` in order, overlapping or touching ones merged.
pub fn merge_ranges(source: &str, ranges: &Vec<(usize, usize)>) -> (r: Vec<(usize, usize)>)
    requires
        ranges_within(ranges@, encode_utf8(source@)),
    ensures
        r@ == merge_sorted(ranges@.sort_by(range_order())),
        ranges_within(r@, encode_utf8(source@)),
{
    let ghost b = encode_utf8(source@);
    let mut sorted: Vec<(usize, usize)> = Vec::new();
    let mut i: usize = 0;
    while i < ranges.len()
        invariant
            i <= ranges@.len(),
            sorted_by(sorted@, range_order()),
            sorted@.to_multiset() == ranges@.take(i as int).to_multiset(),
            b == encode_utf8(source@),
            ranges_within(ranges@, b),
            ranges_within(sorted@, b),
        decreases ranges@.len() - i,
    {
        proof {
            assert(ranges@.take(i + 1) == ranges@.take(i as int).push(ranges@[i as int]));
        }
        let ghost before = sorted@;
        insert_range(&mut sorted, ranges[i]);
        proof {
            assert forall|q: int| 0 <= q < sorted@.len() implies (#[trigger] sorted@[q]).0 <= sorted@[q].1 <= b.len()
                && is_char_boundary(b, sorted@[q].0 as int) && is_char_boundary(b, sorted@[q].1 as int) by {
                let e = sorted@[q];
                assert(sorted@.contains(e));
                assert(sorted@.to_multiset().count(e) > 0);
                if e != ranges@[i as int] {
                    assert(before.to_multiset().count(e) > 0);
                    assert(before.contains(e));
                    let w = choose|w: int| 0 <= w < before.len() && before[w] == e;
                    assert(before[w] == e);
                }
            }
        }
        i = i + 1;
    }
    proof {
        assert(ranges@.take(ranges@.len() as int) == ranges@);
        lemma_range_order_total();
        ranges@.lemma_sort_by_ensures(range_order());
        vstd::seq_lib::lemma_sorted_unique(sorted@, ranges@.sort_by(range_order()), range_order());
    }
    let mut merged: Vec<(usize, usize)> = Vec::new();
    let mut k: usize = 0;
    while k < sorted.len()
        invariant
            k <= sorted@.len(),
            merged@ == merge_sorted(sorted@.take(k as int)),
            ranges_within(sorted@, b),
            ranges_within(merged@, b),
        decreases sorted@.len() - k,
    {
        proof {
            assert(sorted@.take(k + 1).drop_last() == sorted@.take(k as int));
            assert(sorted@.take(k + 1).last() == sorted@[k as int]);
        }
        let (start, end) = sorted[k];
        let n = merged.len();
        if n > 0 && start <= merged[n - 1].1 {
            let last = merged[n - 1];
            let widened = if last.1 >= end { last.1 } else { end };
            merged.set(n - 1, (last.0, widened));
        } else {
            merged.push((start, end));
        }
        k = k + 1;
    }
    proof {
        assert(sorted@.take(sorted@.len() as int) == sorted@);
    }
    merged
}

/// The start of the line that holds `start` and the end of the line that
/// holds `end`, past its newline.
pub open spec fn line_range_of(b: Seq<u8>, start: int, end: int) -> (int, int) {
    (crate::edit::bytes::line_start(b, start), crate::edit::bytes::line_end(b, end))
}

/// The whole lines that cover `[start, end)`, newline included.
pub fn line_range(source: &str, start: usize, end: usize) -> (r: (usize, usize))
    requires
        start <= end <= encode_utf8(source@).len(),
    ensures
        r.0 == line_range_of(encode_utf8(source@), start as int, end as int).0,
        r.1 == line_range_of(encode_utf8(source@), start as int, end as int).1,
        r.0 <= start <= end <= r.1 <= encode_utf8(source@).len(),
        is_char_boundary(encode_utf8(source@), r.0 as int),
        is_char_boundary(encode_utf8(source@), r.1 as int),
{
    let bytes = source.as_bytes();
    let ls = crate::edit::bytes::line_start_of(bytes, start);
    let le = crate::edit::bytes::line_end_of(bytes, end);
    proof {
        crate::edit::bytes::lemma_line_start_is_boundary(bytes@, start as int);
        crate::edit::bytes::lemma_line_end_is_boundary(bytes@, end as int);
    }
    (ls, le)
}

/// The pieces of `[0, len)` outside the ordered ranges `allowed`, after the
/// first `k` of them, with where the scan has got to.
pub open spec fn kept_after(allowed: Seq<(usize, usize)>, k: int) -> (Seq<(int, int)>, int)
    decreases k,
{
    if k <= 0 {
        (Seq::empty(), 0)
    } else {
        let (kept, cursor) = kept_after(allowed, k - 1);
        let (s, e) = allowed[k - 1];
        let kept2 = if s > cursor { kept.push((cursor, s as int)) } else { kept };
        (kept2, if cursor >= e { cursor } else { e as int })
    }
}

/// The pieces of `[0, len)` outside the ranges `allowed`, in order.
pub open spec fn kept_pieces(allowed: Seq<(usize, usize)>, len: int) -> Seq<(int, int)> {
    let (kept, cursor) = kept_after(allowed, allowed.len() as int);
    if cursor < len { kept.push((cursor, len)) } else { kept }
}

proof fn lemma_kept_after_bounds(allowed: Seq<(usize, usize)>, k: int, len: int)
    requires
        0 <= k <= allowed.len(),
        0 <= len,
        forall|i: int| 0 <= i < allowed.len() ==> (#[trigger] allowed[i]).0 <= allowed[i].1 <= len,
    ensures
        0 <= kept_after(allowed, k).1 <= len,
        forall|i: int|
            0 <= i < kept_after(allowed, k).0.len() ==> 0 <= (#[trigger] kept_after(allowed, k).0[i]).0
                < kept_after(allowed, k).0[i].1 <= kept_after(allowed, k).1,
    decreases k,
{
    if k > 0 {
        lemma_kept_after_bounds(allowed, k - 1, len);
    }
}

/// The pieces of a text of `len` bytes that lie outside the ordered ranges.
pub fn kept_segments(len: usize, allowed: &Vec<(usize, usize)>) -> (r: Vec<(usize, usize)>)
    requires
        forall|i: int| 0 <= i < allowed@.len() ==> (#[trigger] allowed@[i]).0 <= allowed@[i].1 <= len,
    ensures
        r@.len() == kept_pieces(allowed@, len as int).len(),
        forall|i: int| 0 <= i < r@.len() ==> (#[trigger] r@[i]).0 == kept_pieces(allowed@, len as int)[i].0
            && r@[i].1 == kept_pieces(allowed@, len as int)[i].1,
        forall|i: int| 0 <= i < r@.len() ==> (#[trigger] r@[i]).0 < r@[i].1 <= len,
{
    let mut kept: Vec<(usize, usize)> = Vec::new();
    let mut cursor: usize = 0;
    let mut i: usize = 0;
    while i < allowed.len()
        invariant
            i <= allowed@.len(),
            forall|j: int| 0 <= j < allowed@.len() ==> (#[trigger] allowed@[j]).0 <= allowed@[j].1 <= len,
            cursor == kept_after(allowed@, i as int).1,
            kept@.len() == kept_after(allowed@, i as int).0.len(),
            forall|j: int| 0 <= j < kept@.len() ==> (#[trigger] kept@[j]).0 == kept_after(allowed@, i as int).0[j].0
                && kept@[j].1 == kept_after(allowed@, i as int).0[j].1,
        decreases allowed@.len() - i,
    {
        proof {
            lemma_kept_after_bounds(allowed@, i as int, len as int);
        }
        let (s, e) = allowed[i];
        if s > cursor {
            kept.push((cursor, s));
        }
        cursor = if cursor >= e { cursor } else { e };
        i = i + 1;
    }
    proof {
        lemma_kept_after_bounds(allowed@, i as int, len as int);
    }
    if cursor < len {
        kept.push((cursor, len));
    }
    kept
}


/// The first place in `[from, to)` of `b` where all of `t` lies, as an index.
pub open spec fn find_in(b: Seq<u8>, t: Seq<u8>, from: int, to: int) -> Option<int>
    decreases to - from,
{
    if from < 0 || from + t.len() > to || to > b.len() {
        None
    } else if b.subrange(from, from + t.len()) == t {
        Some(from)
    } else if from >= to {
        None
    } else {
        find_in(b, t, from + 1, to)
    }
}

fn find_bytes(b: &[u8], t: &[u8], from: usize, to: usize) -> (r: Option<usize>)
    ensures
        match find_in(b@, t@, from as int, to as int) {
            Some(i) => r matches Some(j) && j == i,
            None => r is None,
        },
        r matches Some(j) ==> j + t@.len() <= to,
{
    if to > b.len() {
        return None;
    }
    let mut i = from;
    while i <= to && t.len() <= to - i
        invariant
            from <= i,
            to <= b@.len(),
            find_in(b@, t@, from as int, to as int) == find_in(b@, t@, i as int, to as int),
        decreases to - i + 1,
    {
        let mut k: usize = 0;
        while k < t.len() && b[i + k] == t[k]
            invariant
                k <= t@.len(),
                i + t@.len() <= to <= b@.len(),
                forall|q: int| 0 <= q < k ==> b@[i + q] == t@[q],
            decreases t@.len() - k,
        {
            k = k + 1;
        }
        if k == t.len() {
            proof {
                assert(b@.subrange(i as int, i + t@.len()) =~= t@);
            }
            return Some(i);
        }
        proof {
            assert(b@.subrange(i as int, i + t@.len())[k as int] != t@[k as int]);
        }
        i = i + 1;
    }
    None
}

/// What went wrong outside the ranges an edit may change: the piece of the
/// source (as a byte range) that is not where it must be.
pub enum Damage {
    /// the first piece is not at the start
    Prefix(int, int),
    /// the last piece is not at the end
    Suffix(int, int),
    /// a piece is missing, or out of order
    Missing(int, int),
}

/// Looks for pieces `k..end` of `a` in order in `b[pos..stop)`.
pub open spec fn scan(a: Seq<u8>, b: Seq<u8>, kept: Seq<(int, int)>, k: int, end: int, pos: int, stop: int) -> Option<Damage>
    decreases end - k,
{
    if k >= end || k < 0 || end > kept.len() {
        None
    } else {
        let t = a.subrange(kept[k].0, kept[k].1);
        if pos > stop {
            Some(Damage::Missing(kept[k].0, kept[k].1))
        } else {
            match find_in(b, t, pos, stop) {
                Some(o) => scan(a, b, kept, k + 1, end, o + t.len(), stop),
                None => Some(Damage::Missing(kept[k].0, kept[k].1)),
            }
        }
    }
}

/// Whether `b` starts with `t`.
pub open spec fn starts_with_bytes(b: Seq<u8>, t: Seq<u8>) -> bool {
    t.len() <= b.len() && b.subrange(0, t.len() as int) == t
}

/// Whether `b` ends with `t`.
pub open spec fn ends_with_bytes(b: Seq<u8>, t: Seq<u8>) -> bool {
    t.len() <= b.len() && b.subrange(b.len() - t.len(), b.len() as int) == t
}

/// Whether the pieces of `a` outside the ordered ranges `allowed` stay in `b`
/// byte for byte and in order: the first piece at the start and the last at
/// the end unless a range touches that end; `None` when they do.
pub open spec fn untouched(a: Seq<u8>, b: Seq<u8>, allowed: Seq<(usize, usize)>) -> Option<Damage> {
    let kept = kept_pieces(allowed, a.len() as int);
    let pin_head = allowed.len() == 0 || allowed[0].0 > 0;
    let pin_tail = allowed.len() == 0 || allowed.last().1 < a.len();
    if kept.len() == 0 {
        None
    } else {
        let head = a.subrange(kept[0].0, kept[0].1);
        let tail = a.subrange(kept.last().0, kept.last().1);
        if pin_head && !starts_with_bytes(b, head) {
            Some(Damage::Prefix(kept[0].0, kept[0].1))
        } else if pin_head && kept.len() == 1 {
            if !pin_tail || b.len() == head.len() {
                None
            } else {
                Some(Damage::Suffix(kept[0].0, kept[0].1))
            }
        } else if pin_tail && !ends_with_bytes(b, tail) {
            Some(Damage::Suffix(kept.last().0, kept.last().1))
        } else {
            scan(
                a,
                b,
                kept,
                if pin_head { 1 } else { 0 },
                if pin_tail { kept.len() - 1 } else { kept.len() as int },
                if pin_head { head.len() as int } else { 0 },
                if pin_tail { b.len() - tail.len() } else { b.len() as int },
            )
        }
    }
}

pub(crate) fn bytes_start_with(b: &[u8], a: &[u8], s: usize, e: usize) -> (r: bool)
    requires
        s <= e <= a@.len(),
    ensures
        r == starts_with_bytes(b@, a@.subrange(s as int, e as int)),
{
    let n = e - s;
    if n > b.len() {
        return false;
    }
    let mut k: usize = 0;
    while k < n
        invariant
            k <= n == e - s,
            s <= e <= a@.len(),
            n <= b@.len(),
            forall|q: int| 0 <= q < k ==> b@[q] == #[trigger] a@.subrange(s as int, e as int)[q],
        decreases n - k,
    {
        if b[k] != a[s + k] {
            proof {
                assert(b@.subrange(0, n as int)[k as int] != a@.subrange(s as int, e as int)[k as int]);
            }
            return false;
        }
        k = k + 1;
    }
    proof {
        assert(b@.subrange(0, n as int) =~= a@.subrange(s as int, e as int));
    }
    true
}

pub(crate) fn bytes_end_with(b: &[u8], a: &[u8], s: usize, e: usize) -> (r: bool)
    requires
        s <= e <= a@.len(),
    ensures
        r == ends_with_bytes(b@, a@.subrange(s as int, e as int)),
{
    let n = e - s;
    if n > b.len() {
        return false;
    }
    let blen = b.len();
    let off = blen - n;
    let mut k: usize = 0;
    while k < n
        invariant
            k <= n == e - s,
            s <= e <= a@.len(),
            blen == b@.len(),
            off + n == blen,
            forall|q: int| 0 <= q < k ==> b@[off + q] == #[trigger] a@.subrange(s as int, e as int)[q],
        decreases n - k,
    {
        if b[off + k] != a[s + k] {
            proof {
                assert(b@.subrange(off as int, b@.len() as int)[k as int] != a@.subrange(s as int, e as int)[k as int]);
            }
            return false;
        }
        k = k + 1;
    }
    proof {
        assert(b@.subrange(off as int, b@.len() as int) =~= a@.subrange(s as int, e as int));
    }
    true
}

/// Checks that the bytes of `a` outside the ordered ranges `allowed` are in
/// `b` as `untouched` says.
pub fn untouched_bytes(a: &[u8], b: &[u8], allowed: &Vec<(usize, usize)>) -> (r: Option<(u8, usize, usize)>)
    requires
        forall|i: int| 0 <= i < allowed@.len() ==> (#[trigger] allowed@[i]).0 <= allowed@[i].1 <= a@.len(),
    ensures
        match untouched(a@, b@, allowed@) {
            None => r is None,
            Some(Damage::Prefix(s, e)) => r == Some((0u8, s as usize, e as usize)),
            Some(Damage::Suffix(s, e)) => r == Some((1u8, s as usize, e as usize)),
            Some(Damage::Missing(s, e)) => r == Some((2u8, s as usize, e as usize)),
        },
        r matches Some((_, s, e)) ==> s < e <= a@.len() && exists|i: int|
            0 <= i < kept_pieces(allowed@, a@.len() as int).len() && kept_pieces(allowed@, a@.len() as int)[i] == (
                s as int,
                e as int,
            ),
{
    let kept = kept_segments(a.len(), allowed);
    let ghost kp = kept_pieces(allowed@, a@.len() as int);
    let n = kept.len();
    if n == 0 {
        return None;
    }
    let pin_head = allowed.len() == 0 || allowed[0].0 > 0;
    let pin_tail = allowed.len() == 0 || allowed[allowed.len() - 1].1 < a.len();
    let mut pos: usize = 0;
    let mut end_index = n;
    let mut end_pos = b.len();
    if pin_head {
        let (s, e) = kept[0];
        if !bytes_start_with(b, a, s, e) {
            return Some((0u8, s, e));
        }
        pos = e - s;
        if n == 1 {
            return if !pin_tail || b.len() == e - s {
                None
            } else {
                Some((1u8, s, e))
            };
        }
    }
    if pin_tail {
        let (s, e) = kept[n - 1];
        if !bytes_end_with(b, a, s, e) {
            return Some((1u8, s, e));
        }
        end_index = n - 1;
        end_pos = b.len() - (e - s);
    }
    let mut k: usize = if pin_head { 1 } else { 0 };
    proof {
        assert(untouched(a@, b@, allowed@) == scan(a@, b@, kp, k as int, end_index as int, pos as int, end_pos as int));
    }
    while k < end_index
        invariant
            k <= end_index <= n == kept@.len() == kp.len(),
            kp == kept_pieces(allowed@, a@.len() as int),
            forall|j: int| 0 <= j < n ==> (#[trigger] kept@[j]).0 == kp[j].0 && kept@[j].1 == kp[j].1,
            forall|j: int| 0 <= j < n ==> (#[trigger] kept@[j]).0 < kept@[j].1 <= a@.len(),
            end_pos <= b@.len(),
            untouched(a@, b@, allowed@) == scan(a@, b@, kp, k as int, end_index as int, pos as int, end_pos as int),
        decreases end_index - k,
    {
        let (s, e) = kept[k];
        proof {
            assert(kp[k as int] == (s as int, e as int));
        }
        if pos > end_pos {
            return Some((2u8, s, e));
        }
        match find_bytes(b, vstd::slice::slice_subrange(a, s, e), pos, end_pos) {
            Some(o) => {
                pos = o + (e - s);
            },
            None => {
                return Some((2u8, s, e));
            },
        }
        k = k + 1;
    }
    None
}

} // verus!
