//! Comparing two texts line by line: which lines changed, how many, and
//! whether the comments of one are all in the other.

use vstd::prelude::*;
use crate::edit::gate::{insert_sorted, strictly_sorted, texts};
use crate::text::{chars_of, lines_of, lines_vec, str_eq, trim_chars, trimmed};

verus! {

broadcast use vstd::string::group_string_axioms;

/// How often `x` occurs in `s`.
pub open spec fn count_of<T>(s: Seq<T>, x: T) -> nat
    decreases s.len(),
{
    if s.len() == 0 {
        0
    } else {
        count_of(s.drop_last(), x) + if s.last() == x { 1nat } else { 0nat }
    }
}

/// Something occurs in a sequence exactly when it occurs at least once.
pub proof fn lemma_count_of_positive<T>(s: Seq<T>, x: T)
    ensures
        count_of(s, x) > 0 <==> s.contains(x),
    decreases s.len(),
{
    if s.len() > 0 {
        lemma_count_of_positive(s.drop_last(), x);
        if s.drop_last().contains(x) {
            let k = choose|k: int| 0 <= k < s.drop_last().len() && s.drop_last()[k] == x;
            assert(s[k] == x);
        }
        if s.contains(x) && s.last() != x {
            let k = choose|k: int| 0 <= k < s.len() && s[k] == x;
            assert(s.drop_last()[k] == x);
        }
        if s.last() == x {
            assert(s[s.len() - 1] == x);
        }
    }
}

/// How often the text `x` is one of `v`.
fn count_text(v: &Vec<String>, x: &str) -> (n: usize)
    ensures
        n == count_of(texts(v@), x@),
{
    let mut n: usize = 0;
    let mut i: usize = 0;
    while i < v.len()
        invariant
            i <= v@.len(),
            n == count_of(texts(v@).take(i as int), x@),
            n <= i,
        decreases v@.len() - i,
    {
        proof {
            assert(texts(v@).take(i + 1).drop_last() == texts(v@).take(i as int));
            assert(texts(v@).take(i + 1).last() == v@[i as int]@);
        }
        if str_eq(v[i].as_str(), x) {
            n = n + 1;
        }
        i = i + 1;
    }
    proof {
        assert(texts(v@).take(v@.len() as int) == texts(v@));
    }
    n
}

/// The lines of a text, as strings.
pub(crate) fn text_lines(s: &str) -> (r: Vec<String>)
    ensures
        texts(r@) == lines_of(s@),
{
    let v = chars_of(s);
    let r = lines_vec(&v);
    proof {
        assert(texts(r@) =~= lines_of(s@));
    }
    r
}

/// How many lines a text has.
pub fn line_count(s: &str) -> (n: usize)
    ensures
        n == lines_of(s@).len(),
{
    text_lines(s).len()
}

/// The distinct lines that one text has more often than the other, in
/// ascending order.
pub fn changed_lines(source: &str, next: &str) -> (r: Vec<String>)
    ensures
        strictly_sorted(texts(r@)),
        forall|x: Seq<char>| #[trigger] texts(r@).contains(x) <==> count_of(lines_of(source@), x) != count_of(lines_of(next@), x),
{
    let before = text_lines(source);
    let after = text_lines(next);
    let ghost bl = lines_of(source@);
    let ghost al = lines_of(next@);
    let mut r: Vec<String> = Vec::new();
    let mut i: usize = 0;
    while i < before.len()
        invariant
            i <= before@.len(),
            texts(before@) == bl,
            texts(after@) == al,
            strictly_sorted(texts(r@)),
            forall|x: Seq<char>| #[trigger] texts(r@).contains(x) ==> count_of(bl, x) != count_of(al, x),
            forall|k: int| 0 <= k < i && count_of(bl, #[trigger] bl[k]) != count_of(al, bl[k]) ==> texts(r@).contains(bl[k]),
        decreases before@.len() - i,
    {
        let b = count_text(&before, before[i].as_str());
        let a = count_text(&after, before[i].as_str());
        let ghost old_r = texts(r@);
        proof {
            assert(bl[i as int] == before@[i as int]@);
        }
        if b != a {
            insert_sorted(&mut r, crate::text::to_owned_string(before[i].as_str()));
        }
        proof {
            assert forall|k: int| 0 <= k < i + 1 && count_of(bl, #[trigger] bl[k]) != count_of(al, bl[k]) implies texts(
                r@,
            ).contains(bl[k]) by {
                if k < i {
                    assert(old_r.contains(bl[k]));
                }
            }
        }
        i = i + 1;
    }
    let mut j: usize = 0;
    while j < after.len()
        invariant
            j <= after@.len(),
            texts(before@) == bl,
            texts(after@) == al,
            strictly_sorted(texts(r@)),
            forall|x: Seq<char>| #[trigger] texts(r@).contains(x) ==> count_of(bl, x) != count_of(al, x),
            forall|k: int| 0 <= k < bl.len() && count_of(bl, #[trigger] bl[k]) != count_of(al, bl[k]) ==> texts(r@).contains(bl[k]),
            forall|k: int| 0 <= k < j && count_of(bl, #[trigger] al[k]) != count_of(al, al[k]) ==> texts(r@).contains(al[k]),
        decreases after@.len() - j,
    {
        let b = count_text(&before, after[j].as_str());
        let a = count_text(&after, after[j].as_str());
        let ghost old_r = texts(r@);
        proof {
            assert(al[j as int] == after@[j as int]@);
        }
        if b != a {
            insert_sorted(&mut r, crate::text::to_owned_string(after[j].as_str()));
        }
        proof {
            assert forall|k: int| 0 <= k < bl.len() && count_of(bl, #[trigger] bl[k]) != count_of(al, bl[k]) implies texts(
                r@,
            ).contains(bl[k]) by {
                assert(old_r.contains(bl[k]));
            }
            assert forall|k: int| 0 <= k < j + 1 && count_of(bl, #[trigger] al[k]) != count_of(al, al[k]) implies texts(
                r@,
            ).contains(al[k]) by {
                if k < j {
                    assert(old_r.contains(al[k]));
                }
            }
        }
        j = j + 1;
    }
    proof {
        assert forall|x: Seq<char>| #[trigger] texts(r@).contains(x) <==> count_of(bl, x) != count_of(al, x) by {
            if count_of(bl, x) != count_of(al, x) {
                if count_of(bl, x) > 0 {
                    lemma_count_of_positive(bl, x);
                    let k = choose|k: int| 0 <= k < bl.len() && bl[k] == x;
                    assert(count_of(bl, bl[k]) != count_of(al, bl[k]));
                } else {
                    lemma_count_of_positive(al, x);
                    let k = choose|k: int| 0 <= k < al.len() && al[k] == x;
                    assert(count_of(bl, al[k]) != count_of(al, al[k]));
                }
            }
        }
    }
    r
}

/// The `k`-th line, if there is one.
pub open spec fn line_at(ls: Seq<Seq<char>>, k: int) -> Option<Seq<char>> {
    if 0 <= k < ls.len() {
        Some(ls[k])
    } else {
        None
    }
}

/// How many of the first `n` line numbers hold different lines (or a line
/// in one text only).
pub open spec fn differing_lines(a: Seq<Seq<char>>, b: Seq<Seq<char>>, n: int) -> nat
    decreases n,
{
    if n <= 0 {
        0
    } else {
        differing_lines(a, b, n - 1) + if line_at(a, n - 1) != line_at(b, n - 1) { 1nat } else { 0nat }
    }
}

/// How many line numbers hold different lines in the two texts.
pub fn changed_line_count(left: &str, right: &str) -> (n: usize)
    ensures
        n == differing_lines(
            lines_of(left@),
            lines_of(right@),
            if lines_of(left@).len() >= lines_of(right@).len() {
                lines_of(left@).len() as int
            } else {
                lines_of(right@).len() as int
            },
        ),
{
    let l = text_lines(left);
    let r = text_lines(right);
    let ghost a = lines_of(left@);
    let ghost b = lines_of(right@);
    let m = if l.len() >= r.len() { l.len() } else { r.len() };
    let mut n: usize = 0;
    let mut i: usize = 0;
    while i < m
        invariant
            i <= m,
            m == if a.len() >= b.len() { a.len() } else { b.len() },
            texts(l@) == a,
            texts(r@) == b,
            n == differing_lines(a, b, i as int),
            n <= i,
        decreases m - i,
    {
        let same = if i < l.len() && i < r.len() {
            str_eq(l[i].as_str(), r[i].as_str())
        } else {
            !(i < l.len()) && !(i < r.len())
        };
        proof {
            if i < l.len() {
                assert(a[i as int] == l@[i as int]@);
            }
            if i < r.len() {
                assert(b[i as int] == r@[i as int]@);
            }
        }
        if !same {
            n = n + 1;
        }
        i = i + 1;
    }
    n
}

/// The comment fragment of a line: from its first `#` to its end, trimmed.
pub open spec fn fragment(line: Seq<char>) -> Option<Seq<char>> {
    if line.contains('#') {
        let i = choose|i: int| 0 <= i < line.len() && line[i] == '#' && forall|k: int| 0 <= k < i ==> line[k] != '#';
        Some(trimmed(line.skip(i)))
    } else {
        None
    }
}

/// The comment fragments of the lines, in order.
pub open spec fn fragments(ls: Seq<Seq<char>>) -> Seq<Option<Seq<char>>> {
    ls.map_values(|l: Seq<char>| fragment(l))
}

/// Whether every comment fragment of `source` is in `next` at least as often.
pub open spec fn comments_all_kept(source: Seq<char>, next: Seq<char>) -> bool {
    forall|f: Seq<char>|
        count_of(fragments(lines_of(source)), Some(f)) <= #[trigger] count_of(fragments(lines_of(next)), Some(f))
}

/// The comment fragment of a line.
fn line_fragment(line: &str) -> (r: Option<String>)
    ensures
        match r {
            Some(f) => fragment(line@) == Some(f@),
            None => fragment(line@) is None,
        },
{
    let v = chars_of(line);
    let mut i: usize = 0;
    while i < v.len() && v[i] != '#'
        invariant
            i <= v@.len(),
            v@ == line@,
            forall|k: int| 0 <= k < i ==> v@[k] != '#',
        decreases v@.len() - i,
    {
        i = i + 1;
    }
    if i == v.len() {
        proof {
            if line@.contains('#') {
                let k = choose|k: int| 0 <= k < line@.len() && line@[k] == '#';
                assert(v@[k] != '#');
            }
        }
        return None;
    }
    proof {
        assert(line@.contains('#')) by {
            assert(line@[i as int] == '#');
        }
        let j = choose|j: int| 0 <= j < line@.len() && line@[j] == '#' && forall|k: int| 0 <= k < j ==> line@[k] != '#';
        if j < i {
            assert(v@[j] != '#');
        } else if j > i {
            assert(line@[i as int] != '#');
        }
        assert(j == i);
    }
    let tail = crate::text::vec_range(&v, i, v.len());
    let f = trim_chars(&tail);
    proof {
        assert(tail@ == line@.skip(i as int));
    }
    Some(f)
}

/// The fragments of lines, as strings (an empty string standing for none).
fn line_fragments(ls: &Vec<String>) -> (r: Vec<Option<String>>)
    ensures
        r@.len() == ls@.len(),
        forall|k: int| 0 <= k < ls@.len() ==> match #[trigger] r@[k] {
            Some(f) => fragment(ls@[k]@) == Some(f@),
            None => fragment(ls@[k]@) is None,
        },
{
    let mut r: Vec<Option<String>> = Vec::new();
    let mut i: usize = 0;
    while i < ls.len()
        invariant
            i <= ls@.len(),
            r@.len() == i,
            forall|k: int| 0 <= k < i ==> match #[trigger] r@[k] {
                Some(f) => fragment(ls@[k]@) == Some(f@),
                None => fragment(ls@[k]@) is None,
            },
        decreases ls@.len() - i,
    {
        r.push(line_fragment(ls[i].as_str()));
        i = i + 1;
    }
    r
}

/// The views of optional strings.
pub open spec fn option_texts(v: Seq<Option<String>>) -> Seq<Option<Seq<char>>> {
    v.map_values(|o: Option<String>| match o {
        Some(s) => Some(s@),
        None => None,
    })
}

/// How often the fragment `f` is among `fs`.
fn count_fragment(fs: &Vec<Option<String>>, f: &str) -> (n: usize)
    ensures
        n == count_of(option_texts(fs@), Some(f@)),
{
    let mut n: usize = 0;
    let mut i: usize = 0;
    while i < fs.len()
        invariant
            i <= fs@.len(),
            n == count_of(option_texts(fs@).take(i as int), Some(f@)),
            n <= i,
        decreases fs@.len() - i,
    {
        proof {
            assert(option_texts(fs@).take(i + 1).drop_last() == option_texts(fs@).take(i as int));
            assert(option_texts(fs@).take(i + 1).last() == option_texts(fs@)[i as int]);
        }
        match &fs[i] {
            Some(g) => {
                if str_eq(g.as_str(), f) {
                    n = n + 1;
                }
            },
            None => {},
        }
        i = i + 1;
    }
    proof {
        assert(option_texts(fs@).take(fs@.len() as int) == option_texts(fs@));
    }
    n
}

/// Whether every comment fragment of `source` is in `next` at least as often.
pub fn comments_kept(source: &str, next: &str) -> (b: bool)
    ensures
        b == comments_all_kept(source@, next@),
{
    let before_lines = text_lines(source);
    let after_lines = text_lines(next);
    let before = line_fragments(&before_lines);
    let after = line_fragments(&after_lines);
    let ghost fb = fragments(lines_of(source@));
    let ghost fa = fragments(lines_of(next@));
    proof {
        assert(option_texts(before@) =~= fb) by {
            assert forall|k: int| 0 <= k < fb.len() implies option_texts(before@)[k] == fb[k] by {
                assert(lines_of(source@)[k] == before_lines@[k]@);
            }
        }
        assert(option_texts(after@) =~= fa) by {
            assert forall|k: int| 0 <= k < fa.len() implies option_texts(after@)[k] == fa[k] by {
                assert(lines_of(next@)[k] == after_lines@[k]@);
            }
        }
    }
    let mut i: usize = 0;
    while i < before.len()
        invariant
            i <= before@.len(),
            option_texts(before@) == fb,
            option_texts(after@) == fa,
            fb == fragments(lines_of(source@)),
            fa == fragments(lines_of(next@)),
            forall|k: int| 0 <= k < i && (#[trigger] fb[k]) is Some ==> count_of(fb, fb[k]) <= count_of(fa, fb[k]),
        decreases before@.len() - i,
    {
        match &before[i] {
            Some(f) => {
                let nb = count_fragment(&before, f.as_str());
                let na = count_fragment(&after, f.as_str());
                proof {
                    assert(fb[i as int] == Some(f@));
                }
                if nb > na {
                    proof {
                        assert(count_of(fa, Some(f@)) < count_of(fb, Some(f@)));
                        assert(!(count_of(fragments(lines_of(source@)), Some(f@)) <= count_of(
                            fragments(lines_of(next@)),
                            Some(f@),
                        )));
                        assert(!comments_all_kept(source@, next@));
                    }
                    return false;
                }
            },
            None => {},
        }
        i = i + 1;
    }
    proof {
        assert forall|f: Seq<char>| count_of(fb, Some(f)) <= #[trigger] count_of(fa, Some(f)) by {
            if count_of(fb, Some(f)) > 0 {
                lemma_count_of_positive(fb, Some(f));
                let k = choose|k: int| 0 <= k < fb.len() && fb[k] == Some(f);
                assert(fb[k] is Some);
            }
        }
    }
    true
}

} // verus!
