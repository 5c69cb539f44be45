//! Character-level helpers shared by the lexer, the printers and the
//! formatters: building strings, comparing them, and decimal rendering.

use vstd::prelude::*;

verus! {

broadcast use vstd::string::group_string_axioms;

/// `String::push` appends one character at the end.
pub assume_specification[ std::string::String::push ](s: &mut std::string::String, ch: char)
    ensures
        final(s)@ == old(s)@.push(ch),
;

/// `String::push_str` appends the characters of `string` at the end.
pub assume_specification[ std::string::String::push_str ](s: &mut std::string::String, string: &str)
    ensures
        final(s)@ == old(s)@ + string@,
;

/// The characters of `s`, in order.
pub fn chars_of(s: &str) -> (v: Vec<char>)
    ensures
        v@ == s@,
{
    let mut v: Vec<char> = Vec::new();
    for c in iter: s.chars()
        invariant
            v@ == iter.seq().take(iter.index() as int),
            iter.seq() == s@,
    {
        v.push(c);
    }
    v
}

} // verus!

verus! {

/// A `String` holding exactly the given characters.
pub fn string_from_chars(v: &Vec<char>) -> (s: String)
    ensures
        s@ == v@,
{
    let mut s = String::new();
    let mut i: usize = 0;
    while i < v.len()
        invariant
            i <= v.len(),
            s@ == v@.take(i as int),
        decreases v.len() - i,
    {
        s.push(v[i]);
        i = i + 1;
        assert(s@ == v@.take(i as int));
    }
    assert(v@.take(v.len() as int) == v@);
    s
}

/// A `String` holding the characters of `s[from..to]`.
pub fn string_from_range(v: &Vec<char>, from: usize, to: usize) -> (s: String)
    requires
        from <= to <= v.len(),
    ensures
        s@ == v@.subrange(from as int, to as int),
{
    let mut s = String::new();
    let mut i: usize = from;
    while i < to
        invariant
            from <= i <= to <= v.len(),
            s@ == v@.subrange(from as int, i as int),
        decreases to - i,
    {
        s.push(v[i]);
        i = i + 1;
        assert(s@ == v@.subrange(from as int, i as int));
    }
    s
}

/// Whether two character sequences are equal, compared character by character.
pub fn chars_equal(a: &Vec<char>, b: &Vec<char>) -> (r: bool)
    ensures
        r == (a@ == b@),
{
    if a.len() != b.len() {
        return false;
    }
    let mut i: usize = 0;
    while i < a.len()
        invariant
            i <= a.len() == b.len(),
            forall|j: int| 0 <= j < i ==> a@[j] == b@[j],
        decreases a.len() - i,
    {
        if a[i] != b[i] {
            return false;
        }
        i = i + 1;
    }
    assert(a@ =~= b@);
    true
}

/// Whether two strings hold the same characters.
pub fn str_eq(a: &str, b: &str) -> (r: bool)
    ensures
        r == (a@ == b@),
{
    let x = chars_of(a);
    let y = chars_of(b);
    chars_equal(&x, &y)
}

/// A fresh `String` equal to `s`.
pub fn to_owned_string(s: &str) -> (r: String)
    ensures
        r@ == s@,
{
    let mut r = String::new();
    r.push_str(s);
    r
}

/// The decimal digits of `n`, most significant first, without leading zeros
/// (a single `0` for zero).
pub open spec fn decimal_digits(n: nat) -> Seq<char>
    decreases n,
{
    if n < 10 {
        seq![digit_char((n % 10) as nat)]
    } else {
        decimal_digits(n / 10).push(digit_char((n % 10) as nat))
    }
}

/// The ASCII digit for a value below ten.
pub open spec fn digit_char(d: nat) -> char {
    if d == 0 { '0' }
    else if d == 1 { '1' }
    else if d == 2 { '2' }
    else if d == 3 { '3' }
    else if d == 4 { '4' }
    else if d == 5 { '5' }
    else if d == 6 { '6' }
    else if d == 7 { '7' }
    else if d == 8 { '8' }
    else { '9' }
}

fn exec_digit_char(d: u64) -> (c: char)
    requires
        d < 10,
    ensures
        c == digit_char(d as nat),
{
    if d == 0 { '0' }
    else if d == 1 { '1' }
    else if d == 2 { '2' }
    else if d == 3 { '3' }
    else if d == 4 { '4' }
    else if d == 5 { '5' }
    else if d == 6 { '6' }
    else if d == 7 { '7' }
    else if d == 8 { '8' }
    else { '9' }
}

/// Appends the decimal rendering of `n` to `out`.
pub fn push_decimal(out: &mut String, n: u64)
    ensures
        final(out)@ == old(out)@ + decimal_digits(n as nat),
    decreases n,
{
    if n < 10 {
        out.push(exec_digit_char(n));
        assert(decimal_digits(n as nat) == seq![digit_char(n as nat)]);
    } else {
        push_decimal(out, n / 10);
        out.push(exec_digit_char(n % 10));
        assert(old(out)@ + decimal_digits(n as nat) == old(out)@ + decimal_digits((n / 10) as nat) + seq![digit_char((n % 10) as nat)]);
    }
}

/// The decimal rendering of `n`.
pub fn decimal(n: u64) -> (s: String)
    ensures
        s@ == decimal_digits(n as nat),
{
    let mut s = String::new();
    push_decimal(&mut s, n);
    assert(s@ == Seq::<char>::empty() + decimal_digits(n as nat));
    s
}

/// `true` exactly for the characters with the Unicode `White_Space` property,
/// which is what `char::is_whitespace` and `str::trim` go by.
pub open spec fn is_white_space(c: char) -> bool {
    ||| ('\u{9}' <= c && c <= '\u{d}')
    ||| c == ' '
    ||| c == '\u{85}'
    ||| c == '\u{a0}'
    ||| c == '\u{1680}'
    ||| ('\u{2000}' <= c && c <= '\u{200a}')
    ||| c == '\u{2028}'
    ||| c == '\u{2029}'
    ||| c == '\u{202f}'
    ||| c == '\u{205f}'
    ||| c == '\u{3000}'
}

/// Executable form of [`is_white_space`].
pub fn white_space(c: char) -> (b: bool)
    ensures
        b == is_white_space(c),
{
    ('\u{9}' <= c && c <= '\u{d}') || c == ' ' || c == '\u{85}' || c == '\u{a0}'
        || c == '\u{1680}' || ('\u{2000}' <= c && c <= '\u{200a}') || c == '\u{2028}'
        || c == '\u{2029}' || c == '\u{202f}' || c == '\u{205f}' || c == '\u{3000}'
}

/// Index of the first character of `s` that is not white space (or its length).
pub open spec fn trim_start_index(s: Seq<char>, i: int) -> int
    decreases s.len() - i,
{
    if i >= s.len() || !is_white_space(s[i]) { i } else { trim_start_index(s, i + 1) }
}

/// One past the last character of `s[..j]` that is not white space.
pub open spec fn trim_end_index(s: Seq<char>, j: int) -> int
    decreases j,
{
    if j <= 0 || !is_white_space(s[j - 1]) { j } else { trim_end_index(s, j - 1) }
}

/// `s` without leading and trailing white space (what `str::trim` returns).
pub open spec fn trimmed(s: Seq<char>) -> Seq<char> {
    let a = trim_start_index(s, 0);
    let b = trim_end_index(s, s.len() as int);
    if a < b { s.subrange(a, b) } else { Seq::empty() }
}

proof fn lemma_trim_start_bounds(s: Seq<char>, i: int)
    requires
        0 <= i <= s.len(),
    ensures
        i <= trim_start_index(s, i) <= s.len(),
        forall|k: int| i <= k < trim_start_index(s, i) ==> is_white_space(#[trigger] s[k]),
        trim_start_index(s, i) < s.len() ==> !is_white_space(s[trim_start_index(s, i)]),
    decreases s.len() - i,
{
    if i < s.len() && is_white_space(s[i]) {
        lemma_trim_start_bounds(s, i + 1);
    }
}

proof fn lemma_trim_end_bounds(s: Seq<char>, j: int)
    requires
        0 <= j <= s.len(),
    ensures
        0 <= trim_end_index(s, j) <= j,
    decreases j,
{
    if j > 0 && is_white_space(s[j - 1]) {
        lemma_trim_end_bounds(s, j - 1);
    }
}

/// The trimmed text is empty exactly when every character is white space.
pub proof fn lemma_trimmed_empty_iff(s: Seq<char>)
    ensures
        (trimmed(s).len() == 0) == (forall|k: int| 0 <= k < s.len() ==> is_white_space(#[trigger] s[k])),
{
    lemma_trim_start_bounds(s, 0);
    lemma_trim_end_bounds(s, s.len() as int);
    let a = trim_start_index(s, 0);
    if exists|k: int| 0 <= k < s.len() && !is_white_space(#[trigger] s[k]) {
        let k = choose|k: int| 0 <= k < s.len() && !is_white_space(#[trigger] s[k]);
        assert(a <= k);
        lemma_trim_end_not_below(s, s.len() as int, k);
    }
}

proof fn lemma_trim_end_not_below(s: Seq<char>, j: int, a: int)
    requires
        0 <= a < j <= s.len(),
        !is_white_space(s[a]),
    ensures
        trim_end_index(s, j) > a,
    decreases j,
{
    if is_white_space(s[j - 1]) {
        lemma_trim_end_not_below(s, j - 1, a);
    }
}

/// `v` without leading and trailing white space.
pub fn trim_chars(v: &Vec<char>) -> (s: String)
    ensures
        s@ == trimmed(v@),
{
    let mut a: usize = 0;
    while a < v.len() && white_space(v[a])
        invariant
            a <= v.len(),
            trim_start_index(v@, a as int) == trim_start_index(v@, 0),
        decreases v.len() - a,
    {
        a = a + 1;
    }
    let mut b: usize = v.len();
    while b > 0 && white_space(v[b - 1])
        invariant
            b <= v.len(),
            trim_end_index(v@, b as int) == trim_end_index(v@, v@.len() as int),
        decreases b,
    {
        b = b - 1;
    }
    if a < b {
        string_from_range(v, a, b)
    } else {
        String::new()
    }
}

/// `s` repeated `n` times.
pub open spec fn repeat_seq(s: Seq<char>, n: nat) -> Seq<char>
    decreases n,
{
    if n == 0 { Seq::empty() } else { repeat_seq(s, (n - 1) as nat) + s }
}

/// Appends `n` copies of `s` to `out`.
pub fn push_repeated(out: &mut String, s: &str, n: usize)
    ensures
        final(out)@ == old(out)@ + repeat_seq(s@, n as nat),
{
    let mut i: usize = 0;
    while i < n
        invariant
            i <= n,
            out@ == old(out)@ + repeat_seq(s@, i as nat),
        decreases n - i,
    {
        out.push_str(s);
        i = i + 1;
        assert(out@ == old(out)@ + repeat_seq(s@, i as nat));
    }
}

} // verus!

verus! {

/// A copy of `v[from..to]`.
pub fn vec_range(v: &Vec<char>, from: usize, to: usize) -> (r: Vec<char>)
    requires
        from <= to <= v.len(),
    ensures
        r@ == v@.subrange(from as int, to as int),
{
    let mut r: Vec<char> = Vec::new();
    let mut i: usize = from;
    while i < to
        invariant
            from <= i <= to <= v.len(),
            r@ == v@.subrange(from as int, i as int),
        decreases to - i,
    {
        r.push(v[i]);
        i = i + 1;
        assert(r@ == v@.subrange(from as int, i as int));
    }
    r
}


/// Index of the first `'\n'` at or after `i` (or the length).
pub open spec fn newline_at_or_after(s: Seq<char>, i: int) -> int
    decreases s.len() - i,
{
    if i >= s.len() || s[i] == '\n' { i } else { newline_at_or_after(s, i + 1) }
}

/// The lines of `s` from index `i`, as `str::lines` yields them: split at
/// `'\n'`, a `'\r'` before the `'\n'` dropped, no empty line after a final
/// `'\n'`.
pub open spec fn lines_from(s: Seq<char>, i: int) -> Seq<Seq<char>>
    decreases s.len() - i,
{
    if i < 0 || i >= s.len() {
        Seq::empty()
    } else {
        let e = newline_at_or_after(s, i);
        proof {
            lemma_newline_bounds(s, i);
        }
        let raw = s.subrange(i, e);
        let line = if e < s.len() && raw.len() > 0 && raw.last() == '\r' { raw.drop_last() } else { raw };
        if e < s.len() {
            seq![line] + lines_from(s, e + 1)
        } else {
            seq![line]
        }
    }
}

/// The lines of `s`.
pub open spec fn lines_of(s: Seq<char>) -> Seq<Seq<char>> {
    lines_from(s, 0)
}

pub proof fn lemma_newline_bounds(s: Seq<char>, i: int)
    requires
        0 <= i <= s.len(),
    ensures
        i <= newline_at_or_after(s, i) <= s.len(),
        newline_at_or_after(s, i) < s.len() ==> s[newline_at_or_after(s, i)] == '\n',
        forall|k: int| i <= k < newline_at_or_after(s, i) ==> #[trigger] s[k] != '\n',
    decreases s.len() - i,
{
    if i < s.len() && s[i] != '\n' {
        lemma_newline_bounds(s, i + 1);
    }
}

/// The lines of `v`, each as a `String`.
pub fn lines_vec(v: &Vec<char>) -> (r: Vec<String>)
    ensures
        r@.len() == lines_of(v@).len(),
        forall|k: int| 0 <= k < r@.len() ==> (#[trigger] r@[k])@ == lines_of(v@)[k],
{
    let mut r: Vec<String> = Vec::new();
    let mut i: usize = 0;
    while i < v.len()
        invariant
            i <= v@.len(),
            lines_of(v@) == r@.map_values(|x: String| x@) + lines_from(v@, i as int),
        decreases v@.len() - i,
    {
        let mut e: usize = i;
        while e < v.len() && v[e] != '\n'
            invariant
                i <= e <= v@.len(),
                newline_at_or_after(v@, e as int) == newline_at_or_after(v@, i as int),
            decreases v@.len() - e,
        {
            e = e + 1;
        }
        let ghost rv = r@.map_values(|x: String| x@);
        let stop = if e < v.len() && e > i && v[e - 1] == '\r' { e - 1 } else { e };
        let line = string_from_range(v, i, stop);
        proof {
            let raw = v@.subrange(i as int, e as int);
            if e < v@.len() && e > i && v@[e - 1] == '\r' {
                assert(raw.drop_last() == v@.subrange(i as int, stop as int));
            }
        }
        r.push(line);
        proof {
            assert(r@.map_values(|x: String| x@) == rv.push(line@));
        }
        if e < v.len() {
            proof {
                assert(lines_from(v@, i as int) == seq![line@] + lines_from(v@, e + 1));
                assert(rv + (seq![line@] + lines_from(v@, e + 1)) == rv.push(line@) + lines_from(v@, e + 1));
            }
            i = e + 1;
        } else {
            proof {
                assert(lines_from(v@, i as int) == seq![line@]);
                assert(lines_from(v@, v@.len() as int) == Seq::<Seq<char>>::empty());
                assert(rv + seq![line@] == rv.push(line@) + Seq::<Seq<char>>::empty());
            }
            i = e;
        }
    }
    proof {
        assert(lines_from(v@, i as int) == Seq::<Seq<char>>::empty());
        assert(r@.map_values(|x: String| x@) + Seq::<Seq<char>>::empty() == r@.map_values(|x: String| x@));
        assert forall|k: int| 0 <= k < r@.len() implies (#[trigger] r@[k])@ == lines_of(v@)[k] by {
            assert(r@.map_values(|x: String| x@)[k] == r@[k]@);
        }
    }
    r
}

/// `n` in decimal, right-aligned in a field of `width` characters.
pub open spec fn pad_left(d: Seq<char>, width: nat) -> Seq<char> {
    if d.len() >= width { d } else { repeat_seq(seq![' '], (width - d.len()) as nat) + d }
}

/// Appends `n` right-aligned to `width` columns.
pub fn push_decimal_padded(out: &mut String, n: u64, width: usize)
    ensures
        final(out)@ == old(out)@ + pad_left(decimal_digits(n as nat), width as nat),
{
    proof {
        reveal_strlit(" ");
    }
    let d = decimal(n);
    let len = chars_of(d.as_str()).len();
    if len < width {
        push_repeated(out, " ", width - len);
        proof {
            assert(" "@ == seq![' ']);
        }
    }
    out.push_str(d.as_str());
}

/// `n` in decimal, with a leading `-` when negative.
pub open spec fn int_text(n: int) -> Seq<char> {
    if n < 0 { seq!['-'] + decimal_digits((-n) as nat) } else { decimal_digits(n as nat) }
}

/// Appends [`int_text`] of `n`.
pub fn push_i64(out: &mut String, n: i64)
    ensures
        final(out)@ == old(out)@ + int_text(n as int),
{
    if n < 0 {
        out.push('-');
        let m: u64 = if n == i64::MIN { 9223372036854775808u64 } else { (0 - n) as u64 };
        push_decimal(out, m);
    } else {
        push_decimal(out, n as u64);
    }
}

/// Whether `pat` occurs in `s` at index `i`.
pub open spec fn occurs_at(s: Seq<char>, pat: Seq<char>, i: int) -> bool {
    0 <= i && i + pat.len() <= s.len() && s.subrange(i, i + pat.len()) == pat
}

/// `s[i..]` with each non-overlapping occurrence of a non-empty `pat`,
/// scanning left to right, replaced by `rep`.
pub open spec fn replace_from(s: Seq<char>, pat: Seq<char>, rep: Seq<char>, i: int) -> Seq<char>
    decreases s.len() - i,
{
    if i < 0 || i >= s.len() {
        Seq::empty()
    } else if pat.len() > 0 && occurs_at(s, pat, i) {
        rep + replace_from(s, pat, rep, i + pat.len())
    } else {
        seq![s[i]] + replace_from(s, pat, rep, i + 1)
    }
}

/// `rep` before, between and after the characters of `s`.
pub open spec fn interleave(s: Seq<char>, rep: Seq<char>) -> Seq<char>
    decreases s.len(),
{
    if s.len() == 0 { rep } else { interleave(s.drop_last(), rep) + seq![s.last()] + rep }
}

/// What `str::replace` returns: every non-overlapping occurrence of `pat`,
/// left to right, replaced by `rep`; an empty `pat` matches before each
/// character and at the end.
pub open spec fn replace_all(s: Seq<char>, pat: Seq<char>, rep: Seq<char>) -> Seq<char> {
    if pat.len() == 0 { interleave(s, rep) } else { replace_from(s, pat, rep, 0) }
}

/// Whether `pat` occurs in `v` at `i`.
pub fn occurs_at_exec(v: &Vec<char>, pat: &Vec<char>, i: usize) -> (b: bool)
    requires
        i <= v@.len(),
    ensures
        b == occurs_at(v@, pat@, i as int),
{
    if pat.len() > v.len() - i {
        return false;
    }
    let n = v.len();
    let mut k: usize = 0;
    while k < pat.len()
        invariant
            k <= pat@.len(),
            n == v@.len(),
            i + pat@.len() <= n,
            forall|m: int| 0 <= m < k ==> v@[i + m] == pat@[m],
        decreases pat@.len() - k,
    {
        if v[i + k] != pat[k] {
            proof {
                assert(v@.subrange(i as int, i + pat@.len())[k as int] != pat@[k as int]);
            }
            return false;
        }
        k = k + 1;
    }
    proof {
        assert(v@.subrange(i as int, i + pat@.len()) =~= pat@);
    }
    true
}

/// `s` with every occurrence of `pat` replaced by `rep`, as `str::replace` does.
pub fn replace_all_str(s: &str, pat: &str, rep: &str) -> (r: String)
    ensures
        r@ == replace_all(s@, pat@, rep@),
{
    let v = chars_of(s);
    let p = chars_of(pat);
    let mut out = String::new();
    if p.len() == 0 {
        out.push_str(rep);
        let mut i: usize = 0;
        while i < v.len()
            invariant
                i <= v@.len(),
                v@ == s@,
                out@ == interleave(v@.take(i as int), rep@),
            decreases v@.len() - i,
        {
            proof {
                assert(v@.take(i + 1).drop_last() == v@.take(i as int));
            }
            out.push(v[i]);
            out.push_str(rep);
            i = i + 1;
        }
        proof {
            assert(v@.take(v@.len() as int) == v@);
        }
        return out;
    }
    let mut i: usize = 0;
    while i < v.len()
        invariant
            i <= v@.len(),
            v@ == s@,
            p@ == pat@,
            p@.len() > 0,
            replace_from(v@, p@, rep@, 0) == out@ + replace_from(v@, p@, rep@, i as int),
        decreases v@.len() - i,
    {
        let ghost old_out = out@;
        if occurs_at_exec(&v, &p, i) {
            out.push_str(rep);
            proof {
                assert(replace_from(v@, p@, rep@, i as int) == rep@ + replace_from(v@, p@, rep@, i + p@.len()));
                let rest = replace_from(v@, p@, rep@, i + p@.len());
                assert(old_out + (rep@ + rest) =~= (old_out + rep@) + rest);
            }
            i = i + p.len();
        } else {
            out.push(v[i]);
            proof {
                let rest = replace_from(v@, p@, rep@, i + 1);
                assert(replace_from(v@, p@, rep@, i as int) == seq![v@[i as int]] + rest);
                assert(old_out + (seq![v@[i as int]] + rest) =~= old_out.push(v@[i as int]) + rest);
            }
            i = i + 1;
        }
    }
    proof {
        assert(replace_from(v@, p@, rep@, i as int) == Seq::<char>::empty());
    }
    out
}

/// Whether `sub` occurs in `s` (an empty `sub` always does), as `str::contains`.
pub open spec fn contains_seq(s: Seq<char>, sub: Seq<char>) -> bool {
    exists|i: int| 0 <= i && i + sub.len() <= s.len() && #[trigger] occurs_at(s, sub, i)
}

/// [`contains_seq`] for executable code.
pub fn contains_str(s: &str, sub: &str) -> (b: bool)
    ensures
        b == contains_seq(s@, sub@),
{
    let v = chars_of(s);
    let p = chars_of(sub);
    if p.len() > v.len() {
        return false;
    }
    let last = v.len() - p.len();
    let mut i: usize = 0;
    loop
        invariant
            v@ == s@,
            p@ == sub@,
            last == v@.len() - p@.len(),
            i <= last,
            forall|k: int| 0 <= k < i ==> !occurs_at(v@, p@, k),
        ensures
            forall|k: int| 0 <= k <= last ==> !occurs_at(v@, p@, k),
        decreases last - i,
    {
        if occurs_at_exec(&v, &p, i) {
            return true;
        }
        if i == last {
            break;
        }
        i = i + 1;
    }
    false
}

/// Whether `s` starts with `pre`.
pub open spec fn starts_with(s: Seq<char>, pre: Seq<char>) -> bool {
    pre.len() <= s.len() && s.take(pre.len() as int) == pre
}
} // verus!
