//! Reading numbers from text, following the grammars that the standard
//! library documents for `i64`, `u16` and `f64` (`FromStr`).

use vstd::prelude::*;
use crate::chars::{digit, is_digit};
use crate::text::{decimal_digits, digit_char, int_text};

verus! {

/// All characters are ASCII digits and there is at least one.
pub open spec fn all_digits(s: Seq<char>) -> bool {
    s.len() > 0 && forall|i: int| 0 <= i < s.len() ==> is_digit(#[trigger] s[i])
}

/// The value of a digit character.
pub open spec fn digit_value(c: char) -> nat {
    if c == '1' { 1 }
    else if c == '2' { 2 }
    else if c == '3' { 3 }
    else if c == '4' { 4 }
    else if c == '5' { 5 }
    else if c == '6' { 6 }
    else if c == '7' { 7 }
    else if c == '8' { 8 }
    else if c == '9' { 9 }
    else { 0 }
}

/// Executable [`digit_value`].
pub fn digit_val(c: char) -> (d: u64)
    ensures
        d == digit_value(c),
        d <= 9,
{
    if c == '1' { 1 }
    else if c == '2' { 2 }
    else if c == '3' { 3 }
    else if c == '4' { 4 }
    else if c == '5' { 5 }
    else if c == '6' { 6 }
    else if c == '7' { 7 }
    else if c == '8' { 8 }
    else if c == '9' { 9 }
    else { 0 }
}

/// The value of a run of decimal digits, most significant first.
pub open spec fn digits_value(s: Seq<char>) -> nat
    decreases s.len(),
{
    if s.len() == 0 {
        0
    } else {
        digits_value(s.drop_last()) * 10 + digit_value(s.last())
    }
}

/// An optionally signed run of digits and its value, as `i64::from_str`
/// reads it before the range check.
pub open spec fn signed_digits(s: Seq<char>) -> Option<int> {
    if s.len() > 0 && (s[0] == '+' || s[0] == '-') {
        if all_digits(s.drop_first()) {
            Some(if s[0] == '-' { -(digits_value(s.drop_first()) as int) } else { digits_value(s.drop_first()) as int })
        } else {
            None
        }
    } else if all_digits(s) {
        Some(digits_value(s) as int)
    } else {
        None
    }
}

/// What `i64::from_str` returns: the value when the text is an optionally
/// signed run of digits whose value fits.
pub open spec fn i64_of(s: Seq<char>) -> Option<i64> {
    match signed_digits(s) {
        Some(v) => if i64::MIN <= v <= i64::MAX { Some(v as i64) } else { None },
        None => None,
    }
}

/// What `u16::from_str` returns: an optional `+`, then digits whose value fits.
pub open spec fn u16_of(s: Seq<char>) -> Option<u16> {
    let body = if s.len() > 0 && s[0] == '+' { s.drop_first() } else { s };
    if all_digits(body) && digits_value(body) <= u16::MAX {
        Some(digits_value(body) as u16)
    } else {
        None
    }
}

/// The decimal text of `n` is a run of digits whose value is `n`.
pub proof fn lemma_decimal_digits_value(n: nat)
    ensures
        all_digits(decimal_digits(n)),
        digits_value(decimal_digits(n)) == n,
    decreases n,
{
    let d = (n % 10) as nat;
    assert(digit_value(digit_char(d)) == d && is_digit(digit_char(d))) by {
        assert(d < 10);
    }
    if n >= 10 {
        lemma_decimal_digits_value(n / 10);
        let s = decimal_digits(n);
        assert(s.drop_last() =~= decimal_digits(n / 10));
        assert(s.last() == digit_char(d));
        assert forall|i: int| 0 <= i < s.len() implies is_digit(#[trigger] s[i]) by {
            if i < s.len() - 1 {
                assert(s[i] == decimal_digits(n / 10)[i]);
            }
        }
        assert((n / 10) * 10 + d == n);
    } else {
        assert(decimal_digits(n).drop_last().len() == 0);
        assert(digits_value(decimal_digits(n).drop_last()) == 0);
    }
}

/// Different integers have different decimal texts.
pub proof fn lemma_int_text_injective(a: int, b: int)
    ensures
        int_text(a) == int_text(b) ==> a == b,
{
    if int_text(a) == int_text(b) {
        if a < 0 {
            lemma_decimal_digits_value((-a) as nat);
        } else {
            lemma_decimal_digits_value(a as nat);
        }
        if b < 0 {
            lemma_decimal_digits_value((-b) as nat);
        } else {
            lemma_decimal_digits_value(b as nat);
        }
        if a < 0 && b < 0 {
            assert(int_text(a).drop_first() =~= decimal_digits((-a) as nat));
            assert(int_text(b).drop_first() =~= decimal_digits((-b) as nat));
        } else if a < 0 {
            assert(int_text(a)[0] == '-');
            assert(is_digit(decimal_digits(b as nat)[0]));
        } else if b < 0 {
            assert(int_text(b)[0] == '-');
            assert(is_digit(decimal_digits(a as nat)[0]));
        }
    }
}

/// The decimal text of an integer reads back as that integer, and has no
/// decimal point.
pub proof fn lemma_int_text_reads_back(n: i64)
    ensures
        i64_of(int_text(n as int)) == Some(n),
        !int_text(n as int).contains('.'),
{
    let t = int_text(n as int);
    if n < 0 {
        let m = (-(n as int)) as nat;
        lemma_decimal_digits_value(m);
        assert(t.drop_first() =~= decimal_digits(m));
        assert(t[0] == '-');
        assert forall|i: int| 0 <= i < t.len() implies t[i] != '.' by {
            if i > 0 {
                assert(t[i] == decimal_digits(m)[i - 1]);
                assert(is_digit(decimal_digits(m)[i - 1]));
            }
        }
    } else {
        lemma_decimal_digits_value(n as nat);
        assert(is_digit(t[0]));
        assert forall|i: int| 0 <= i < t.len() implies t[i] != '.' by {
            assert(is_digit(t[i]));
        }
    }
}

proof fn lemma_digits_value_step(s: Seq<char>, k: int)
    requires
        0 <= k < s.len(),
    ensures
        digits_value(s.take(k + 1)) == digits_value(s.take(k)) * 10 + digit_value(s[k]),
{
    assert(s.take(k + 1).drop_last() == s.take(k));
}

proof fn lemma_digits_value_grows(s: Seq<char>, k: int)
    requires
        0 <= k <= s.len(),
    ensures
        digits_value(s.take(k)) <= digits_value(s),
    decreases s.len() - k,
{
    if k < s.len() {
        lemma_digits_value_step(s, k);
        lemma_digits_value_grows(s, k + 1);
    } else {
        assert(s.take(k) == s);
    }
}

/// Reads the digits of `v[from..]`: `None` when a character is not a digit,
/// when there are none, or when the value exceeds `limit`.
pub(crate) fn read_digits(v: &Vec<char>, from: usize, limit: u64) -> (r: Option<u64>)
    requires
        from <= v.len(),
        limit >= 9,
    ensures
        match r {
            Some(n) => all_digits(v@.skip(from as int)) && n == digits_value(v@.skip(from as int)) && n <= limit,
            None => !all_digits(v@.skip(from as int)) || digits_value(v@.skip(from as int)) > limit,
        },
{
    let ghost body = v@.skip(from as int);
    if from >= v.len() {
        return None;
    }
    let mut acc: u64 = 0;
    let mut i: usize = from;
    while i < v.len()
        invariant
            from <= i <= v.len(),
            body == v@.skip(from as int),
            acc == digits_value(body.take(i - from)),
            acc <= limit,
            limit >= 9,
            forall|j: int| 0 <= j < i - from ==> is_digit(#[trigger] body[j]),
        decreases v.len() - i,
    {
        let c = v[i];
        assert(body[i - from] == c);
        if !digit(c) {
            return None;
        }
        proof { lemma_digits_value_step(body, i - from); }
        let d = digit_val(c);
        if acc > (limit - d) / 10 {
            proof {
                lemma_digits_value_grows(body, i - from + 1);
                assert(acc * 10 + d > limit) by (nonlinear_arith)
                    requires acc > (limit - d) / 10, d <= 9, d <= limit || true;
            }
            return None;
        }
        proof {
            assert(acc * 10 + d <= limit) by (nonlinear_arith)
                requires acc <= (limit - d) / 10, d <= 9;
        }
        acc = acc * 10 + d;
        i = i + 1;
    }
    assert(body.take(i - from) == body);
    Some(acc)
}

/// `i64::from_str` on the characters of `v`.
pub fn parse_i64(v: &Vec<char>) -> (r: Option<i64>)
    ensures
        r == i64_of(v@),
{
    if v.len() > 0 && (v[0] == '+' || v[0] == '-') {
        assert(v@.skip(1) == v@.drop_first());
        let negative = v[0] == '-';
        let limit: u64 = if negative { 0x8000_0000_0000_0000 } else { 0x7fff_ffff_ffff_ffff };
        match read_digits(v, 1, limit) {
            Some(n) => {
                if negative {
                    if n == 0x8000_0000_0000_0000 {
                        Some(i64::MIN)
                    } else {
                        Some(-(n as i64))
                    }
                } else {
                    Some(n as i64)
                }
            },
            None => None,
        }
    } else {
        assert(v@.skip(0) == v@);
        match read_digits(v, 0, 0x7fff_ffff_ffff_ffff) {
            Some(n) => Some(n as i64),
            None => None,
        }
    }
}

/// `u16::from_str` on the characters of `v`.
pub fn parse_u16(v: &Vec<char>) -> (r: Option<u16>)
    ensures
        r == u16_of(v@),
{
    let from: usize = if v.len() > 0 && v[0] == '+' { 1 } else { 0 };
    assert(v@.skip(1) == v@.drop_first());
    assert(v@.skip(0) == v@);
    match read_digits(v, from, 0xffff) {
        Some(n) => Some(n as u16),
        None => None,
    }
}

/// End of the run of digits starting at `i`.
pub open spec fn digit_run(s: Seq<char>, i: int) -> int
    decreases s.len() - i,
{
    if i < 0 || i >= s.len() || !is_digit(s[i]) { i } else { digit_run(s, i + 1) }
}

/// Lower-cases ASCII letters; other characters are unchanged.
pub open spec fn ascii_lower(c: char) -> char {
    if 'A' <= c && c <= 'Z' { ((c as u8) + 32) as char } else { c }
}

/// ASCII-case-insensitive equality.
pub open spec fn equal_ignoring_ascii_case(a: Seq<char>, b: Seq<char>) -> bool {
    a.len() == b.len() && forall|i: int| 0 <= i < a.len() ==> ascii_lower(#[trigger] a[i]) == ascii_lower(b[i])
}

/// The decimal part of the `f64` grammar: digits with an optional `.` and
/// at least one digit on some side, then an optional exponent.
pub open spec fn decimal_float_body(b: Seq<char>) -> bool {
    let i1 = digit_run(b, 0);
    let i2 = if i1 < b.len() && b[i1] == '.' { digit_run(b, i1 + 1) } else { i1 };
    let frac = if i1 < b.len() && b[i1] == '.' { i2 - (i1 + 1) } else { 0 };
    &&& (i1 > 0 || frac > 0)
    &&& (i2 == b.len() || {
        &&& (b[i2] == 'e' || b[i2] == 'E')
        &&& {
            let j = if i2 + 1 < b.len() && (b[i2 + 1] == '+' || b[i2 + 1] == '-') { i2 + 2 } else { i2 + 1 };
            j < b.len() && digit_run(b, j) == b.len()
        }
    })
}

/// Whether `f64::from_str` accepts `s`: an optional sign, then `inf`,
/// `infinity`, `nan` (any ASCII case) or a decimal number with an optional
/// exponent.
pub open spec fn float_text(s: Seq<char>) -> bool {
    let b = if s.len() > 0 && (s[0] == '+' || s[0] == '-') { s.drop_first() } else { s };
    ||| equal_ignoring_ascii_case(b, "inf"@)
    ||| equal_ignoring_ascii_case(b, "infinity"@)
    ||| equal_ignoring_ascii_case(b, "nan"@)
    ||| decimal_float_body(b)
}

pub(crate) fn digit_run_exec(v: &Vec<char>, from: usize) -> (e: usize)
    requires
        from <= v.len(),
    ensures
        e == digit_run(v@, from as int),
        from <= e <= v.len(),
{
    let mut i = from;
    while i < v.len() && digit(v[i])
        invariant
            from <= i <= v.len(),
            digit_run(v@, i as int) == digit_run(v@, from as int),
        decreases v.len() - i,
    {
        i = i + 1;
    }
    i
}

fn lower(c: char) -> (r: char)
    ensures
        r == ascii_lower(c),
{
    if 'A' <= c && c <= 'Z' {
        ((c as u8) + 32) as char
    } else {
        c
    }
}

fn equals_ignoring_ascii_case(v: &Vec<char>, from: usize, word: &str) -> (r: bool)
    requires
        from <= v.len(),
    ensures
        r == equal_ignoring_ascii_case(v@.skip(from as int), word@),
{
    let w = crate::text::chars_of(word);
    if v.len() - from != w.len() {
        return false;
    }
    let mut i: usize = 0;
    while i < w.len()
        invariant
            v.len() - from == w@.len(),
            w@ == word@,
            from <= v.len(),
            i <= w.len(),
            forall|j: int| 0 <= j < i ==> ascii_lower(#[trigger] v@.skip(from as int)[j]) == ascii_lower(w@[j]),
        decreases w.len() - i,
    {
        assert(v@.skip(from as int)[i as int] == v@[from + i]);
        if lower(v[from + i]) != lower(w[i]) {
            return false;
        }
        i = i + 1;
    }
    true
}

/// Whether `f64::from_str` accepts the characters of `v`.
pub fn is_float_text(v: &Vec<char>) -> (r: bool)
    ensures
        r == float_text(v@),
{
    let from: usize = if v.len() > 0 && (v[0] == '+' || v[0] == '-') { 1 } else { 0 };
    let ghost b = if v@.len() > 0 && (v@[0] == '+' || v@[0] == '-') { v@.drop_first() } else { v@ };
    assert(b == v@.skip(from as int));
    if equals_ignoring_ascii_case(v, from, "inf") || equals_ignoring_ascii_case(v, from, "infinity")
        || equals_ignoring_ascii_case(v, from, "nan") {
        return true;
    }
    let body = crate::text::vec_range(v, from, v.len());
    assert(body@ == b);
    let i1 = digit_run_exec(&body, 0);
    let (i2, frac) = if i1 < body.len() && body[i1] == '.' {
        let e = digit_run_exec(&body, i1 + 1);
        (e, e - (i1 + 1))
    } else {
        (i1, 0)
    };
    if !(i1 > 0 || frac > 0) {
        return false;
    }
    if i2 == body.len() {
        return true;
    }
    if !(body[i2] == 'e' || body[i2] == 'E') {
        return false;
    }
    let j = if i2 + 1 < body.len() && (body[i2 + 1] == '+' || body[i2 + 1] == '-') { i2 + 2 } else { i2 + 1 };
    j < body.len() && digit_run_exec(&body, j) == body.len()
}

} // verus!
