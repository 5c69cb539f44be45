//! The context-sensitive lexer.
//!
//! Positions in spans are byte offsets into the source; the lexer walks the
//! source character by character and keeps the byte offset in step.

use vstd::prelude::*;
use crate::chars::{
    alpha, byte_len, char_width, digit, is_alpha, is_digit, is_key_char, is_word_char, key_char,
    lemma_byte_len_is_encoding_len, lemma_byte_len_take_le, lemma_byte_len_take_mono, lemma_byte_len_take_step, word_char,
};
use crate::context::{ContextStateMachine, LexerContext};
use crate::span::Span;
use crate::text::{chars_of, string_from_chars, string_from_range, to_owned_string, trim_chars, trimmed, vec_range};
use crate::token::{Operator, Token};

verus! {

broadcast use vstd::string::group_string_axioms;

/// A lexical error with the location of the offending text.
#[derive(Debug, Clone)]
pub struct LexError {
    pub message: String,
    pub span: Span,
}

impl LexError {
    pub fn new(message: &str, span: Span) -> (e: LexError)
        ensures
            e.message@ == message@,
            e.span == span,
    {
        LexError { message: to_owned_string(message), span }
    }

    /// `message at line:column` (or `at unknown location`).
    pub fn describe(&self) -> (s: String)
        ensures
            s@ == self.message@ + seq![' ', 'a', 't', ' '] + crate::span::span_text(self.span),
    {
        let mut s = String::new();
        s.push_str(self.message.as_str());
        s.push_str(" at ");
        proof { reveal_strlit(" at "); }
        crate::span::push_span_text(&mut s, &self.span);
        s
    }
}

// ------------------------------------------------------------------ scanning specs

/// First index at or after `i` that is not a space or a tab.
pub open spec fn skip_blanks(s: Seq<char>, i: int) -> int
    decreases s.len() - i,
{
    if i >= s.len() || !(s[i] == ' ' || s[i] == '\t') { i } else { skip_blanks(s, i + 1) }
}

/// End of the run of bare-key characters starting at `i`.
pub open spec fn key_end(s: Seq<char>, i: int) -> int
    decreases s.len() - i,
{
    if i >= s.len() || !is_key_char(s[i]) { i } else { key_end(s, i + 1) }
}

/// End of the run of word characters starting at `i`.
pub open spec fn word_end(s: Seq<char>, i: int) -> int
    decreases s.len() - i,
{
    if i >= s.len() || !is_word_char(s[i]) { i } else { word_end(s, i + 1) }
}

/// First line break (`\n` or `\r`) at or after `i`, or the end.
pub open spec fn line_end(s: Seq<char>, i: int) -> int
    decreases s.len() - i,
{
    if i >= s.len() || s[i] == '\n' || s[i] == '\r' { i } else { line_end(s, i + 1) }
}

/// Index of the first `*/` at or after `i`, if any.
pub open spec fn block_close(s: Seq<char>, i: int) -> Option<int>
    decreases s.len() - i,
{
    if i >= s.len() {
        None
    } else if s[i] == '*' && i + 1 < s.len() && s[i + 1] == '/' {
        Some(i)
    } else {
        block_close(s, i + 1)
    }
}

/// What an escape `\e` inside a string stands for.
pub open spec fn unescape(e: char) -> Seq<char> {
    if e == 'n' {
        seq!['\n']
    } else if e == 't' {
        seq!['\t']
    } else if e == 'r' {
        seq!['\r']
    } else if e == '\\' {
        seq!['\\']
    } else if e == '"' {
        seq!['"']
    } else {
        seq!['\\', e]
    }
}

/// The body of a string literal whose opening quote is just before `i`:
/// the unescaped content and the index after the closing quote, or `None`
/// when the source ends first.
pub open spec fn scan_string(s: Seq<char>, i: int) -> Option<(Seq<char>, int)>
    decreases s.len() - i,
{
    if i >= s.len() || i < 0 {
        None
    } else if s[i] == '"' {
        Some((Seq::empty(), i + 1))
    } else if s[i] == '\\' {
        if i + 1 >= s.len() {
            None
        } else {
            match scan_string(s, i + 2) {
                Some((c, e)) => Some((unescape(s[i + 1]) + c, e)),
                None => None,
            }
        }
    } else {
        match scan_string(s, i + 1) {
            Some((c, e)) => Some((seq![s[i]] + c, e)),
            None => None,
        }
    }
}

/// A duration unit letter.
pub open spec fn is_unit_char(c: char) -> bool {
    c == 's' || c == 'm' || c == 'h' || c == 'd'
}

/// How far the digits-and-dot part of a number reaches from `i`, given
/// whether a dot was seen and where the number started; the flag tells
/// whether the scan stopped at a `-` right after four characters (the start
/// of a date).
pub open spec fn number_scan(s: Seq<char>, start: int, i: int, has_dot: bool) -> (int, bool)
    decreases s.len() - i,
{
    if i >= s.len() || i < start {
        (i, false)
    } else if is_digit(s[i]) {
        number_scan(s, start, i + 1, has_dot)
    } else if s[i] == '.' {
        if has_dot || (i + 1 < s.len() && s[i + 1] == '.') {
            (i, false)
        } else {
            number_scan(s, start, i + 1, true)
        }
    } else if s[i] == '-' && i - start == 4 {
        (i, true)
    } else {
        (i, false)
    }
}


/// How many digits, at most `max`, stand from `i` on.
pub open spec fn digits_from(s: Seq<char>, i: int, max: int) -> int
    decreases max,
{
    if max <= 0 || i < 0 || i >= s.len() || !is_digit(s[i]) {
        0
    } else {
        1 + digits_from(s, i + 1, max - 1)
    }
}

/// Where an optional time zone from `q` ends: `Z`, or a sign, up to two
/// digits, and optionally `:` and up to two digits.
pub open spec fn zone_end(s: Seq<char>, q: int) -> int {
    if 0 <= q < s.len() {
        if s[q] == 'Z' || s[q] == 'z' {
            q + 1
        } else if s[q] == '+' || s[q] == '-' {
            let b = q + 1 + digits_from(s, q + 1, 2);
            if b < s.len() && s[b] == ':' { b + 1 + digits_from(s, b + 1, 2) } else { b }
        } else {
            q
        }
    } else {
        q
    }
}

/// The time parts from `q`, `part` of three read already: each up to two
/// digits, the first two followed by an optional `:`, then a time zone.
/// Gives where it ends and whether it is still a date-time.
pub open spec fn time_scan(s: Seq<char>, q: int, part: int) -> (int, bool)
    decreases 3 - part,
{
    if part >= 3 {
        (zone_end(s, q), true)
    } else {
        let d = digits_from(s, q, 2);
        if d == 0 {
            (q, false)
        } else {
            let q1 = q + d;
            let q2 = if part < 2 && 0 <= q1 < s.len() && s[q1] == ':' { q1 + 1 } else { q1 };
            time_scan(s, q2, part + 1)
        }
    }
}

/// The rest of a date-time after `YYYY-` at `p`: `MM-DD`, then optionally
/// `T` and the time. Gives where it ends and whether it is a date-time (else
/// what was read is a number).
pub open spec fn datetime_scan(s: Seq<char>, p: int) -> (int, bool) {
    let q = p + digits_from(s, p, 2);
    if digits_from(s, p, 2) != 2 || q >= s.len() || s[q] != '-' {
        (q, false)
    } else {
        let q2 = q + 1 + digits_from(s, q + 1, 2);
        if digits_from(s, q + 1, 2) != 2 || q2 >= s.len() {
            (q2, false)
        } else if s[q2] == 'T' || s[q2] == 't' {
            time_scan(s, q2 + 1, 0)
        } else {
            (q2, true)
        }
    }
}

/// A number token or a date-time token spelled `text`, as `date` says.
pub open spec fn dated_token(r: Result<Token, LexError>, text: Seq<char>, date: bool) -> bool {
    if date {
        r matches Ok(Token::DateTimeLiteral(t)) && t@ == text
    } else {
        r matches Ok(Token::NumberLiteral(t)) && t@ == text
    }
}

/// The digits counted by [`digits_from`] are the ones a scan that stops at
/// `max`, at the end, or at a non-digit takes.
pub proof fn lemma_digits_from(s: Seq<char>, i: int, max: int, n: int)
    requires
        0 <= i,
        0 <= n <= max,
        i + n <= s.len(),
        forall|k: int| i <= k < i + n ==> is_digit(#[trigger] s[k]),
        n == max || i + n == s.len() || !is_digit(s[i + n]),
    ensures
        digits_from(s, i, max) == n,
    decreases n,
{
    if n > 0 {
        lemma_digits_from(s, i + 1, max - 1, n - 1);
    }
}

/// Counted digits lie inside the text.
pub proof fn lemma_digits_from_bounds(s: Seq<char>, i: int, max: int)
    requires
        0 <= i <= s.len(),
    ensures
        0 <= digits_from(s, i, max),
        max >= 0 ==> digits_from(s, i, max) <= max,
        i + digits_from(s, i, max) <= s.len(),
    decreases max,
{
    if max > 0 && i < s.len() && is_digit(s[i]) {
        lemma_digits_from_bounds(s, i + 1, max - 1);
    }
}

/// A bare key read from `i`: the maximal run of key characters, where the
/// word `merge` is the keyword.
pub open spec fn key_token_spec(s: Seq<char>, i: int, r: Result<Token, LexError>, end: int) -> bool {
    let e = key_end(s, i);
    &&& end == e
    &&& e > i
    &&& if s.subrange(i, e) == "merge"@ {
        r == Ok::<Token, LexError>(Token::Merge)
    } else {
        r matches Ok(Token::BareKey(t)) && t@ == s.subrange(i, e)
    }
}

/// A word read in value context: booleans and keywords, otherwise a bare key.
pub open spec fn word_token_spec(s: Seq<char>, i: int, r: Result<Token, LexError>, end: int) -> bool {
    let e = word_end(s, i);
    let w = s.subrange(i, e);
    &&& end == e
    &&& e > i
    &&& if w == "true"@ {
        r == Ok::<Token, LexError>(Token::BooleanLiteral(true))
    } else if w == "false"@ {
        r == Ok::<Token, LexError>(Token::BooleanLiteral(false))
    } else if w == "@include"@ {
        r == Ok::<Token, LexError>(Token::Include)
    } else if w == "merge"@ {
        r == Ok::<Token, LexError>(Token::Merge)
    } else {
        r matches Ok(Token::BareKey(t)) && t@ == w
    }
}

/// A numeric literal read from `i`: digits with at most one `.` (a `..`
/// ends the number), then an optional duration unit; a `-` after exactly
/// four characters starts a date, which is kept verbatim.
pub open spec fn number_token_spec(s: Seq<char>, i: int, r: Result<Token, LexError>, end: int) -> bool {
    let (j, dash) = number_scan(s, i, i, false);
    if dash {
        &&& end == datetime_scan(s, j + 1).0
        &&& dated_token(r, s.subrange(i, end), datetime_scan(s, j + 1).1)
    } else if j < s.len() && is_unit_char(s[j]) {
        &&& end == j + 1
        &&& r matches Ok(Token::DurationLiteral(t)) && t@ == s.subrange(i, j + 1)
    } else {
        &&& end == j
        &&& r matches Ok(Token::NumberLiteral(t)) && t@ == s.subrange(i, j)
    }
}

/// What the lexer produces for the token starting at `i` (after blanks),
/// and the index just after it.
pub open spec fn token_spec(s: Seq<char>, i: int, in_key: bool, r: Result<Token, LexError>, end: int) -> bool {
    if i >= s.len() {
        r == Ok::<Token, LexError>(Token::Eof) && end == i
    } else {
        let c = s[i];
        let has_next = i + 1 < s.len();
        if c == '\n' {
            r == Ok::<Token, LexError>(Token::Newline) && end == i + 1
        } else if c == '\r' {
            r == Ok::<Token, LexError>(Token::Newline) && end == (if has_next && s[i + 1] == '\n' { i + 2 } else { i + 1 })
        } else if c == '#' {
            if has_next && s[i + 1] == '@' {
                r == Ok::<Token, LexError>(Token::MetadataPrefix) && end == i + 2
            } else {
                &&& end == line_end(s, i + 1)
                &&& r matches Ok(Token::LineComment(t)) && t@ == trimmed(s.subrange(i + 1, line_end(s, i + 1)))
            }
        } else if c == '@' {
            &&& end == word_end(s, i + 1)
            &&& if s.subrange(i + 1, word_end(s, i + 1)) == "include"@ {
                r == Ok::<Token, LexError>(Token::Include)
            } else {
                r is Err
            }
        } else if c == '"' {
            match scan_string(s, i + 1) {
                Some((body, e)) => end == e && (r matches Ok(Token::StringLiteral(t)) && t@ == body),
                None => r is Err,
            }
        } else if c == '{' {
            r == Ok::<Token, LexError>(Token::LBrace) && end == i + 1
        } else if c == '}' {
            r == Ok::<Token, LexError>(Token::RBrace) && end == i + 1
        } else if c == '[' {
            if has_next && s[i + 1] == '[' {
                r == Ok::<Token, LexError>(Token::LDoubleBracket) && end == i + 2
            } else {
                r == Ok::<Token, LexError>(Token::LBracket) && end == i + 1
            }
        } else if c == ']' {
            if has_next && s[i + 1] == ']' {
                r == Ok::<Token, LexError>(Token::RDoubleBracket) && end == i + 2
            } else {
                r == Ok::<Token, LexError>(Token::RBracket) && end == i + 1
            }
        } else if c == '(' {
            r == Ok::<Token, LexError>(Token::LParen) && end == i + 1
        } else if c == ')' {
            r == Ok::<Token, LexError>(Token::RParen) && end == i + 1
        } else if c == '=' || c == ':' {
            r == Ok::<Token, LexError>(Token::Assign) && end == i + 1
        } else if c == ',' {
            r == Ok::<Token, LexError>(Token::Comma) && end == i + 1
        } else if c == '+' {
            r == Ok::<Token, LexError>(Token::Operator(Operator::Add)) && end == i + 1
        } else if c == '-' {
            if in_key {
                key_token_spec(s, i, r, end)
            } else {
                r == Ok::<Token, LexError>(Token::Operator(Operator::Subtract)) && end == i + 1
            }
        } else if c == '*' {
            r == Ok::<Token, LexError>(Token::Operator(Operator::Multiply)) && end == i + 1
        } else if c == '/' {
            if has_next && s[i + 1] == '*' {
                match block_close(s, i + 2) {
                    Some(k) => end == k + 2 && (r matches Ok(Token::BlockComment(t)) && t@ == s.subrange(i + 2, k)),
                    None => r is Err,
                }
            } else {
                r == Ok::<Token, LexError>(Token::Operator(Operator::Divide)) && end == i + 1
            }
        } else if c == '.' {
            if has_next && s[i + 1] == '.' {
                r == Ok::<Token, LexError>(Token::RangeOp) && end == i + 2
            } else {
                r == Ok::<Token, LexError>(Token::Dot) && end == i + 1
            }
        } else if is_digit(c) {
            number_token_spec(s, i, r, end)
        } else if is_alpha(c) || c == '_' {
            if in_key {
                key_token_spec(s, i, r, end)
            } else {
                word_token_spec(s, i, r, end)
            }
        } else {
            r is Err
        }
    }
}

/// Two readings of the token at `i` that both succeed end at the same place
/// and agree on whether the token is `=` and whether it is the end.
pub proof fn lemma_token_spec_unique(s: Seq<char>, i: int, k: bool, t1: Token, e1: int, t2: Token, e2: int)
    requires
        token_spec(s, i, k, Ok(t1), e1),
        token_spec(s, i, k, Ok(t2), e2),
    ensures
        e1 == e2,
        t1 is Assign <==> t2 is Assign,
        t1 is Eof <==> t2 is Eof,
{
}

/// Where the token at `i` cannot be read, no reading of it succeeds.
pub proof fn lemma_token_spec_error(s: Seq<char>, i: int, k: bool, x: LexError, e: int, t: Token, e2: int)
    requires
        token_spec(s, i, k, Err(x), e),
    ensures
        !token_spec(s, i, k, Ok(t), e2),
{
}

/// `toks` is what lexing `s` gives from index `i` on, in key context when
/// `k` holds: each token read after the blanks by [`token_spec`], up to and
/// including `Eof`; a `=` switches to value context for good.
pub open spec fn lexes_from(s: Seq<char>, i: int, k: bool, toks: Seq<Token>) -> bool
    decreases toks.len(),
{
    toks.len() > 0 && exists|e: int|
        #[trigger] token_spec(s, skip_blanks(s, i), k, Ok(toks[0]), e) && if toks[0] is Eof {
            toks.len() == 1
        } else {
            i < e && lexes_from(s, e, k && !(toks[0] is Assign), toks.drop_first())
        }
}

/// Whether a context is the key context.
pub open spec fn key_ctx(c: LexerContext) -> bool {
    c == LexerContext::InKey
}

/// The tokens of a list, without their spans.
pub open spec fn token_kinds(v: Seq<(Token, Span)>) -> Seq<Token> {
    v.map_values(|p: (Token, Span)| p.0)
}

/// Whatever lexes from `i` in context `k`, put after `prev`, lexes from `i0`.
#[verifier::opaque]
pub open spec fn lex_prefix_ok(s: Seq<char>, i0: int, k0: bool, prev: Seq<Token>, i: int, k: bool) -> bool {
    forall|rest: Seq<Token>| #[trigger] lexes_from(s, i, k, rest) ==> lexes_from(s, i0, k0, prev + rest)
}

/// Every lexing from `i0` has more than `n` tokens, and from the `n`th on
/// it is a lexing from `i` in context `k`.
#[verifier::opaque]
pub open spec fn lex_follows(s: Seq<char>, i0: int, k0: bool, n: int, i: int, k: bool) -> bool {
    forall|toks: Seq<Token>| #[trigger] lexes_from(s, i0, k0, toks) ==> toks.len() > n && lexes_from(s, i, k, toks.skip(n))
}

proof fn lemma_lex_start(s: Seq<char>, i0: int, k0: bool)
    ensures
        lex_prefix_ok(s, i0, k0, Seq::empty(), i0, k0),
        lex_follows(s, i0, k0, 0, i0, k0),
{
    reveal(lex_prefix_ok);
    reveal(lex_follows);
    assert forall|rest: Seq<Token>| #[trigger] lexes_from(s, i0, k0, rest) implies lexes_from(
        s,
        i0,
        k0,
        Seq::<Token>::empty() + rest,
    ) by {
        assert(Seq::<Token>::empty() + rest =~= rest);
    }
    assert forall|toks: Seq<Token>| #[trigger] lexes_from(s, i0, k0, toks) implies toks.len() > 0 && lexes_from(
        s,
        i0,
        k0,
        toks.skip(0),
    ) by {
        assert(toks.skip(0) =~= toks);
    }
}

/// Where no token can be read, nothing lexes.
proof fn lemma_lex_stuck(s: Seq<char>, i0: int, k0: bool, n: int, i: int, k: bool)
    requires
        lex_follows(s, i0, k0, n, i, k),
        forall|t: Token, e: int| !#[trigger] token_spec(s, skip_blanks(s, i), k, Ok(t), e),
    ensures
        forall|toks: Seq<Token>| !#[trigger] lexes_from(s, i0, k0, toks),
{
    reveal(lex_follows);
    assert forall|toks: Seq<Token>| !#[trigger] lexes_from(s, i0, k0, toks) by {
        if lexes_from(s, i0, k0, toks) {
            let u = toks.skip(n);
            assert(lexes_from(s, i, k, u));
        }
    }
}

/// One more token read keeps both facts.
proof fn lemma_lex_step(s: Seq<char>, i0: int, k0: bool, prev: Seq<Token>, i: int, k: bool, t: Token, e: int)
    requires
        lex_prefix_ok(s, i0, k0, prev, i, k),
        lex_follows(s, i0, k0, prev.len() as int, i, k),
        token_spec(s, skip_blanks(s, i), k, Ok(t), e),
        t is Eof || i < e,
    ensures
        t is Eof ==> lexes_from(s, i0, k0, prev.push(t)),
        !(t is Eof) ==> lex_prefix_ok(s, i0, k0, prev.push(t), e, k && !(t is Assign)),
        !(t is Eof) ==> lex_follows(s, i0, k0, prev.len() + 1int, e, k && !(t is Assign)),
{
    reveal(lex_prefix_ok);
    reveal(lex_follows);
    let k2 = k && !(t is Assign);
    if t is Eof {
        let one = seq![t];
        assert(one[0] == t);
        assert(lexes_from(s, i, k, one));
        assert(prev + one =~= prev.push(t));
    } else {
        assert forall|rest: Seq<Token>| #[trigger] lexes_from(s, e, k2, rest) implies lexes_from(
            s,
            i0,
            k0,
            prev.push(t) + rest,
        ) by {
            let one = seq![t] + rest;
            assert(one.drop_first() =~= rest);
            assert(one[0] == t);
            assert(lexes_from(s, i, k, one));
            assert(prev + one =~= prev.push(t) + rest);
        }
        assert forall|toks: Seq<Token>| #[trigger] lexes_from(s, i0, k0, toks) implies toks.len() > prev.len() + 1
            && lexes_from(s, e, k2, toks.skip(prev.len() + 1int)) by {
            let u = toks.skip(prev.len() as int);
            assert(lexes_from(s, i, k, u));
            let ee = choose|ee: int|
                #[trigger] token_spec(s, skip_blanks(s, i), k, Ok(u[0]), ee) && if u[0] is Eof {
                    u.len() == 1
                } else {
                    i < ee && lexes_from(s, ee, k && !(u[0] is Assign), u.drop_first())
                };
            lemma_token_spec_unique(s, skip_blanks(s, i), k, t, e, u[0], ee);
            assert(u.drop_first() =~= toks.skip(prev.len() + 1int));
        }
    }
}

/// The shape of a complete token list: exactly one `Eof`, at the end, and
/// spans that are ordered, disjoint and inside the source.
pub open spec fn tokens_well_formed(toks: Seq<(Token, Span)>, total: nat) -> bool {
    &&& toks.len() >= 1
    &&& toks.last().0 is Eof
    &&& forall|k: int| 0 <= k < toks.len() - 1 ==> !((#[trigger] toks[k]).0 is Eof)
    &&& forall|k: int| 0 <= k < toks.len() ==> (#[trigger] toks[k]).1.start <= toks[k].1.end <= total
    &&& forall|k: int, m: int| 0 <= k < m < toks.len() ==> (#[trigger] toks[k]).1.end <= (#[trigger] toks[m]).1.start
}

/// Skipping blanks twice is the same as skipping them once.
pub proof fn lemma_skip_blanks_idempotent(s: Seq<char>, i: int)
    ensures
        skip_blanks(s, skip_blanks(s, i)) == skip_blanks(s, i),
        i <= skip_blanks(s, i),
        0 <= i <= s.len() ==> skip_blanks(s, i) <= s.len(),
    decreases s.len() - i,
{
    if i < s.len() && (s[i] == ' ' || s[i] == '\t') {
        lemma_skip_blanks_idempotent(s, i + 1);
    }
}

/// The scanning functions never move backwards.
pub proof fn lemma_scans_advance(s: Seq<char>, i: int)
    requires
        0 <= i,
    ensures
        i <= line_end(s, i),
        i <= word_end(s, i),
        i <= key_end(s, i),
        scan_string(s, i) matches Some((c, e)) ==> i < e <= s.len(),
        block_close(s, i) matches Some(k) ==> i <= k && k + 2 <= s.len(),
    decreases s.len() - i,
{
    if i < s.len() {
        lemma_scans_advance(s, i + 1);
        if i + 2 <= s.len() {
            lemma_scans_advance(s, i + 2);
        }
    }
}

/// Where the number scan stops.
pub proof fn lemma_number_scan_bounds(s: Seq<char>, start: int, i: int, has_dot: bool)
    requires
        0 <= start <= i <= s.len(),
    ensures
        i <= number_scan(s, start, i, has_dot).0 <= s.len(),
        number_scan(s, start, i, has_dot).1 ==> number_scan(s, start, i, has_dot).0 < s.len(),
    decreases s.len() - i,
{
    if i < s.len() {
        lemma_number_scan_bounds(s, start, i + 1, has_dot);
        lemma_number_scan_bounds(s, start, i + 1, true);
    }
}

// ------------------------------------------------------------------ the lexer

/// The lexer. It owns the characters of the source.
pub struct Lexer {
    chars: Vec<char>,
    idx: usize,
    position: usize,
    line: u32,
    column: u32,
    context: ContextStateMachine,
}

impl Lexer {
    /// The characters of the source.
    pub closed spec fn source(&self) -> Seq<char> {
        self.chars@
    }

    /// Index of the next character to read.
    pub closed spec fn index(&self) -> int {
        self.idx as int
    }

    /// Byte offset of the next character to read.
    pub closed spec fn byte_offset(&self) -> int {
        self.position as int
    }

    /// The current lexer context.
    pub closed spec fn ctx(&self) -> LexerContext {
        self.context.spec_current()
    }

    pub closed spec fn ctx_machine(&self) -> ContextStateMachine {
        self.context
    }

    /// The current context is the context machine's current one, so a
    /// context pushed through [`Lexer::context_mut`] is the one the next
    /// token is read in.
    pub proof fn lemma_ctx_is_machine_current(&self)
        ensures
            self.ctx() == self.ctx_machine().spec_current(),
    {
    }

    /// The lexer's invariant: the index is in range, the byte offset matches
    /// it, and lines and columns cannot overflow.
    pub closed spec fn wf(&self) -> bool {
        &&& self.idx <= self.chars@.len()
        &&& self.chars@.len() < u32::MAX
        &&& byte_len(self.chars@) <= usize::MAX
        &&& self.position == byte_len(self.chars@.take(self.idx as int))
        &&& 1 <= self.line <= self.idx + 1
        &&& 1 <= self.column <= self.idx + 1
    }

    /// A lexer at the start of `source`, in key context.
    pub fn new(source: &str) -> (l: Lexer)
        requires
            source@.len() < u32::MAX,
        ensures
            l.wf(),
            l.source() == source@,
            l.index() == 0,
            l.ctx() == LexerContext::InKey,
    {
        let chars = chars_of(source);
        let n = source.as_bytes().len();
        proof {
            lemma_byte_len_is_encoding_len(source@);
            assert(chars@.take(0) =~= Seq::<char>::empty());
        }
        Lexer { chars, idx: 0, position: 0, line: 1, column: 1, context: ContextStateMachine::new() }
    }

    /// The context machine.
    pub fn context(&self) -> (c: &ContextStateMachine)
        ensures
            *c == self.ctx_machine(),
    {
        &self.context
    }

    /// Mutable access to the context machine.
    pub fn context_mut(&mut self) -> (c: &mut ContextStateMachine)
        ensures
            *c == old(self).ctx_machine(),
            final(self).source() == old(self).source(),
            final(self).index() == old(self).index(),
            final(self).byte_offset() == old(self).byte_offset(),
            final(self).ctx_machine() == *final(c),
            old(self).wf() ==> final(self).wf(),
    {
        &mut self.context
    }

    fn cur(&self) -> (c: char)
        requires
            self.wf(),
            self.idx < self.chars@.len(),
        ensures
            c == self.chars@[self.idx as int],
    {
        self.chars[self.idx]
    }

    /// The character after the current one.
    fn peek(&self) -> (c: Option<char>)
        requires
            self.wf(),
            self.idx < self.chars@.len(),
        ensures
            self.idx + 1 < self.chars@.len() ==> c == Some(self.chars@[self.idx + 1]),
            self.idx + 1 >= self.chars@.len() ==> c is None,
    {
        if self.idx + 1 < self.chars.len() {
            Some(self.chars[self.idx + 1])
        } else {
            None
        }
    }

    fn at_end(&self) -> (b: bool)
        requires
            self.wf(),
        ensures
            b == (self.idx >= self.chars@.len()),
    {
        self.idx >= self.chars.len()
    }

    /// Moves past the current character (nothing at the end).
    fn advance(&mut self)
        requires
            old(self).wf(),
        ensures
            final(self).wf(),
            final(self).chars@ == old(self).chars@,
            final(self).context == old(self).context,
            final(self).line == old(self).line,
            old(self).idx < old(self).chars@.len() ==> final(self).idx == old(self).idx + 1,
            old(self).idx >= old(self).chars@.len() ==> final(self).idx == old(self).idx,
    {
        if self.idx < self.chars.len() {
            let w = char_width(self.chars[self.idx]);
            proof {
                lemma_byte_len_take_step(self.chars@, self.idx as int);
                lemma_byte_len_take_le(self.chars@, self.idx + 1);
            }
            self.position = self.position + w;
            self.idx = self.idx + 1;
            self.column = self.column + 1;
        }
    }

    /// Starts a new line after a line break was consumed.
    fn new_line(&mut self)
        requires
            old(self).wf(),
            old(self).line < old(self).idx + 1,
        ensures
            final(self).wf(),
            final(self).chars@ == old(self).chars@,
            final(self).idx == old(self).idx,
            final(self).context == old(self).context,
    {
        self.line = self.line + 1;
        self.column = 1;
    }

    /// Skips spaces and tabs.
    fn skip_blanks(&mut self)
        requires
            old(self).wf(),
        ensures
            final(self).wf(),
            final(self).chars@ == old(self).chars@,
            final(self).context == old(self).context,
            final(self).line == old(self).line,
            final(self).idx == skip_blanks(old(self).chars@, old(self).idx as int),
    {
        while self.idx < self.chars.len() && (self.chars[self.idx] == ' ' || self.chars[self.idx] == '\t')
            invariant
                self.wf(),
                self.chars@ == old(self).chars@,
                self.context == old(self).context,
                self.line == old(self).line,
                skip_blanks(self.chars@, self.idx as int) == skip_blanks(old(self).chars@, old(self).idx as int),
            decreases self.chars@.len() - self.idx,
        {
            self.advance();
        }
    }

    /// Whether `chars[from..to]` spells `word`.
    fn range_is(&self, from: usize, to: usize, word: &str) -> (b: bool)
        requires
            from <= to <= self.chars@.len(),
        ensures
            b == (self.chars@.subrange(from as int, to as int) == word@),
    {
        let w = chars_of(word);
        if to - from != w.len() {
            return false;
        }
        let mut k: usize = 0;
        while k < w.len()
            invariant
                to - from == w@.len(),
                from <= to <= self.chars@.len(),
                w@ == word@,
                k <= w.len(),
                forall|j: int| 0 <= j < k ==> self.chars@[from + j] == w@[j],
            decreases w.len() - k,
        {
            if self.chars[from + k] != w[k] {
                return false;
            }
            k = k + 1;
        }
        assert(self.chars@.subrange(from as int, to as int) =~= w@);
        true
    }

    /// The byte offset never passes the end of the source.
    proof fn lemma_position_bound(&self)
        requires
            self.wf(),
        ensures
            self.position <= byte_len(self.chars@),
    {
        lemma_byte_len_take_le(self.chars@, self.idx as int);
    }

    /// A `# ...` comment: everything up to the line break, trimmed.
    fn read_comment(&mut self) -> (r: Result<Token, LexError>)
        requires
            old(self).wf(),
            old(self).idx < old(self).chars@.len(),
            old(self).chars@[old(self).idx as int] == '#',
        ensures
            final(self).wf(),
            final(self).chars@ == old(self).chars@,
            final(self).context == old(self).context,
            final(self).idx == line_end(old(self).chars@, old(self).idx + 1),
            final(self).idx > old(self).idx,
            r matches Ok(Token::LineComment(t)) && t@ == trimmed(old(self).chars@.subrange(old(self).idx + 1, line_end(old(self).chars@, old(self).idx + 1))),
    {
        proof { lemma_scans_advance(old(self).chars@, old(self).idx + 1); }
        self.advance();
        let start = self.idx;
        while self.idx < self.chars.len() && self.chars[self.idx] != '\n' && self.chars[self.idx] != '\r'
            invariant
                self.wf(),
                self.chars@ == old(self).chars@,
                self.context == old(self).context,
                start <= self.idx,
                start == old(self).idx + 1,
                line_end(self.chars@, self.idx as int) == line_end(self.chars@, start as int),
            decreases self.chars@.len() - self.idx,
        {
            self.advance();
        }
        let content = vec_range(&self.chars, start, self.idx);
        Ok(Token::LineComment(trim_chars(&content)))
    }

    /// An `@word` directive; only `@include` is known.
    fn read_directive(&mut self) -> (r: Result<Token, LexError>)
        requires
            old(self).wf(),
            old(self).idx < old(self).chars@.len(),
            old(self).chars@[old(self).idx as int] == '@',
        ensures
            final(self).wf(),
            final(self).chars@ == old(self).chars@,
            final(self).context == old(self).context,
            final(self).idx == word_end(old(self).chars@, old(self).idx + 1),
            final(self).idx > old(self).idx,
            if old(self).chars@.subrange(old(self).idx + 1, word_end(old(self).chars@, old(self).idx + 1)) == "include"@ {
                r == Ok::<Token, LexError>(Token::Include)
            } else {
                r is Err && r->Err_0.span.end <= byte_len(old(self).chars@)
            },
    {
        let at_pos = self.position;
        let at_line = self.line;
        let at_column = self.column;
        proof { lemma_scans_advance(old(self).chars@, old(self).idx + 1); }
        self.advance();
        let start = self.idx;
        while self.idx < self.chars.len() && word_char(self.chars[self.idx])
            invariant
                self.wf(),
                self.chars@ == old(self).chars@,
                self.context == old(self).context,
                start <= self.idx,
                start == old(self).idx + 1,
                word_end(self.chars@, self.idx as int) == word_end(self.chars@, start as int),
            decreases self.chars@.len() - self.idx,
        {
            self.advance();
        }
        if self.range_is(start, self.idx, "include") {
            Ok(Token::Include)
        } else {
            proof { self.lemma_position_bound(); }
            let mut message = String::new();
            message.push_str("unknown directive: @");
            let mut k = start;
            while k < self.idx
                invariant
                    start <= k <= self.idx <= self.chars@.len(),
                decreases self.idx - k,
            {
                message.push(self.chars[k]);
                k = k + 1;
            }
            Err(LexError { message, span: Span::at(at_pos, self.position, at_line, at_column) })
        }
    }

    /// A `"..."` string with escapes resolved; line breaks inside are kept.
    fn read_string(&mut self) -> (r: Result<Token, LexError>)
        requires
            old(self).wf(),
            old(self).idx < old(self).chars@.len(),
            old(self).chars@[old(self).idx as int] == '"',
        ensures
            final(self).wf(),
            final(self).chars@ == old(self).chars@,
            final(self).context == old(self).context,
            match scan_string(old(self).chars@, old(self).idx + 1) {
                Some((body, e)) => final(self).idx == e && (r matches Ok(Token::StringLiteral(t)) && t@ == body),
                None => r is Err && r->Err_0.span.end <= byte_len(old(self).chars@),
            },
            r is Ok ==> final(self).idx > old(self).idx,
    {
        proof { lemma_scans_advance(old(self).chars@, old(self).idx + 1); }
        let start = self.position;
        let start_line = self.line;
        let start_column = self.column;
        self.advance();
        let ghost s = self.chars@;
        let ghost i1 = self.idx as int;
        let mut content: Vec<char> = Vec::new();
        while self.idx < self.chars.len()
            invariant
                self.wf(),
                self.chars@ == s,
                s == old(self).chars@,
                self.context == old(self).context,
                i1 == old(self).idx + 1,
                i1 <= self.idx,
                match scan_string(s, self.idx as int) {
                    Some((c, e)) => scan_string(s, i1) == Some((content@ + c, e)),
                    None => scan_string(s, i1) is None,
                },
            decreases self.chars@.len() - self.idx,
        {
            let ghost i = self.idx as int;
            let ch = self.chars[self.idx];
            if ch == '"' {
                self.advance();
                assert(content@ + Seq::<char>::empty() == content@);
                return Ok(Token::StringLiteral(string_from_chars(&content)));
            }
            if ch == '\\' {
                self.advance();
                if self.idx < self.chars.len() {
                    let escaped = self.chars[self.idx];
                    let ghost before = content@;
                    if escaped == 'n' {
                        content.push('\n');
                    } else if escaped == 't' {
                        content.push('\t');
                    } else if escaped == 'r' {
                        content.push('\r');
                    } else if escaped == '\\' {
                        content.push('\\');
                    } else if escaped == '"' {
                        content.push('"');
                    } else {
                        content.push('\\');
                        content.push(escaped);
                    }
                    assert(content@ == before + unescape(escaped));
                    self.advance();
                    proof {
                        match scan_string(s, i + 2) {
                            Some((c, e)) => {
                                assert(before + (unescape(escaped) + c) == content@ + c);
                            },
                            None => {},
                        }
                    }
                }
            } else if ch == '\n' {
                content.push(ch);
                self.advance();
                self.new_line();
                proof {
                    match scan_string(s, i + 1) {
                        Some((c, e)) => { assert(content@.drop_last() + (seq![ch] + c) == content@ + c); },
                        None => {},
                    }
                }
            } else if ch == '\r' {
                content.push(ch);
                self.advance();
                proof {
                    match scan_string(s, i + 1) {
                        Some((c, e)) => { assert(content@.drop_last() + (seq![ch] + c) == content@ + c); },
                        None => {},
                    }
                }
                if self.idx < self.chars.len() && self.chars[self.idx] == '\n' {
                    content.push('\n');
                    self.advance();
                    proof {
                        match scan_string(s, i + 2) {
                            Some((c, e)) => { assert(content@.drop_last() + (seq!['\n'] + c) == content@ + c); },
                            None => {},
                        }
                    }
                }
                self.new_line();
            } else {
                content.push(ch);
                self.advance();
                proof {
                    match scan_string(s, i + 1) {
                        Some((c, e)) => { assert(content@.drop_last() + (seq![ch] + c) == content@ + c); },
                        None => {},
                    }
                }
            }
        }
        proof { self.lemma_position_bound(); }
        Err(LexError::new("unterminated string", Span::at(start, self.position, start_line, start_column)))
    }

    /// A `/* ... */` comment, kept verbatim.
    fn read_block_comment(&mut self) -> (r: Result<Token, LexError>)
        requires
            old(self).wf(),
            old(self).idx + 1 < old(self).chars@.len(),
            old(self).chars@[old(self).idx as int] == '/',
            old(self).chars@[old(self).idx + 1] == '*',
        ensures
            final(self).wf(),
            final(self).chars@ == old(self).chars@,
            final(self).context == old(self).context,
            match block_close(old(self).chars@, old(self).idx + 2) {
                Some(k) => final(self).idx == k + 2 && (r matches Ok(Token::BlockComment(t)) && t@ == old(self).chars@.subrange(old(self).idx + 2, k)),
                None => r is Err && r->Err_0.span.end <= byte_len(old(self).chars@),
            },
            r is Ok ==> final(self).idx > old(self).idx,
    {
        proof { lemma_scans_advance(old(self).chars@, old(self).idx + 2); }
        let start = self.position;
        let start_line = self.line;
        let start_column = self.column;
        self.advance();
        self.advance();
        let ghost s = self.chars@;
        let i2 = self.idx;
        let mut content: Vec<char> = Vec::new();
        while self.idx < self.chars.len()
            invariant
                self.wf(),
                self.chars@ == s,
                s == old(self).chars@,
                self.context == old(self).context,
                i2 == old(self).idx + 2,
                i2 <= self.idx,
                content@ == s.subrange(i2 as int, self.idx as int),
                block_close(s, self.idx as int) == block_close(s, i2 as int),
            decreases self.chars@.len() - self.idx,
        {
            let ch = self.chars[self.idx];
            if ch == '*' && self.peek() == Some('/') {
                self.advance();
                self.advance();
                return Ok(Token::BlockComment(string_from_chars(&content)));
            }
            if ch == '\n' {
                content.push('\n');
                self.advance();
                self.new_line();
                assert(content@ == s.subrange(i2 as int, self.idx as int));
            } else if ch == '\r' {
                content.push('\r');
                self.advance();
                assert(content@ == s.subrange(i2 as int, self.idx as int));
                if self.idx < self.chars.len() && self.chars[self.idx] == '\n' {
                    content.push('\n');
                    self.advance();
                    assert(content@ == s.subrange(i2 as int, self.idx as int));
                }
                self.new_line();
            } else {
                content.push(ch);
                self.advance();
                assert(content@ == s.subrange(i2 as int, self.idx as int));
            }
        }
        proof { self.lemma_position_bound(); }
        Err(LexError::new("unterminated block comment", Span::at(start, self.position, start_line, start_column)))
    }

    /// Advances over up to `max` digits and returns how many there were.
    fn take_digits(&mut self, max: usize) -> (n: usize)
        requires
            old(self).wf(),
        ensures
            final(self).wf(),
            final(self).chars@ == old(self).chars@,
            final(self).context == old(self).context,
            final(self).line == old(self).line,
            n <= max,
            final(self).idx == old(self).idx + n,
            forall|k: int| old(self).idx <= k < old(self).idx + n ==> is_digit(#[trigger] old(self).chars@[k]),
            n == max || old(self).idx + n == old(self).chars@.len() || !is_digit(old(self).chars@[old(self).idx + n]),
            n == digits_from(old(self).chars@, old(self).idx as int, max as int),
    {
        let mut n: usize = 0;
        while self.idx < self.chars.len() && digit(self.chars[self.idx]) && n < max
            invariant
                self.wf(),
                self.chars@ == old(self).chars@,
                self.context == old(self).context,
                self.line == old(self).line,
                n <= max,
                self.idx == old(self).idx + n,
                forall|k: int| old(self).idx <= k < old(self).idx + n ==> is_digit(#[trigger] old(self).chars@[k]),
            decreases max - n,
        {
            self.advance();
            n = n + 1;
        }
        proof {
            lemma_digits_from(old(self).chars@, old(self).idx as int, max as int, n as int);
        }
        n
    }

    /// The rest of a date-time after `YYYY-`; falls back to a number literal
    /// when the shape breaks off. Everything consumed is kept verbatim.
    fn read_datetime_rest(&mut self, start: usize) -> (r: Result<Token, LexError>)
        requires
            old(self).wf(),
            start < old(self).idx,
        ensures
            final(self).wf(),
            final(self).chars@ == old(self).chars@,
            final(self).context == old(self).context,
            old(self).idx <= final(self).idx,
            final(self).idx == datetime_scan(old(self).chars@, old(self).idx as int).0,
            dated_token(
                r,
                old(self).chars@.subrange(start as int, final(self).idx as int),
                datetime_scan(old(self).chars@, old(self).idx as int).1,
            ),
    {
        let ghost s = self.chars@;
        let ghost p = self.idx as int;
        let n = self.take_digits(2);
        if n != 2 || self.idx >= self.chars.len() || self.chars[self.idx] != '-' {
            return Ok(Token::NumberLiteral(string_from_range(&self.chars, start, self.idx)));
        }
        self.advance();
        let n = self.take_digits(2);
        if n != 2 || self.idx >= self.chars.len() {
            return Ok(Token::NumberLiteral(string_from_range(&self.chars, start, self.idx)));
        }
        if self.chars[self.idx] == 'T' || self.chars[self.idx] == 't' {
            self.advance();
            let mut part: usize = 0;
            let ghost t0 = self.idx as int;
            while part < 3
                invariant
                    self.wf(),
                    self.chars@ == old(self).chars@,
                    s == old(self).chars@,
                    self.context == old(self).context,
                    start < old(self).idx <= self.idx,
                    part <= 3,
                    time_scan(s, self.idx as int, part as int) == time_scan(s, t0, 0),
                    datetime_scan(s, p) == time_scan(s, t0, 0),
                    p == old(self).idx,
                decreases 3 - part,
            {
                let digits = self.take_digits(2);
                if digits == 0 {
                    return Ok(Token::NumberLiteral(string_from_range(&self.chars, start, self.idx)));
                }
                if part < 2 && self.idx < self.chars.len() && self.chars[self.idx] == ':' {
                    self.advance();
                }
                part = part + 1;
            }
            if self.idx < self.chars.len() {
                let tz = self.chars[self.idx];
                if tz == 'Z' || tz == 'z' {
                    self.advance();
                } else if tz == '+' || tz == '-' {
                    self.advance();
                    self.take_digits(2);
                    if self.idx < self.chars.len() && self.chars[self.idx] == ':' {
                        self.advance();
                        self.take_digits(2);
                    }
                }
            }
        }
        Ok(Token::DateTimeLiteral(string_from_range(&self.chars, start, self.idx)))
    }

    /// A number, a duration, or (after `YYYY-`) a date-time.
    fn read_number(&mut self) -> (r: Result<Token, LexError>)
        requires
            old(self).wf(),
            old(self).idx < old(self).chars@.len(),
            is_digit(old(self).chars@[old(self).idx as int]),
        ensures
            final(self).wf(),
            final(self).chars@ == old(self).chars@,
            final(self).context == old(self).context,
            number_token_spec(old(self).chars@, old(self).idx as int, r, final(self).idx as int),
            final(self).idx > old(self).idx,
    {
        let ghost s = self.chars@;
        let start = self.idx;
        let mut has_dot = false;
        proof {
            lemma_number_scan_bounds(s, start as int, start + 1, false);
            assert(number_scan(s, start as int, start as int, false) == number_scan(s, start as int, start + 1, false));
        }
        while self.idx < self.chars.len()
            invariant_except_break
                self.wf(),
                self.chars@ == s,
                s == old(self).chars@,
                self.context == old(self).context,
                start == old(self).idx,
                start <= self.idx,
                number_scan(s, start as int, self.idx as int, has_dot) == number_scan(s, start as int, start as int, false),
            ensures
                self.wf(),
                self.chars@ == s,
                self.context == old(self).context,
                start <= self.idx,
                number_scan(s, start as int, start as int, false) == (self.idx as int, false),
            decreases self.chars@.len() - self.idx,
        {
            let ch = self.chars[self.idx];
            if digit(ch) {
                self.advance();
            } else if ch == '.' {
                if has_dot {
                    break;
                }
                if self.idx + 1 < self.chars.len() && self.chars[self.idx + 1] == '.' {
                    break;
                }
                has_dot = true;
                self.advance();
            } else if ch == '-' && self.idx - start == 4 {
                self.advance();
                return self.read_datetime_rest(start);
            } else {
                break;
            }
        }
        if self.idx < self.chars.len() {
            let ch = self.chars[self.idx];
            if ch == 's' || ch == 'm' || ch == 'h' || ch == 'd' {
                self.advance();
                return Ok(Token::DurationLiteral(string_from_range(&self.chars, start, self.idx)));
            }
        }
        Ok(Token::NumberLiteral(string_from_range(&self.chars, start, self.idx)))
    }

    /// A bare key (letters, digits, `-`, `_`); `merge` is the keyword.
    fn read_bare_key(&mut self) -> (r: Result<Token, LexError>)
        requires
            old(self).wf(),
            old(self).idx < old(self).chars@.len(),
            is_key_char(old(self).chars@[old(self).idx as int]),
        ensures
            final(self).wf(),
            final(self).chars@ == old(self).chars@,
            final(self).context == old(self).context,
            key_token_spec(old(self).chars@, old(self).idx as int, r, final(self).idx as int),
            final(self).idx > old(self).idx,
    {
        let start = self.idx;
        while self.idx < self.chars.len() && key_char(self.chars[self.idx])
            invariant
                self.wf(),
                self.chars@ == old(self).chars@,
                self.context == old(self).context,
                start == old(self).idx,
                start <= self.idx,
                key_end(self.chars@, self.idx as int) == key_end(self.chars@, start as int),
            decreases self.chars@.len() - self.idx,
        {
            self.advance();
        }
        if self.range_is(start, self.idx, "merge") {
            Ok(Token::Merge)
        } else {
            Ok(Token::BareKey(string_from_range(&self.chars, start, self.idx)))
        }
    }

    /// A word in value context: `true`, `false`, `merge`, or a bare key.
    fn read_identifier_or_keyword(&mut self) -> (r: Result<Token, LexError>)
        requires
            old(self).wf(),
            old(self).idx < old(self).chars@.len(),
            is_word_char(old(self).chars@[old(self).idx as int]),
        ensures
            final(self).wf(),
            final(self).chars@ == old(self).chars@,
            final(self).context == old(self).context,
            word_token_spec(old(self).chars@, old(self).idx as int, r, final(self).idx as int),
            final(self).idx > old(self).idx,
    {
        let start = self.idx;
        while self.idx < self.chars.len() && word_char(self.chars[self.idx])
            invariant
                self.wf(),
                self.chars@ == old(self).chars@,
                self.context == old(self).context,
                start == old(self).idx,
                start <= self.idx,
                word_end(self.chars@, self.idx as int) == word_end(self.chars@, start as int),
            decreases self.chars@.len() - self.idx,
        {
            self.advance();
        }
        if self.range_is(start, self.idx, "true") {
            Ok(Token::BooleanLiteral(true))
        } else if self.range_is(start, self.idx, "false") {
            Ok(Token::BooleanLiteral(false))
        } else if self.range_is(start, self.idx, "@include") {
            Ok(Token::Include)
        } else if self.range_is(start, self.idx, "merge") {
            Ok(Token::Merge)
        } else {
            Ok(Token::BareKey(string_from_range(&self.chars, start, self.idx)))
        }
    }

    /// The next token, after skipping spaces and tabs.
    pub fn next_token(&mut self) -> (r: Result<Token, LexError>)
        requires
            old(self).wf(),
        ensures
            final(self).wf(),
            final(self).source() == old(self).source(),
            token_spec(
                old(self).source(),
                skip_blanks(old(self).source(), old(self).index()),
                old(self).ctx() == LexerContext::InKey,
                r,
                final(self).index(),
            ),
            r is Ok ==> final(self).index() > old(self).index() || (r == Ok::<Token, LexError>(Token::Eof) && final(self).index() == old(self).source().len()),
            (r is Ok && r != Ok::<Token, LexError>(Token::Assign)) ==> final(self).ctx_machine() == old(self).ctx_machine(),
            r == Ok::<Token, LexError>(Token::Assign) ==> final(self).ctx() == LexerContext::InValue,
            r is Err ==> r->Err_0.span.end <= byte_len(old(self).source()),
    {
        self.skip_blanks();
        let ghost s = self.chars@;
        let ghost i0 = self.idx as int;
        proof {
            lemma_skip_blanks_idempotent(s, old(self).idx as int);
            lemma_scans_advance(s, i0 + 1);
            lemma_number_scan_bounds(s, i0, i0, false);
            if i0 < s.len() {
                lemma_number_scan_bounds(s, i0, i0 + 1, false);
            }
            lemma_byte_len_take_le(s, i0);
        }
        if self.at_end() {
            return Ok(Token::Eof);
        }
        let ch = self.cur();
        if ch == '\n' {
            self.advance();
            self.new_line();
            Ok(Token::Newline)
        } else if ch == '\r' {
            self.advance();
            if self.idx < self.chars.len() && self.cur() == '\n' {
                self.advance();
            }
            self.new_line();
            Ok(Token::Newline)
        } else if ch == '#' {
            if self.peek() == Some('@') {
                self.advance();
                self.advance();
                Ok(Token::MetadataPrefix)
            } else {
                self.read_comment()
            }
        } else if ch == '@' {
            self.read_directive()
        } else if ch == '"' {
            self.read_string()
        } else if ch == '{' {
            self.advance();
            Ok(Token::LBrace)
        } else if ch == '}' {
            self.advance();
            Ok(Token::RBrace)
        } else if ch == '[' {
            self.advance();
            if self.idx < self.chars.len() && self.cur() == '[' {
                self.advance();
                Ok(Token::LDoubleBracket)
            } else {
                Ok(Token::LBracket)
            }
        } else if ch == ']' {
            self.advance();
            if self.idx < self.chars.len() && self.cur() == ']' {
                self.advance();
                Ok(Token::RDoubleBracket)
            } else {
                Ok(Token::RBracket)
            }
        } else if ch == '(' {
            self.advance();
            Ok(Token::LParen)
        } else if ch == ')' {
            self.advance();
            Ok(Token::RParen)
        } else if ch == '=' || ch == ':' {
            self.advance();
            self.context.push(LexerContext::InValue);
            Ok(Token::Assign)
        } else if ch == ',' {
            self.advance();
            Ok(Token::Comma)
        } else if ch == '+' {
            self.advance();
            Ok(Token::Operator(Operator::Add))
        } else if ch == '-' {
            if self.context.is_in_key() {
                self.read_bare_key()
            } else {
                self.advance();
                Ok(Token::Operator(Operator::Subtract))
            }
        } else if ch == '*' {
            self.advance();
            Ok(Token::Operator(Operator::Multiply))
        } else if ch == '/' {
            if self.peek() == Some('*') {
                self.read_block_comment()
            } else {
                self.advance();
                Ok(Token::Operator(Operator::Divide))
            }
        } else if ch == '.' {
            self.advance();
            if self.idx < self.chars.len() && self.cur() == '.' {
                self.advance();
                Ok(Token::RangeOp)
            } else {
                Ok(Token::Dot)
            }
        } else if digit(ch) {
            self.read_number()
        } else if alpha(ch) || ch == '_' {
            if self.context.is_in_key() {
                self.read_bare_key()
            } else {
                self.read_identifier_or_keyword()
            }
        } else {
            let w = char_width(ch);
            proof {
                lemma_byte_len_take_step(self.chars@, self.idx as int);
                lemma_byte_len_take_le(self.chars@, self.idx + 1);
            }
            let mut message = String::new();
            message.push_str("unexpected character: '");
            message.push(ch);
            message.push('\'');
            Err(LexError { message, span: Span::at(self.position, self.position + w, self.line, self.column) })
        }
    }

    /// All tokens with their spans, ending with `Eof`; stops at the first error.
    pub fn tokenize_all(&mut self) -> (r: Result<Vec<(Token, Span)>, LexError>)
        requires
            old(self).wf(),
        ensures
            final(self).wf(),
            final(self).source() == old(self).source(),
            r is Ok ==> tokens_well_formed(r->Ok_0@, byte_len(old(self).source())),
            r is Err ==> r->Err_0.span.end <= byte_len(old(self).source()),
            r matches Ok(v) ==> lexes_from(old(self).source(), old(self).index(), key_ctx(old(self).ctx()), token_kinds(v@)),
            r is Err ==> forall|toks: Seq<Token>| !#[trigger] lexes_from(
                old(self).source(),
                old(self).index(),
                key_ctx(old(self).ctx()),
                toks,
            ),
    {
        let mut tokens: Vec<(Token, Span)> = Vec::new();
        let ghost total = byte_len(self.chars@);
        let ghost src = self.chars@;
        let ghost i0 = self.idx as int;
        let ghost k0 = key_ctx(self.ctx());
        proof {
            lemma_lex_start(src, i0, k0);
            assert(token_kinds(tokens@) =~= Seq::<Token>::empty());
        }
        loop
            invariant_except_break
                self.wf(),
                self.source() == old(self).source(),
                total == byte_len(self.chars@),
                forall|k: int| 0 <= k < tokens@.len() ==> !((#[trigger] tokens@[k]).0 is Eof),
                forall|k: int| 0 <= k < tokens@.len() ==> (#[trigger] tokens@[k]).1.start <= tokens@[k].1.end <= self.position,
                forall|k: int, m: int| 0 <= k < m < tokens@.len() ==> (#[trigger] tokens@[k]).1.end <= (#[trigger] tokens@[m]).1.start,
                src == old(self).source(),
                i0 == old(self).index(),
                k0 == key_ctx(old(self).ctx()),
                lex_prefix_ok(src, i0, k0, token_kinds(tokens@), self.idx as int, key_ctx(self.ctx())),
                lex_follows(src, i0, k0, tokens@.len() as int, self.idx as int, key_ctx(self.ctx())),
            ensures
                self.wf(),
                self.source() == old(self).source(),
                tokens_well_formed(tokens@, total),
                lexes_from(src, i0, k0, token_kinds(tokens@)),
            decreases self.chars@.len() - self.idx,
        {
            let ghost prev = tokens@;
            let ghost before_pos = self.position;
            let ghost before_idx = self.idx as int;
            let ghost before_k = key_ctx(self.ctx());
            let ghost pre = *self;
            assert(pre.source() == src && pre.index() == before_idx && key_ctx(pre.ctx()) == before_k);
            let (token, span) = match self.next_token_spanned() {
                Ok(pair) => pair,
                Err(e) => {
                    proof {
                        assert forall|t: Token, e: int| !#[trigger] token_spec(src, skip_blanks(src, before_idx), before_k, Ok(t), e) by {
                            assert(!token_spec(pre.source(), skip_blanks(pre.source(), pre.index()), key_ctx(pre.ctx()), Ok(t), e));
                        }
                        lemma_lex_stuck(src, i0, k0, prev.len() as int, before_idx, before_k);
                    }
                    return Err(e);
                }
            };
            let ghost t = token;
            let ghost after_idx = self.idx as int;
            let ghost after_k = key_ctx(self.ctx());
            let is_eof = matches!(token, Token::Eof);
            tokens.push((token, span));
            proof {
                assert(token_kinds(tokens@) =~= token_kinds(prev).push(t));
                lemma_lex_step(src, i0, k0, token_kinds(prev), before_idx, before_k, t, after_idx);
            }
            proof {
                self.lemma_position_bound();
                assert(tokens@.drop_last() == prev);
                assert forall|k: int| 0 <= k < tokens@.len() implies (#[trigger] tokens@[k]).1.start <= tokens@[k].1.end <= self.position by {
                    if k < prev.len() {
                        assert(tokens@[k] == prev[k]);
                    }
                }
                assert forall|k: int, m: int| 0 <= k < m < tokens@.len() implies (#[trigger] tokens@[k]).1.end <= (#[trigger] tokens@[m]).1.start by {
                    assert(tokens@[k] == prev[k]);
                    if m < prev.len() {
                        assert(tokens@[m] == prev[m]);
                    }
                }
            }
            if is_eof {
                proof {
                    assert forall|k: int| 0 <= k < tokens@.len() - 1 implies !((#[trigger] tokens@[k]).0 is Eof) by {
                        assert(tokens@[k] == prev[k]);
                    }
                }
                break;
            }
            proof {
                assert forall|k: int| 0 <= k < tokens@.len() implies !((#[trigger] tokens@[k]).0 is Eof) by {
                    if k < prev.len() {
                        assert(tokens@[k] == prev[k]);
                    }
                }
            }
        }
        Ok(tokens)
    }

    /// The next token and its span; the span starts after the skipped blanks.
    pub fn next_token_spanned(&mut self) -> (r: Result<(Token, Span), LexError>)
        requires
            old(self).wf(),
        ensures
            final(self).wf(),
            final(self).source() == old(self).source(),
            r is Ok ==> {
                let (t, sp) = r->Ok_0;
                &&& token_spec(
                    old(self).source(),
                    skip_blanks(old(self).source(), old(self).index()),
                    old(self).ctx() == LexerContext::InKey,
                    Ok(t),
                    final(self).index(),
                )
                &&& old(self).byte_offset() <= sp.start <= sp.end == final(self).byte_offset()
                &&& sp.start == byte_len(old(self).source().take(skip_blanks(old(self).source(), old(self).index())))
                &&& sp.end == byte_len(old(self).source().take(final(self).index()))
                &&& (final(self).index() > old(self).index() || (t is Eof && final(self).index() == old(self).source().len()))
                &&& (!(t is Assign) ==> final(self).ctx() == old(self).ctx())
                &&& (t is Assign ==> final(self).ctx() == LexerContext::InValue)
            },
            r is Err ==> r->Err_0.span.end <= byte_len(old(self).source()),
            r is Err ==> forall|t: Token, e: int| !#[trigger] token_spec(
                old(self).source(),
                skip_blanks(old(self).source(), old(self).index()),
                key_ctx(old(self).ctx()),
                Ok(t),
                e,
            ),
    {
        self.skip_blanks();
        let start = self.position;
        let line = self.line;
        let column = self.column;
        proof {
            lemma_byte_len_take_le(self.chars@, self.idx as int);
            lemma_skip_blanks_idempotent(self.chars@, old(self).idx as int);
            lemma_byte_len_take_mono(self.chars@, old(self).idx as int, self.idx as int);
        }
        let ghost mid = self.idx;
        let ghost mid_self = *self;
        let token = match self.next_token() {
            Ok(t) => t,
            Err(x) => {
                proof {
                    assert forall|t: Token, e: int| !#[trigger] token_spec(
                        old(self).source(),
                        skip_blanks(old(self).source(), old(self).index()),
                        key_ctx(old(self).ctx()),
                        Ok(t),
                        e,
                    ) by {
                        lemma_token_spec_error(
                            old(self).source(),
                            skip_blanks(old(self).source(), old(self).index()),
                            old(self).ctx() == LexerContext::InKey,
                            x,
                            self.idx as int,
                            t,
                            e,
                        );
                    }
                }
                return Err(x);
            },
        };
        proof {
            lemma_byte_len_take_mono(self.chars@, mid as int, self.idx as int);
        }
        Ok((token, Span::at(start, self.position, line, column)))
    }
}

} // verus!
