//! Source locations.

use vstd::prelude::*;

verus! {

/// A location in the source: a half-open byte range plus the 1-based
/// line and column of its first character (0 when unknown).
#[derive(Debug, Clone, Copy, PartialEq, Eq, Default)]
pub struct Span {
    pub start: usize,
    pub end: usize,
    pub line: u32,
    pub column: u32,
}

impl Span {
    /// A span with no known position.
    pub fn unknown() -> (s: Span)
        ensures
            s == (Span { start: 0, end: 0, line: 0, column: 0 }),
    {
        Span { start: 0, end: 0, line: 0, column: 0 }
    }

    /// A byte range whose line and column are not known yet.
    pub fn from_bytes(start: usize, end: usize) -> (s: Span)
        ensures
            s == (Span { start: start, end: end, line: 0, column: 0 }),
    {
        Span { start, end, line: 0, column: 0 }
    }

    /// A fully known location.
    pub fn at(start: usize, end: usize, line: u32, column: u32) -> (s: Span)
        ensures
            s == (Span { start: start, end: end, line: line, column: column }),
    {
        Span { start, end, line, column }
    }

    /// The smallest range covering both spans; the position of `self` is kept.
    pub fn merge(&self, other: &Span) -> (s: Span)
        ensures
            s == merged(*self, *other),
    {
        let start = if self.start <= other.start { self.start } else { other.start };
        let end = if self.end >= other.end { self.end } else { other.end };
        Span { start, end, line: self.line, column: self.column }
    }

    /// Whether the line and column are unknown.
    pub fn is_unknown(&self) -> (b: bool)
        ensures
            b == (self.line == 0 && self.column == 0),
    {
        self.line == 0 && self.column == 0
    }
}

/// How a span reads in messages: `line:column`, or `unknown location`.
pub open spec fn span_text(s: Span) -> Seq<char> {
    if s.line == 0 && s.column == 0 {
        "unknown location"@
    } else {
        crate::text::decimal_digits(s.line as nat) + seq![':'] + crate::text::decimal_digits(s.column as nat)
    }
}

/// Appends [`span_text`] of `s` to `out`.
pub fn push_span_text(out: &mut String, s: &Span)
    ensures
        final(out)@ == old(out)@ + span_text(*s),
{
    if s.line == 0 && s.column == 0 {
        out.push_str("unknown location");
    } else {
        crate::text::push_decimal(out, s.line as u64);
        out.push(':');
        crate::text::push_decimal(out, s.column as u64);
    }
}

/// The merge of two spans: the smallest range covering both, at the
/// position of the first.
pub open spec fn merged(a: Span, b: Span) -> Span {
    Span {
        start: if a.start <= b.start { a.start } else { b.start },
        end: if a.end >= b.end { a.end } else { b.end },
        line: a.line,
        column: a.column,
    }
}

/// A merge covers both spans; the range it covers does not depend on the
/// order of the two; merging a span with itself gives it back.
pub proof fn merge_covers_both(a: Span, b: Span)
    ensures
        merged(a, b).start <= a.start && merged(a, b).start <= b.start,
        merged(a, b).end >= a.end && merged(a, b).end >= b.end,
        merged(a, b).start == merged(b, a).start && merged(a, b).end == merged(b, a).end,
        merged(a, a) == a,
{
}

} // verus!
