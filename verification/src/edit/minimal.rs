//! What an applied edit leaves of the text around it.

use vstd::prelude::*;
use vstd::utf8::encode_utf8;
use crate::ast::TableBlock;
use crate::edit::apply::{intent_outcome, range_ok};
use crate::edit::outcome::{AppliedEdit, EditRefusal};
use crate::edit::plan::{EditIntent, EditOp};
use crate::lexer::LexError;
use crate::span::Span;
use crate::token::Token;

verus! {

broadcast use vstd::string::group_string_axioms, vstd::utf8::group_utf8_lib;

/// An assignment changes one range of bytes only: what lies before it and
/// after it stays byte for byte, and the record holds the bytes it replaced
/// and the text put in their place.
pub proof fn lemma_assignment_touches_only_its_range(
    src: Seq<char>,
    root: TableBlock,
    toks: Result<Vec<(Token, Span)>, LexError>,
    e: EditIntent,
    next: String,
    rec: AppliedEdit,
)
    requires
        e.op == EditOp::Assign,
        intent_outcome(src, root, toks, e, Ok::<(String, AppliedEdit), EditRefusal>((next, rec))),
    ensures
        exists|s: int, t: int|
            0 <= s < t <= encode_utf8(src).len() && encode_utf8(next@) == encode_utf8(src).subrange(0, s) + encode_utf8(
                rec.after@,
            ) + encode_utf8(src).subrange(t, encode_utf8(src).len() as int) && #[trigger] encode_utf8(rec.before@)
                == encode_utf8(src).subrange(s, t),
{
    reveal(intent_outcome);
    let b = encode_utf8(src);
    let p = crate::edit::locate::reach(crate::edit::locate::Place::Table(root), e.path@.drop_last());
    let name = e.path@.last()->Key_0;
    let kv = crate::edit::locate::place_kv(p->At_0, name@)->Some_0;
    let ts = toks->Ok_0;
    let (s, t) = crate::edit::apply::value_range(b, ts@, kv)->Some_0;
    assert(range_ok(b, s, t));
    crate::edit::bytes::lemma_boundary_in_range(b, t);
    crate::edit::bytes::lemma_boundary_in_range(b, s);
    assert(encode_utf8(rec.before@) == b.subrange(s, t));
}

/// A deletion removes whole lines: from the start of a line to past the
/// newline that ends one, or to the end of the text; the rest stays.
pub proof fn lemma_deletion_removes_whole_lines(
    src: Seq<char>,
    root: TableBlock,
    toks: Result<Vec<(Token, Span)>, LexError>,
    e: EditIntent,
    next: String,
    rec: AppliedEdit,
)
    requires
        e.op == EditOp::Delete,
        intent_outcome(src, root, toks, e, Ok::<(String, AppliedEdit), EditRefusal>((next, rec))),
    ensures
        exists|ls: int, le: int|
            0 <= ls <= le <= encode_utf8(src).len() && (ls == 0 || encode_utf8(src)[ls - 1] == 10u8) && (le
                == encode_utf8(src).len() || encode_utf8(src)[le - 1] == 10u8) && #[trigger] encode_utf8(next@)
                == encode_utf8(src).subrange(0, ls) + encode_utf8(src).subrange(le, encode_utf8(src).len() as int),
{
    reveal(intent_outcome);
    let b = encode_utf8(src);
    let p = crate::edit::locate::reach(crate::edit::locate::Place::Table(root), e.path@.drop_last());
    let name = e.path@.last()->Key_0;
    let kv = crate::edit::locate::place_kv(p->At_0, name@)->Some_0;
    let ls = crate::edit::bytes::line_start(b, crate::edit::bytes::clamp(b, kv.span.start as int));
    let le = crate::edit::bytes::line_end(b, crate::edit::bytes::clamp(b, kv.span.end as int));
    crate::edit::bytes::lemma_line_start_is_boundary(b, kv.span.start as int);
    crate::edit::bytes::lemma_line_end_is_boundary(b, kv.span.end as int);
    crate::edit::bytes::lemma_line_start_bounds(b, kv.span.start as int);
    assert(encode_utf8(next@) == b.subrange(0, ls) + b.subrange(le, b.len() as int));
}

/// An insertion puts text in at one point and keeps every byte of the text
/// around it; what it puts in ends with a line break.
pub proof fn lemma_insertion_keeps_the_rest(
    src: Seq<char>,
    root: TableBlock,
    toks: Result<Vec<(Token, Span)>, LexError>,
    e: EditIntent,
    next: String,
    rec: AppliedEdit,
)
    requires
        e.op == EditOp::Insert,
        intent_outcome(src, root, toks, e, Ok::<(String, AppliedEdit), EditRefusal>((next, rec))),
    ensures
        exists|at: int, middle: Seq<char>|
            0 <= at <= encode_utf8(src).len() && middle.len() > 0 && middle.last() == '\n' && #[trigger] encode_utf8(
                next@,
            ) == encode_utf8(src).subrange(0, at) + encode_utf8(middle) + encode_utf8(src).subrange(
                at,
                encode_utf8(src).len() as int,
            ),
{
    reveal(intent_outcome);
    let b = encode_utf8(src);
    let p = crate::edit::locate::reach(crate::edit::locate::Place::Table(root), e.path@.drop_last())->At_0;
    let name = e.path@.last()->Key_0;
    let at = crate::edit::apply::landing(b, p, toks)->Some_0;
    let ind = crate::edit::apply::insert_indent(b, p);
    let nl = crate::edit::apply::newline_of(src);
    let line = ind + name@ + " = "@ + rec.after@;
    let pre = if at > 0 && b[at - 1] != 10u8 { nl } else { Seq::empty() };
    let middle = pre + line + nl;
    crate::edit::apply::lemma_landing_in_range(b, p, toks);
    assert(middle.last() == nl.last());
    assert(encode_utf8(next@) == b.subrange(0, at) + encode_utf8(middle) + b.subrange(at, b.len() as int));
}

} // verus!
