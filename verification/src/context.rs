//! The lexer's context stack: whether `-` and letters start a key or a value.

use vstd::prelude::*;

verus! {

/// Where the lexer is.
#[derive(Debug, Clone, Copy, PartialEq, Eq)]
pub enum LexerContext {
    /// `-` belongs to a bare key
    InKey,
    /// `-` is an operator, letters start identifiers and keywords
    InValue,
    InTableBlock,
    InInlineTable,
}

/// A stack of contexts; the current one is on top.
pub struct ContextStateMachine {
    current: LexerContext,
    pub stack: Vec<LexerContext>,
}

impl ContextStateMachine {
    /// The current context.
    pub closed spec fn spec_current(&self) -> LexerContext {
        self.current
    }

    /// The saved contexts, oldest first.
    pub closed spec fn saved(&self) -> Seq<LexerContext> {
        self.stack@
    }

    /// Starts in `InKey` with nothing saved.
    pub fn new() -> (m: ContextStateMachine)
        ensures
            m.spec_current() == LexerContext::InKey,
            m.saved().len() == 0,
    {
        ContextStateMachine { current: LexerContext::InKey, stack: Vec::new() }
    }

    /// Saves the current context and enters `ctx`.
    pub fn push(&mut self, ctx: LexerContext)
        ensures
            final(self).spec_current() == ctx,
            final(self).saved() == old(self).saved().push(old(self).spec_current()),
    {
        self.stack.push(self.current);
        self.current = ctx;
    }

    /// Returns to the saved context; does nothing when none is saved.
    pub fn pop(&mut self)
        ensures
            old(self).saved().len() > 0 ==> {
                &&& final(self).spec_current() == old(self).saved().last()
                &&& final(self).saved() == old(self).saved().drop_last()
            },
            old(self).saved().len() == 0 ==> final(self).spec_current() == old(self).spec_current()
                && final(self).saved() == old(self).saved(),
    {
        if let Some(prev) = self.stack.pop() {
            self.current = prev;
        }
    }

    /// The current context.
    pub fn current(&self) -> (c: LexerContext)
        ensures
            c == self.spec_current(),
    {
        self.current
    }

    pub fn is_in_key(&self) -> (b: bool)
        ensures
            b == (self.spec_current() == LexerContext::InKey),
    {
        matches!(self.current, LexerContext::InKey)
    }

    pub fn is_in_value(&self) -> (b: bool)
        ensures
            b == (self.spec_current() == LexerContext::InValue),
    {
        matches!(self.current, LexerContext::InValue)
    }

    pub fn is_in_table_block(&self) -> (b: bool)
        ensures
            b == (self.spec_current() == LexerContext::InTableBlock),
    {
        matches!(self.current, LexerContext::InTableBlock)
    }

    pub fn is_in_inline_table(&self) -> (b: bool)
        ensures
            b == (self.spec_current() == LexerContext::InInlineTable),
    {
        matches!(self.current, LexerContext::InInlineTable)
    }
}

/// Popping after pushing gives back the machine as it was.
pub proof fn push_then_pop_restores(
    before: ContextStateMachine,
    pushed: ContextStateMachine,
    popped: ContextStateMachine,
    ctx: LexerContext,
)
    requires
        pushed.spec_current() == ctx,
        pushed.saved() == before.saved().push(before.spec_current()),
        popped.spec_current() == pushed.saved().last(),
        popped.saved() == pushed.saved().drop_last(),
    ensures
        popped.spec_current() == before.spec_current(),
        popped.saved() == before.saved(),
{
    assert(pushed.saved().drop_last() =~= before.saved());
}

} // verus!
