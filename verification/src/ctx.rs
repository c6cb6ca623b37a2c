//! Contexts carry the causal information of a read over to the write that
//! follows it.
use vstd::prelude::*;
use crate::vclock::{Actor, Dot, VClock};

verus! {

/// What a read returns: the value, with the clock under which to add to it
/// and the clock under which to remove it.
#[derive(Debug, Clone, PartialEq, Eq)]
pub struct ReadCtx<V, A: Actor> {
    /// The clock to derive an add context from.
    pub add_clock: VClock<A>,
    /// The clock to derive a remove context from.
    pub rm_clock: VClock<A>,
    /// The value that was read.
    pub val: V,
}

/// The context of an add or an update: the clock that was read, and the dot
/// of the mutation.
#[derive(Debug, Clone, PartialEq, Eq)]
pub struct AddCtx<A: Actor> {
    /// The clock that was read.
    pub clock: VClock<A>,
    /// The dot that marks the mutation.
    pub dot: Dot<A>,
}

/// The context of a remove: the clock that the remove covers.
#[derive(Debug, Clone, PartialEq, Eq)]
pub struct RmCtx<A: Actor> {
    /// The clock that the remove covers.
    pub clock: VClock<A>,
}

impl<V, A: Actor> ReadCtx<V, A> {
    /// Derives the context of an add by the given actor: the clock that was
    /// read, and the actor's next dot after it.
    pub fn derive_add_ctx(self, actor: A) -> (ctx: AddCtx<A>)
        requires
            self.add_clock.count(actor) < u64::MAX,
        ensures
            ctx.clock == self.add_clock,
            ctx.dot.actor == actor,
            ctx.dot.counter == self.add_clock.count(actor) + 1,
    {
        let dot = self.add_clock.inc(actor);
        AddCtx { clock: self.add_clock, dot: dot }
    }

    /// Derives the context of a remove: the remove covers what was read.
    pub fn derive_rm_ctx(self) -> (ctx: RmCtx<A>)
        ensures
            ctx.clock == self.rm_clock,
    {
        RmCtx { clock: self.rm_clock }
    }
}

} // verus!
