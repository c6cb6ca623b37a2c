//! The capability traits that every replicated type provides.
use vstd::prelude::*;
use crate::vclock::{Actor, Counter, VClock};

verus! {

/// A replicated state with a mathematical model (its view) and a validity
/// predicate on models that every operation preserves.
pub trait Valid: View + Sized {
    /// Which models stand for a state that the operations can reach.
    spec fn valid(state: Self::V) -> bool;
}

/// Operation-based replication: a state is mutated by applying operations.
pub trait CmRDT: Valid {
    /// The operations that mutate the state.
    type Op;

    /// Which operations are well formed.
    spec fn op_wf(op: Self::Op) -> bool;

    /// The model of the state after `op` was applied to a state with model `state`.
    spec fn apply_spec(state: Self::V, op: Self::Op) -> Self::V;

    /// Applies an operation to the state.
    fn apply(&mut self, op: &Self::Op)
        requires
            Self::valid(old(self)@),
            Self::op_wf(*op),
        ensures
            Self::valid(final(self)@),
            final(self)@ == Self::apply_spec(old(self)@, *op),
    ;
}

/// State-based replication: two states are joined by a merge.
pub trait CvRDT: Valid {
    /// The model of the join of two states.
    spec fn merge_spec(state: Self::V, other: Self::V) -> Self::V;

    /// Merges the other state into this one.
    fn merge(&mut self, other: &Self)
        requires
            Self::valid(old(self)@),
            Self::valid(other@),
        ensures
            Self::valid(final(self)@),
            final(self)@ == Self::merge_spec(old(self)@, other@),
    ;
}

/// Causal types can forget what happened at or before a given clock.
pub trait Causal<A: Actor>: Valid {
    /// The model of the state after everything dominated by `clock` was forgotten.
    spec fn truncate_spec(state: Self::V, clock: Map<A, Counter>) -> Self::V;

    /// Forgets everything that the given clock dominates.
    fn truncate(&mut self, clock: &VClock<A>)
        requires
            Self::valid(old(self)@),
            clock.wf(),
        ensures
            Self::valid(final(self)@),
            final(self)@ == Self::truncate_spec(old(self)@, clock@),
    ;
}

} // verus!
