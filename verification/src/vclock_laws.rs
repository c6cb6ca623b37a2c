//! The laws of the lattice of clocks.
use vstd::prelude::*;
use crate::vclock::{
    clock_le, clock_wf, common, count_of, joined, larger, lemma_clock_ext, lemma_truncated_wf,
    lemma_witnessed_le, smaller, subtracted, truncated, witnessed, Counter,
};

verus! {

/// The counter of each actor in a join is the larger of its two counters.
pub proof fn lemma_joined_count<A>(m: Map<A, Counter>, o: Map<A, Counter>, a: A)
    ensures
        count_of(joined(m, o), a) == larger(count_of(m, a), count_of(o, a)),
{
}

/// The counter of each actor in a meet of well-formed clocks is the smaller
/// of its two counters.
pub proof fn lemma_truncated_count<A>(m: Map<A, Counter>, o: Map<A, Counter>, a: A)
    requires
        clock_wf(m),
        clock_wf(o),
    ensures
        count_of(truncated(m, o), a) == smaller(count_of(m, a), count_of(o, a)),
{
    if o.contains_key(a) {
        assert(o[a] > 0);
    }
}

/// Merging clocks is commutative.
pub proof fn lemma_merge_commutative<A>(m: Map<A, Counter>, o: Map<A, Counter>)
    ensures
        joined(m, o) == joined(o, m),
{
    assert(joined(m, o) =~= joined(o, m));
}

/// Merging clocks is associative.
pub proof fn lemma_merge_associative<A>(m: Map<A, Counter>, n: Map<A, Counter>, o: Map<A, Counter>)
    ensures
        joined(joined(m, n), o) == joined(m, joined(n, o)),
{
    assert(joined(joined(m, n), o) =~= joined(m, joined(n, o)));
}

/// Merging a well-formed clock with itself changes nothing, and neither
/// does merging it with the empty clock.
pub proof fn lemma_merge_idempotent<A>(m: Map<A, Counter>)
    ensures
        joined(m, m) == m,
        joined(m, Map::<A, Counter>::empty()) == m,
{
    assert(joined(m, m) =~= m);
    assert(joined(m, Map::<A, Counter>::empty()) =~= m);
}

/// Truncating is the meet of the lattice: for well-formed clocks it is
/// commutative, and the result is the greatest clock that both dominate.
pub proof fn lemma_truncate_meet<A>(u: Map<A, Counter>, v: Map<A, Counter>, w: Map<A, Counter>)
    requires
        clock_wf(u),
        clock_wf(v),
    ensures
        truncated(u, v) == truncated(v, u),
        clock_le(truncated(u, v), u),
        clock_le(truncated(u, v), v),
        clock_le(w, u) && clock_le(w, v) ==> clock_le(w, truncated(u, v)),
{
    lemma_truncated_wf(u, v);
    lemma_truncated_wf(v, u);
    assert forall|a: A| count_of(truncated(u, v), a) == count_of(truncated(v, u), a) by {
        lemma_truncated_count(u, v, a);
        lemma_truncated_count(v, u, a);
    }
    lemma_clock_ext(truncated(u, v), truncated(v, u));
    assert forall|a: A| #[trigger] count_of(truncated(u, v), a) <= count_of(u, a) by {
        lemma_truncated_count(u, v, a);
    }
    assert forall|a: A| #[trigger] count_of(truncated(u, v), a) <= count_of(v, a) by {
        lemma_truncated_count(u, v, a);
    }
    if clock_le(w, u) && clock_le(w, v) {
        assert forall|a: A| #[trigger] count_of(w, a) <= count_of(truncated(u, v), a) by {
            lemma_truncated_count(u, v, a);
            assert(count_of(w, a) <= count_of(u, a));
            assert(count_of(w, a) <= count_of(v, a));
        }
    }
}

/// Truncating a well-formed clock by a clock that dominates it changes nothing.
pub proof fn lemma_truncate_by_greater<A>(u: Map<A, Counter>, v: Map<A, Counter>)
    requires
        clock_wf(u),
        clock_wf(v),
        clock_le(u, v),
    ensures
        truncated(u, v) == u,
{
    lemma_truncated_wf(u, v);
    assert forall|a: A| count_of(truncated(u, v), a) == count_of(u, a) by {
        lemma_truncated_count(u, v, a);
        assert(count_of(u, a) <= count_of(v, a));
    }
    lemma_clock_ext(truncated(u, v), u);
}

/// The order of clocks is a partial order on well-formed clocks: reflexive
/// and antisymmetric (and transitive), with the empty clock at the bottom.
pub proof fn lemma_order<A>(u: Map<A, Counter>, v: Map<A, Counter>)
    requires
        clock_wf(u),
        clock_wf(v),
    ensures
        clock_le(u, u),
        clock_le(Map::<A, Counter>::empty(), u),
        clock_le(u, v) && clock_le(v, u) ==> u == v,
{
    assert forall|a: A| #[trigger] count_of(Map::<A, Counter>::empty(), a) <= count_of(u, a) by {}
    if clock_le(u, v) && clock_le(v, u) {
        assert forall|a: A| count_of(u, a) == count_of(v, a) by {
            assert(count_of(u, a) <= count_of(v, a));
            assert(count_of(v, a) <= count_of(u, a));
        }
        lemma_clock_ext(u, v);
    }
}

/// To witness a dot is to merge with the clock that holds only that dot: so
/// it is idempotent, and witnessing two dots gives the same clock in either
/// order.
pub proof fn lemma_witness_commutes<A>(m: Map<A, Counter>, a: A, c: Counter, b: A, d: Counter)
    requires
        clock_wf(m),
    ensures
        witnessed(witnessed(m, a, c), a, c) == witnessed(m, a, c),
        witnessed(witnessed(m, a, c), b, d) == witnessed(witnessed(m, b, d), a, c),
{
    lemma_witnessed_le(m, a, c);
    lemma_witnessed_le(m, b, d);
    lemma_witnessed_le(witnessed(m, a, c), b, d);
    lemma_witnessed_le(witnessed(m, b, d), a, c);
    assert forall|x: A|
        count_of(witnessed(witnessed(m, a, c), b, d), x) == count_of(
            witnessed(witnessed(m, b, d), a, c),
            x,
        ) by {}
    lemma_clock_ext(witnessed(witnessed(m, a, c), b, d), witnessed(witnessed(m, b, d), a, c));
}

/// Subtracting leaves exactly the dots that the other clock does not dominate.
pub proof fn lemma_subtracted_count<A>(m: Map<A, Counter>, o: Map<A, Counter>, a: A)
    requires
        clock_wf(m),
    ensures
        count_of(subtracted(m, o), a) == if count_of(o, a) >= count_of(m, a) {
            0
        } else {
            count_of(m, a)
        },
{
    if m.contains_key(a) {
        assert(m[a] > 0);
    }
}

/// Subtracting the same clock again changes nothing, and two subtractions
/// give the same clock in either order.
pub proof fn lemma_subtract_commutes<A>(m: Map<A, Counter>, o: Map<A, Counter>, p: Map<A, Counter>)
    ensures
        subtracted(subtracted(m, o), o) == subtracted(m, o),
        subtracted(subtracted(m, o), p) == subtracted(subtracted(m, p), o),
{
    assert(subtracted(subtracted(m, o), o) =~= subtracted(m, o));
    assert(subtracted(subtracted(m, o), p) =~= subtracted(subtracted(m, p), o));
}

/// The entries that two clocks have in common are the same from either side.
pub proof fn lemma_common_commutative<A>(m: Map<A, Counter>, o: Map<A, Counter>)
    requires
        clock_wf(m),
        clock_wf(o),
    ensures
        common(m, o) == common(o, m),
{
    assert forall|a: A| common(m, o).contains_key(a) == common(o, m).contains_key(a) by {
        if m.contains_key(a) {
            assert(m[a] > 0);
        }
        if o.contains_key(a) {
            assert(o[a] > 0);
        }
    }
    assert(common(m, o) =~= common(o, m));
}

} // verus!
