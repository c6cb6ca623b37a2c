//! The laws of the map: what holds of its operations on every state.
use vstd::prelude::*;
use crate::map::{CrdtMap, Key, Op, Val};
use crate::map_model::{
    alive, applied, defer_group, deferred_valid, drained, empty_map, entry_valid, fresh_entry,
    has_clock, kept_both, lemma_defer_group_insert, lemma_defer_group_valid,
    lemma_merged_without_waiting,
    lemma_defer_group_waiting, lemma_position_unique, map_valid, merged, merged_entries,
    merged_entry, position, rm_group, rm_groups, rm_spec, up_spec, waiting, EntryView,
    MapView,
};
use crate::traits::CmRDT;
use crate::vclock::{
    clock_le, clock_wf, common, count_of, joined, lemma_witnessed_le, subtracted, witnessed, Actor,
    Counter,
};
use crate::vclock_laws::{
    lemma_common_commutative, lemma_merge_commutative, lemma_merge_idempotent,
    lemma_subtract_commutes, lemma_witness_commutes,
};

verus! {

/// Clock dominance: the clock of a valid state dominates the clock of each
/// of its entries, and no entry has an empty clock.
pub proof fn lemma_clock_dominates<K, V: Val<A>, A: Actor>(s: MapView<K, V::V, A>, key: K)
    requires
        map_valid::<K, V, A>(s),
        s.entries.contains_key(key),
    ensures
        clock_le(s.entries[key].clock, s.clock),
        s.entries[key].clock != Map::<A, Counter>::empty(),
        forall|a: A| count_of(s.entries[key].clock, a) <= count_of(s.clock, a),
{
    assert forall|a: A| count_of(s.entries[key].clock, a) <= count_of(s.clock, a) by {
        assert(count_of(s.entries[key].clock, a) <= count_of(s.clock, a));
    }
}

/// To apply waiting removes does not change the clock of the state.
pub proof fn lemma_rm_groups_clock<K, V: Val<A>, A: Actor>(
    s: MapView<K, V::V, A>,
    groups: Seq<(Map<A, Counter>, Set<K>)>,
)
    ensures
        rm_groups::<K, V, A>(s, groups).clock == s.clock,
    decreases groups.len(),
{
    if groups.len() > 0 {
        lemma_rm_groups_clock::<K, V, A>(
            rm_group::<K, V, A>(s, groups[0].0, groups[0].1),
            groups.drop_first(),
        );
    }
}

/// A state without waiting removes has none to apply again.
pub proof fn lemma_drained_nothing<K, V: Val<A>, A: Actor>(s: MapView<K, V::V, A>)
    requires
        s.deferred.len() == 0,
    ensures
        drained::<K, V, A>(s) == s,
{
    assert(s.deferred =~= Seq::<(Map<A, Counter>, Set<K>)>::empty());
}

/// An operation applied twice leaves the state that it leaves when applied
/// once. For a remove this holds where truncating the value under the key
/// twice by the clock of the remove is truncating it once.
pub proof fn lemma_apply_idempotent<K: Key, V: Val<A>, A: Actor>(
    s: MapView<K, V::V, A>,
    op: Op<K, V, A>,
)
    requires
        map_valid::<K, V, A>(s),
        CrdtMap::<K, V, A>::op_wf(op),
        op matches Op::Rm { clock, key } ==> (s.entries.contains_key(key) ==> V::truncate_spec(
            V::truncate_spec(s.entries[key].val, clock@),
            clock@,
        ) == V::truncate_spec(s.entries[key].val, clock@)),
    ensures
        applied::<K, V, A>(applied::<K, V, A>(s, op), op) == applied::<K, V, A>(s, op),
{
    match op {
        Op::Nop => {},
        Op::Rm { clock, key } => {
            let c = clock@;
            let t = rm_spec::<K, V, A>(s, key, c);
            let u = rm_spec::<K, V, A>(t, key, c);
            assert(set![key].contains(key));
            if s.entries.contains_key(key) {
                assert(entry_valid::<V, A>(s.entries[key]));
                lemma_subtract_commutes(s.entries[key].clock, c, c);
            }
            assert(u.entries =~= t.entries);
            if !clock_le(c, s.clock) {
                assert(set![key].len() > 0);
                lemma_defer_group_insert(s.deferred, c, set![key], key);
                assert(set![key].insert(key) =~= set![key]);
            }
        },
        Op::Up { dot, key, op } => {
            if count_of(s.clock, dot.actor) < dot.counter {
                let e = if s.entries.contains_key(key) {
                    s.entries[key]
                } else {
                    fresh_entry::<V, A>()
                };
                let updated = EntryView {
                    clock: witnessed(e.clock, dot.actor, dot.counter),
                    val: V::apply_spec(e.val, op),
                };
                let x = MapView {
                    clock: witnessed(s.clock, dot.actor, dot.counter),
                    entries: s.entries.insert(key, updated),
                    deferred: s.deferred,
                };
                lemma_rm_groups_clock::<K, V, A>(
                    MapView { clock: x.clock, entries: x.entries, deferred: Seq::empty() },
                    x.deferred,
                );
                lemma_witnessed_le(s.clock, dot.actor, dot.counter);
            }
        },
    }
}

/// What a merge keeps of two entries for one key does not depend on the
/// side from which it is seen, where the merge of the two values does not.
pub proof fn lemma_kept_both_commutes<V: Val<A>, A: Actor>(
    e: EntryView<V::V, A>,
    f: EntryView<V::V, A>,
    clock: Map<A, Counter>,
    other_clock: Map<A, Counter>,
)
    requires
        clock_wf(e.clock),
        clock_wf(f.clock),
        V::merge_spec(e.val, f.val) == V::merge_spec(f.val, e.val),
    ensures
        kept_both::<V, A>(e, f, clock, other_clock) == kept_both::<V, A>(f, e, other_clock, clock),
{
    lemma_common_commutative(e.clock, f.clock);
    let shared = common(e.clock, f.clock);
    let here = alive(e.clock, shared, other_clock);
    let there = alive(f.clock, shared, clock);
    assert(joined(joined(shared, here), there) =~= joined(joined(shared, there), here));
    lemma_merge_commutative(here, there);
}

/// Merging is commutative on states without waiting removes, where the
/// merge of the values is commutative for the values under each key that
/// both states hold.
pub proof fn lemma_merge_commutes<K, V: Val<A>, A: Actor>(
    s: MapView<K, V::V, A>,
    o: MapView<K, V::V, A>,
)
    requires
        map_valid::<K, V, A>(s),
        map_valid::<K, V, A>(o),
        s.deferred.len() == 0,
        o.deferred.len() == 0,
        forall|k: K|
            s.entries.contains_key(k) && o.entries.contains_key(k) ==> V::merge_spec(
                s.entries[k].val,
                o.entries[k].val,
            ) == V::merge_spec(o.entries[k].val, #[trigger] s.entries[k].val),
    ensures
        merged::<K, V, A>(s, o) == merged::<K, V, A>(o, s),
{
    assert(s.deferred =~= Seq::<(Map<A, Counter>, Set<K>)>::empty());
    assert(o.deferred =~= Seq::<(Map<A, Counter>, Set<K>)>::empty());
    assert forall|k: K| merged_entry::<K, V, A>(s, o, k) == merged_entry::<K, V, A>(o, s, k) by {
        if s.entries.contains_key(k) && o.entries.contains_key(k) {
            assert(entry_valid::<V, A>(s.entries[k]));
            assert(entry_valid::<V, A>(o.entries[k]));
            lemma_kept_both_commutes::<V, A>(s.entries[k], o.entries[k], s.clock, o.clock);
        }
    }
    assert(merged_entries::<K, V, A>(s, o) =~= merged_entries::<K, V, A>(o, s));
    lemma_merge_commutative(s.clock, o.clock);
    lemma_merged_without_waiting::<K, V, A>(s, o);
    lemma_merged_without_waiting::<K, V, A>(o, s);
}

/// True if the clock `e` holds no dot that the clock `c` dominates.
pub open spec fn forgotten<A>(e: Map<A, Counter>, c: Map<A, Counter>) -> bool {
    forall|a: A| e.contains_key(a) ==> count_of(c, a) < #[trigger] e[a]
}

/// A remove waits exactly where the clock of the state does not dominate
/// its clock: then its key is among those that wait under that clock, and
/// else the waiting removes are as they were. No other clock comes to wait.
pub proof fn lemma_rm_waits<K, V: Val<A>, A: Actor>(s: MapView<K, V::V, A>, key: K, c: Map<A, Counter>)
    requires
        map_valid::<K, V, A>(s),
        clock_wf(c),
    ensures
        !clock_le(c, s.clock) ==> has_clock(rm_spec::<K, V, A>(s, key, c).deferred, c) && waiting(
            rm_spec::<K, V, A>(s, key, c).deferred,
            c,
        ).contains(key),
        clock_le(c, s.clock) ==> rm_spec::<K, V, A>(s, key, c).deferred == s.deferred,
        forall|d: Map<A, Counter>|
            has_clock(rm_spec::<K, V, A>(s, key, c).deferred, d) && !has_clock(s.deferred, d) ==> d
                == c && !clock_le(c, s.clock),
{
    assert(set![key].contains(key));
    if !clock_le(c, s.clock) {
        assert(set![key].len() > 0);
        lemma_defer_group_valid(s.deferred, c, set![key]);
        let t = defer_group(s.deferred, c, set![key]);
        assert forall|d: Map<A, Counter>| has_clock(t, d) && !has_clock(s.deferred, d) implies d
            == c by {
            let i = choose|i: int| 0 <= i < t.len() && (#[trigger] t[i]).0 == d;
            if has_clock(s.deferred, c) {
                assert(s.deferred[i].0 == d);
            } else {
                if i < s.deferred.len() {
                    assert(s.deferred[i].0 == d);
                }
            }
        }
    }
}

/// What one step of applying waiting removes keeps: the clock of the state;
/// the validity of the waiting removes; that an entry holds no dot that a
/// given clock dominates; and the keys that wait under a given clock.
pub proof fn lemma_rm_group_keeps<K, V: Val<A>, A: Actor>(
    s: MapView<K, V::V, A>,
    c: Map<A, Counter>,
    keys: Set<K>,
    key: K,
    d: Map<A, Counter>,
)
    requires
        deferred_valid(s.deferred),
        clock_wf(c),
        keys.finite(),
        keys.len() > 0,
    ensures
        rm_group::<K, V, A>(s, c, keys).clock == s.clock,
        deferred_valid(rm_group::<K, V, A>(s, c, keys).deferred),
        rm_group::<K, V, A>(s, c, keys).entries.contains_key(key) ==> s.entries.contains_key(key),
        rm_group::<K, V, A>(s, c, keys).entries.contains_key(key) && forgotten(
            s.entries[key].clock,
            d,
        ) ==> forgotten(rm_group::<K, V, A>(s, c, keys).entries[key].clock, d),
        rm_group::<K, V, A>(s, c, keys).entries.contains_key(key) && keys.contains(key)
            ==> forgotten(rm_group::<K, V, A>(s, c, keys).entries[key].clock, c),
        has_clock(s.deferred, d) ==> has_clock(rm_group::<K, V, A>(s, c, keys).deferred, d)
            && waiting(s.deferred, d).subset_of(
            waiting(rm_group::<K, V, A>(s, c, keys).deferred, d),
        ),
        !clock_le(c, s.clock) ==> has_clock(rm_group::<K, V, A>(s, c, keys).deferred, c)
            && keys.subset_of(waiting(rm_group::<K, V, A>(s, c, keys).deferred, c)),
        has_clock(rm_group::<K, V, A>(s, c, keys).deferred, d) ==> has_clock(s.deferred, d) || (d
            == c && !clock_le(c, s.clock)),
{
    let t = rm_group::<K, V, A>(s, c, keys);
    assert(keys != Set::<K>::empty()) by {
        if keys == Set::<K>::empty() {
            assert(keys.len() == 0);
        }
    }
    if t.entries.contains_key(key) {
        if keys.contains(key) {
            assert(t.entries[key].clock == subtracted(s.entries[key].clock, c));
        }
    }
    if !clock_le(c, s.clock) {
        lemma_defer_group_valid(s.deferred, c, keys);
        let td = defer_group(s.deferred, c, keys);
        assert(t.deferred == td);
        if has_clock(s.deferred, d) {
            let q = position(s.deferred, d);
            if d == c {
            } else {
                if has_clock(s.deferred, c) {
                    let p = position(s.deferred, c);
                    assert(td[q] == s.deferred[q]);
                    lemma_position_unique(td, d, q);
                } else {
                    assert(td[q] == s.deferred[q]);
                    lemma_position_unique(td, d, q);
                }
            }
        }
        if has_clock(td, d) && d != c {
            let i = choose|i: int| 0 <= i < td.len() && (#[trigger] td[i]).0 == d;
            if has_clock(s.deferred, c) {
                assert(s.deferred[i].0 == d);
            } else {
                if i < s.deferred.len() {
                    assert(s.deferred[i].0 == d);
                }
            }
        }
    }
}

/// What applying waiting removes keeps, step after step.
pub proof fn lemma_rm_groups_keeps<K, V: Val<A>, A: Actor>(
    s: MapView<K, V::V, A>,
    groups: Seq<(Map<A, Counter>, Set<K>)>,
    key: K,
    d: Map<A, Counter>,
)
    requires
        deferred_valid(s.deferred),
        deferred_valid(groups),
    ensures
        rm_groups::<K, V, A>(s, groups).clock == s.clock,
        deferred_valid(rm_groups::<K, V, A>(s, groups).deferred),
        rm_groups::<K, V, A>(s, groups).entries.contains_key(key) ==> s.entries.contains_key(key),
        rm_groups::<K, V, A>(s, groups).entries.contains_key(key) && forgotten(
            s.entries[key].clock,
            d,
        ) ==> forgotten(rm_groups::<K, V, A>(s, groups).entries[key].clock, d),
        has_clock(s.deferred, d) ==> has_clock(rm_groups::<K, V, A>(s, groups).deferred, d)
            && waiting(s.deferred, d).subset_of(waiting(rm_groups::<K, V, A>(s, groups).deferred, d)),
        has_clock(rm_groups::<K, V, A>(s, groups).deferred, d) ==> has_clock(s.deferred, d)
            || !clock_le(d, s.clock),
    decreases groups.len(),
{
    if groups.len() > 0 {
        let next = rm_group::<K, V, A>(s, groups[0].0, groups[0].1);
        let rest = groups.drop_first();
        lemma_rm_group_keeps::<K, V, A>(s, groups[0].0, groups[0].1, key, d);
        lemma_drop_first_valid(groups);
        lemma_rm_groups_keeps::<K, V, A>(next, rest, key, d);
    }
}

/// The waiting removes but the first are valid where all are.
pub proof fn lemma_drop_first_valid<K, A>(groups: Seq<(Map<A, Counter>, Set<K>)>)
    requires
        deferred_valid(groups),
        groups.len() > 0,
    ensures
        deferred_valid(groups.drop_first()),
{
    let rest = groups.drop_first();
    assert forall|i: int| 0 <= i < rest.len() implies clock_wf(#[trigger] rest[i].0) by {
        assert(rest[i] == groups[i + 1]);
    }
    assert forall|i: int| 0 <= i < rest.len() implies (#[trigger] rest[i]).1.finite() && rest[i].1.len()
        > 0 by {
        assert(rest[i] == groups[i + 1]);
    }
    assert forall|i: int, j: int| 0 <= i < j < rest.len() implies (#[trigger] rest[i]).0 != (
    #[trigger] rest[j]).0 by {
        assert(rest[i] == groups[i + 1]);
        assert(rest[j] == groups[j + 1]);
    }
}

/// After waiting removes were applied, each of them has taken effect: the
/// entry of each of its keys, if one is left, holds no dot that its clock
/// dominates; and it waits on exactly where the clock of the state does not
/// dominate its clock.
pub proof fn lemma_rm_groups_delivers<K, V: Val<A>, A: Actor>(
    s: MapView<K, V::V, A>,
    groups: Seq<(Map<A, Counter>, Set<K>)>,
    i: int,
    key: K,
)
    requires
        deferred_valid(s.deferred),
        deferred_valid(groups),
        0 <= i < groups.len(),
        groups[i].1.contains(key),
    ensures
        rm_groups::<K, V, A>(s, groups).entries.contains_key(key) ==> forgotten(
            rm_groups::<K, V, A>(s, groups).entries[key].clock,
            groups[i].0,
        ),
        !clock_le(groups[i].0, s.clock) ==> has_clock(
            rm_groups::<K, V, A>(s, groups).deferred,
            groups[i].0,
        ) && waiting(rm_groups::<K, V, A>(s, groups).deferred, groups[i].0).contains(key),
    decreases groups.len(),
{
    let c = groups[i].0;
    let next = rm_group::<K, V, A>(s, groups[0].0, groups[0].1);
    let rest = groups.drop_first();
    lemma_rm_group_keeps::<K, V, A>(s, groups[0].0, groups[0].1, key, c);
    lemma_drop_first_valid(groups);
    if i == 0 {
        lemma_rm_groups_keeps::<K, V, A>(next, rest, key, c);
    } else {
        assert(rest[i - 1] == groups[i]);
        lemma_rm_groups_delivers::<K, V, A>(next, rest, i - 1, key);
    }
}

/// Causal delivery: when the waiting removes of a valid state are applied
/// again, a remove whose clock the state has come to dominate takes effect
/// and waits no longer; one whose clock the state does not dominate yet
/// waits on. Either way the entry of its key, if one is left, holds no dot
/// that its clock dominates.
pub proof fn lemma_drained_delivers<K, V: Val<A>, A: Actor>(s: MapView<K, V::V, A>, i: int, key: K)
    requires
        map_valid::<K, V, A>(s),
        0 <= i < s.deferred.len(),
        s.deferred[i].1.contains(key),
    ensures
        drained::<K, V, A>(s).clock == s.clock,
        clock_le(s.deferred[i].0, s.clock) ==> !has_clock(
            drained::<K, V, A>(s).deferred,
            s.deferred[i].0,
        ),
        !clock_le(s.deferred[i].0, s.clock) ==> has_clock(
            drained::<K, V, A>(s).deferred,
            s.deferred[i].0,
        ) && waiting(drained::<K, V, A>(s).deferred, s.deferred[i].0).contains(key),
        drained::<K, V, A>(s).entries.contains_key(key) ==> forgotten(
            drained::<K, V, A>(s).entries[key].clock,
            s.deferred[i].0,
        ),
{
    let start = MapView::<K, V::V, A> {
        clock: s.clock,
        entries: s.entries,
        deferred: Seq::empty(),
    };
    lemma_rm_groups_keeps::<K, V, A>(start, s.deferred, key, s.deferred[i].0);
    lemma_rm_groups_delivers::<K, V, A>(start, s.deferred, i, key);
}

/// Two updates by different actors leave the same state in either order, on
/// a state without waiting removes; where both update one key, this holds
/// where the two nested operations leave the same value in either order.
pub proof fn lemma_updates_commute<K, V: Val<A>, A: Actor>(
    s: MapView<K, V::V, A>,
    actor: A,
    counter: Counter,
    key: K,
    op: V::Op,
    other_actor: A,
    other_counter: Counter,
    other_key: K,
    other_op: V::Op,
)
    requires
        map_valid::<K, V, A>(s),
        s.deferred.len() == 0,
        actor != other_actor,
        key == other_key ==> ({
            let v = if s.entries.contains_key(key) {
                s.entries[key].val
            } else {
                V::default_spec()
            };
            V::apply_spec(V::apply_spec(v, op), other_op) == V::apply_spec(
                V::apply_spec(v, other_op),
                op,
            )
        }),
    ensures
        up_spec::<K, V, A>(
            up_spec::<K, V, A>(s, actor, counter, key, op),
            other_actor,
            other_counter,
            other_key,
            other_op,
        ) == up_spec::<K, V, A>(
            up_spec::<K, V, A>(s, other_actor, other_counter, other_key, other_op),
            actor,
            counter,
            key,
            op,
        ),
{
    let first = up_spec::<K, V, A>(s, actor, counter, key, op);
    let second = up_spec::<K, V, A>(s, other_actor, other_counter, other_key, other_op);
    let l = up_spec::<K, V, A>(first, other_actor, other_counter, other_key, other_op);
    let r = up_spec::<K, V, A>(second, actor, counter, key, op);
    assert(s.deferred =~= Seq::<(Map<A, Counter>, Set<K>)>::empty());
    lemma_witnessed_le(s.clock, actor, counter);
    lemma_witnessed_le(s.clock, other_actor, other_counter);
    lemma_witness_commutes(s.clock, actor, counter, other_actor, other_counter);
    let e = if s.entries.contains_key(key) {
        s.entries[key]
    } else {
        fresh_entry::<V, A>()
    };
    if s.entries.contains_key(key) {
        assert(entry_valid::<V, A>(s.entries[key]));
    }
    lemma_witness_commutes(e.clock, actor, counter, other_actor, other_counter);
    assert(count_of(first.clock, other_actor) == count_of(s.clock, other_actor));
    assert(count_of(second.clock, actor) == count_of(s.clock, actor));
    assert(first.deferred =~= Seq::<(Map<A, Counter>, Set<K>)>::empty());
    assert(second.deferred =~= Seq::<(Map<A, Counter>, Set<K>)>::empty());
    assert(l.clock == r.clock);
    assert(l.entries =~= r.entries);
    assert(l.deferred =~= r.deferred);
}

/// To merge the empty state into a state without waiting removes changes
/// nothing, where truncating a value by the empty clock changes nothing.
pub proof fn lemma_merge_empty<K, V: Val<A>, A: Actor>(s: MapView<K, V::V, A>)
    requires
        map_valid::<K, V, A>(s),
        s.deferred.len() == 0,
        forall|k: K| #[trigger]
            s.entries.contains_key(k) ==> V::truncate_spec(
                s.entries[k].val,
                Map::<A, Counter>::empty(),
            ) == s.entries[k].val,
    ensures
        merged::<K, V, A>(s, empty_map::<K, V::V, A>()) == s,
{
    let o = empty_map::<K, V::V, A>();
    assert(s.deferred =~= Seq::<(Map<A, Counter>, Set<K>)>::empty());
    lemma_merge_idempotent(s.clock);
    assert forall|k: K| s.entries.contains_key(k) implies merged_entry::<K, V, A>(s, o, k) == Some(
        s.entries[k],
    ) by {
        let e = s.entries[k];
        assert(entry_valid::<V, A>(e));
        assert(subtracted(e.clock, o.clock) =~= e.clock);
        assert(subtracted(o.clock, e.clock) =~= Map::<A, Counter>::empty());
    }
    assert(merged_entries::<K, V, A>(s, o) =~= s.entries);
    lemma_merged_without_waiting::<K, V, A>(s, o);
}

/// To merge a state without waiting removes into itself changes nothing,
/// where merging a value into itself and truncating it by the empty clock
/// changes nothing.
pub proof fn lemma_merge_same<K, V: Val<A>, A: Actor>(s: MapView<K, V::V, A>)
    requires
        map_valid::<K, V, A>(s),
        s.deferred.len() == 0,
        forall|k: K| #[trigger]
            s.entries.contains_key(k) ==> V::truncate_spec(
                V::merge_spec(s.entries[k].val, s.entries[k].val),
                Map::<A, Counter>::empty(),
            ) == s.entries[k].val,
    ensures
        merged::<K, V, A>(s, s) == s,
{
    assert(s.deferred =~= Seq::<(Map<A, Counter>, Set<K>)>::empty());
    lemma_merge_idempotent(s.clock);
    assert forall|k: K| s.entries.contains_key(k) implies merged_entry::<K, V, A>(s, s, k) == Some(
        s.entries[k],
    ) by {
        let e = s.entries[k];
        assert(entry_valid::<V, A>(e));
        let shared = common(e.clock, e.clock);
        assert(shared =~= e.clock);
        let here = alive(e.clock, shared, s.clock);
        assert(here =~= Map::<A, Counter>::empty());
        let all = joined(joined(shared, here), here);
        assert(all =~= e.clock);
        assert(subtracted(joined(here, here), all) =~= Map::<A, Counter>::empty());
    }
    assert(merged_entries::<K, V, A>(s, s) =~= s.entries);
    lemma_merged_without_waiting::<K, V, A>(s, s);
}

/// Reset-remove: a remove under the clock `c` keeps the entry of its key
/// where the entry holds a dot that `c` does not dominate. Of the entry
/// exactly the dots stay that `c` does not dominate, and the value is the
/// value truncated by `c`.
pub proof fn lemma_rm_keeps_unseen<K, V: Val<A>, A: Actor>(
    s: MapView<K, V::V, A>,
    key: K,
    c: Map<A, Counter>,
    a: A,
)
    requires
        map_valid::<K, V, A>(s),
        s.entries.contains_key(key),
        s.entries[key].clock.contains_key(a),
        count_of(c, a) < s.entries[key].clock[a],
    ensures
        rm_spec::<K, V, A>(s, key, c).entries.contains_key(key),
        rm_spec::<K, V, A>(s, key, c).entries[key].clock == subtracted(s.entries[key].clock, c),
        rm_spec::<K, V, A>(s, key, c).entries[key].clock.contains_key(a),
        rm_spec::<K, V, A>(s, key, c).entries[key].clock[a] == s.entries[key].clock[a],
        forgotten(rm_spec::<K, V, A>(s, key, c).entries[key].clock, c),
        rm_spec::<K, V, A>(s, key, c).entries[key].val == V::truncate_spec(s.entries[key].val, c),
{
    assert(set![key].contains(key));
    assert(subtracted(s.entries[key].clock, c).contains_key(a));
}

/// Reset-remove on merge: where one replica holds an entry with a dot that
/// the other replica has not seen, and the other replica holds no entry for
/// the key, the merge keeps the entry. Of the entry exactly the dots stay
/// that the other replica has not seen, and the value loses what the other
/// replica has seen beyond them. This is stated of states without waiting
/// removes.
pub proof fn lemma_merge_keeps_unseen<K, V: Val<A>, A: Actor>(
    s: MapView<K, V::V, A>,
    o: MapView<K, V::V, A>,
    key: K,
    a: A,
)
    requires
        map_valid::<K, V, A>(s),
        map_valid::<K, V, A>(o),
        s.deferred.len() == 0,
        o.deferred.len() == 0,
        s.entries.contains_key(key),
        !o.entries.contains_key(key),
        s.entries[key].clock.contains_key(a),
        count_of(o.clock, a) < s.entries[key].clock[a],
    ensures
        merged::<K, V, A>(s, o).entries.contains_key(key),
        merged::<K, V, A>(s, o).entries[key].clock == subtracted(s.entries[key].clock, o.clock),
        merged::<K, V, A>(s, o).entries[key].clock[a] == s.entries[key].clock[a],
        forgotten(merged::<K, V, A>(s, o).entries[key].clock, o.clock),
        merged::<K, V, A>(s, o).entries[key].val == V::truncate_spec(
            s.entries[key].val,
            subtracted(o.clock, subtracted(s.entries[key].clock, o.clock)),
        ),
{
    assert(s.deferred =~= Seq::<(Map<A, Counter>, Set<K>)>::empty());
    assert(o.deferred =~= Seq::<(Map<A, Counter>, Set<K>)>::empty());
    lemma_merged_without_waiting::<K, V, A>(s, o);
    assert(subtracted(s.entries[key].clock, o.clock).contains_key(a));
}

/// The clock of the entry under a key; the empty clock where the key has no entry.
pub open spec fn entry_clock<K, VV, A>(s: MapView<K, VV, A>, key: K) -> Map<A, Counter> {
    if s.entries.contains_key(key) {
        s.entries[key].clock
    } else {
        Map::empty()
    }
}

/// The clocks of a state are valid: what validity asks of the clock of the
/// state and of the clocks of its entries.
pub open spec fn clocks_valid<K, VV, A>(s: MapView<K, VV, A>) -> bool {
    &&& clock_wf(s.clock)
    &&& forall|k: K| #[trigger]
        s.entries.contains_key(k) ==> clock_wf(s.entries[k].clock) && s.entries[k].clock
            != Map::<A, Counter>::empty() && clock_le(s.entries[k].clock, s.clock)
}

/// The counter that a merge leaves an actor in the clock of an entry: `e`
/// and `f` are the counters of the actor in the clocks of the two entries,
/// `c` and `d` its counters in the clocks of the two states. A counter that
/// both entries hold stays; of two different counters each stays that the
/// other state has not seen, and the larger one of them stands.
pub open spec fn merged_count(e: Counter, c: Counter, f: Counter, d: Counter) -> Counter {
    if e == f {
        e
    } else {
        let here = if e > d {
            e
        } else {
            0
        };
        let there = if f > c {
            f
        } else {
            0
        };
        if here >= there {
            here
        } else {
            there
        }
    }
}

/// The clocks of a merge of two states without waiting removes: the clock
/// of the merged state is the join of the two clocks, the counters in the
/// clock of each entry are those of `merged_count`, and the merged state
/// has no waiting removes and valid clocks.
pub proof fn lemma_merged_clocks<K, V: Val<A>, A: Actor>(
    s: MapView<K, V::V, A>,
    o: MapView<K, V::V, A>,
)
    requires
        clocks_valid(s),
        clocks_valid(o),
        s.deferred.len() == 0,
        o.deferred.len() == 0,
    ensures
        merged::<K, V, A>(s, o).clock == joined(s.clock, o.clock),
        merged::<K, V, A>(s, o).deferred.len() == 0,
        clocks_valid(merged::<K, V, A>(s, o)),
        forall|k: K, a: A|
            #[trigger] count_of(entry_clock(merged::<K, V, A>(s, o), k), a) == merged_count(
                count_of(entry_clock(s, k), a),
                count_of(s.clock, a),
                count_of(entry_clock(o, k), a),
                count_of(o.clock, a),
            ),
{
    assert(s.deferred =~= Seq::<(Map<A, Counter>, Set<K>)>::empty());
    assert(o.deferred =~= Seq::<(Map<A, Counter>, Set<K>)>::empty());
    lemma_merged_without_waiting::<K, V, A>(s, o);
    let t = merged::<K, V, A>(s, o);
    crate::vclock::lemma_joined_wf(s.clock, o.clock);
    assert forall|k: K, a: A|
        #[trigger] count_of(entry_clock(t, k), a) == merged_count(
            count_of(entry_clock(s, k), a),
            count_of(s.clock, a),
            count_of(entry_clock(o, k), a),
            count_of(o.clock, a),
        ) by {
        lemma_merged_entry_count::<K, V, A>(s, o, k, a);
    }
    assert forall|k: K| #[trigger] t.entries.contains_key(k) implies clock_wf(t.entries[k].clock)
        && t.entries[k].clock != Map::<A, Counter>::empty() && clock_le(
        t.entries[k].clock,
        t.clock,
    ) by {
        lemma_merged_entry_clock_valid::<K, V, A>(s, o, k);
    }
}

/// The counter of an actor in the clock of the entry that a merge keeps
/// under a key.
pub proof fn lemma_merged_entry_count<K, V: Val<A>, A: Actor>(
    s: MapView<K, V::V, A>,
    o: MapView<K, V::V, A>,
    key: K,
    a: A,
)
    requires
        clocks_valid(s),
        clocks_valid(o),
    ensures
        count_of(
            match merged_entry::<K, V, A>(s, o, key) {
                Some(e) => e.clock,
                None => Map::<A, Counter>::empty(),
            },
            a,
        ) == merged_count(
            count_of(entry_clock(s, key), a),
            count_of(s.clock, a),
            count_of(entry_clock(o, key), a),
            count_of(o.clock, a),
        ),
{
    if s.entries.contains_key(key) {
        let e = s.entries[key].clock;
        assert(count_of(e, a) <= count_of(s.clock, a));
        if e.contains_key(a) {
            assert(e[a] > 0);
        }
    }
    if o.entries.contains_key(key) {
        let f = o.entries[key].clock;
        assert(count_of(f, a) <= count_of(o.clock, a));
        if f.contains_key(a) {
            assert(f[a] > 0);
        }
    }
    if s.entries.contains_key(key) && o.entries.contains_key(key) {
        let e = s.entries[key].clock;
        let f = o.entries[key].clock;
        let shared = common(e, f);
        let here = alive(e, shared, o.clock);
        let there = alive(f, shared, s.clock);
        let all = joined(joined(shared, here), there);
        if all == Map::<A, Counter>::empty() {
            assert(!all.contains_key(a));
        }
    } else if s.entries.contains_key(key) {
        let e = s.entries[key].clock;
        let rest = subtracted(e, o.clock);
        if rest == Map::<A, Counter>::empty() {
            assert(!rest.contains_key(a));
        }
    } else if o.entries.contains_key(key) {
        let f = o.entries[key].clock;
        let rest = subtracted(f, s.clock);
        if rest == Map::<A, Counter>::empty() {
            assert(!rest.contains_key(a));
        }
    }
}

/// The clock of an entry that a merge keeps is well formed and holds a dot,
/// and the join of the clocks of the two states dominates it.
pub proof fn lemma_merged_entry_clock_valid<K, V: Val<A>, A: Actor>(
    s: MapView<K, V::V, A>,
    o: MapView<K, V::V, A>,
    key: K,
)
    requires
        clocks_valid(s),
        clocks_valid(o),
        merged_entry::<K, V, A>(s, o, key) is Some,
    ensures
        clock_wf(merged_entry::<K, V, A>(s, o, key).unwrap().clock),
        merged_entry::<K, V, A>(s, o, key).unwrap().clock != Map::<A, Counter>::empty(),
        clock_le(merged_entry::<K, V, A>(s, o, key).unwrap().clock, joined(s.clock, o.clock)),
{
    let c = merged_entry::<K, V, A>(s, o, key).unwrap().clock;
    assert forall|a: A| #[trigger] count_of(c, a) <= count_of(joined(s.clock, o.clock), a) by {
        lemma_merged_entry_count::<K, V, A>(s, o, key, a);
        if s.entries.contains_key(key) {
            assert(count_of(s.entries[key].clock, a) <= count_of(s.clock, a));
        }
        if o.entries.contains_key(key) {
            assert(count_of(o.entries[key].clock, a) <= count_of(o.clock, a));
        }
    }
    if s.entries.contains_key(key) && o.entries.contains_key(key) {
        let e = s.entries[key].clock;
        let f = o.entries[key].clock;
        let shared = common(e, f);
        crate::vclock::lemma_common_le(e, f);
        crate::vclock::lemma_subtracted_le(e, shared);
        crate::vclock::lemma_subtracted_le(subtracted(e, shared), o.clock);
        crate::vclock::lemma_subtracted_le(f, shared);
        crate::vclock::lemma_subtracted_le(subtracted(f, shared), s.clock);
        crate::vclock::lemma_joined_wf(shared, alive(e, shared, o.clock));
        crate::vclock::lemma_joined_wf(
            joined(shared, alive(e, shared, o.clock)),
            alive(f, shared, s.clock),
        );
    } else if s.entries.contains_key(key) {
        crate::vclock::lemma_subtracted_le(s.entries[key].clock, o.clock);
    } else {
        crate::vclock::lemma_subtracted_le(o.entries[key].clock, s.clock);
    }
}

/// Merging is associative in the clocks, on states without waiting
/// removes: whichever two of three states are merged first, the merged
/// state has the same clock, entries under the same keys, the same clock in
/// each entry, and no waiting removes.
pub proof fn lemma_merge_associative_clocks<K, V: Val<A>, A: Actor>(
    s: MapView<K, V::V, A>,
    n: MapView<K, V::V, A>,
    o: MapView<K, V::V, A>,
)
    requires
        clocks_valid(s),
        clocks_valid(n),
        clocks_valid(o),
        s.deferred.len() == 0,
        n.deferred.len() == 0,
        o.deferred.len() == 0,
    ensures
        merged::<K, V, A>(merged::<K, V, A>(s, n), o).clock == merged::<K, V, A>(
            s,
            merged::<K, V, A>(n, o),
        ).clock,
        merged::<K, V, A>(merged::<K, V, A>(s, n), o).entries.dom() == merged::<K, V, A>(
            s,
            merged::<K, V, A>(n, o),
        ).entries.dom(),
        forall|k: K|
            entry_clock(#[trigger] merged::<K, V, A>(merged::<K, V, A>(s, n), o), k) == entry_clock(
                merged::<K, V, A>(s, merged::<K, V, A>(n, o)),
                k,
            ),
        merged::<K, V, A>(merged::<K, V, A>(s, n), o).deferred == merged::<K, V, A>(
            s,
            merged::<K, V, A>(n, o),
        ).deferred,
{
    let sn = merged::<K, V, A>(s, n);
    let no = merged::<K, V, A>(n, o);
    let l = merged::<K, V, A>(sn, o);
    let r = merged::<K, V, A>(s, no);
    lemma_merged_clocks::<K, V, A>(s, n);
    lemma_merged_clocks::<K, V, A>(n, o);
    lemma_merged_clocks::<K, V, A>(sn, o);
    lemma_merged_clocks::<K, V, A>(s, no);
    crate::vclock_laws::lemma_merge_associative(s.clock, n.clock, o.clock);
    assert(l.deferred =~= r.deferred);
    assert forall|k: K| entry_clock(l, k) == entry_clock(r, k) by {
        lemma_entry_clock_wf(l, k);
        lemma_entry_clock_wf(r, k);
        assert forall|a: A| count_of(entry_clock(l, k), a) == count_of(entry_clock(r, k), a) by {
            let e = count_of(entry_clock(s, k), a);
            let f = count_of(entry_clock(n, k), a);
            let g = count_of(entry_clock(o, k), a);
            assert(e <= count_of(s.clock, a)) by {
                if s.entries.contains_key(k) {
                    assert(count_of(s.entries[k].clock, a) <= count_of(s.clock, a));
                }
            }
            assert(f <= count_of(n.clock, a)) by {
                if n.entries.contains_key(k) {
                    assert(count_of(n.entries[k].clock, a) <= count_of(n.clock, a));
                }
            }
            assert(g <= count_of(o.clock, a)) by {
                if o.entries.contains_key(k) {
                    assert(count_of(o.entries[k].clock, a) <= count_of(o.clock, a));
                }
            }
            assert(count_of(entry_clock(sn, k), a) == merged_count(
                e,
                count_of(s.clock, a),
                f,
                count_of(n.clock, a),
            ));
            assert(count_of(entry_clock(no, k), a) == merged_count(
                f,
                count_of(n.clock, a),
                g,
                count_of(o.clock, a),
            ));
            assert(count_of(entry_clock(l, k), a) == merged_count(
                count_of(entry_clock(sn, k), a),
                count_of(sn.clock, a),
                g,
                count_of(o.clock, a),
            ));
            assert(count_of(entry_clock(r, k), a) == merged_count(
                e,
                count_of(s.clock, a),
                count_of(entry_clock(no, k), a),
                count_of(no.clock, a),
            ));
        }
        crate::vclock::lemma_clock_ext(entry_clock(l, k), entry_clock(r, k));
    }
    assert forall|k: K| l.entries.contains_key(k) == r.entries.contains_key(k) by {
        assert(entry_clock(l, k) == entry_clock(r, k));
    }
    assert(l.entries.dom() =~= r.entries.dom());
}

/// The clock of an entry of a state with valid clocks is well formed.
pub proof fn lemma_entry_clock_wf<K, VV, A>(s: MapView<K, VV, A>, key: K)
    requires
        clocks_valid(s),
    ensures
        clock_wf(entry_clock(s, key)),
{
}

/// Two states with the same clock and the same entries, in which the same
/// keys wait under the same clocks, whatever the order in which the clocks
/// came.
pub open spec fn same_state<K, VV, A>(s: MapView<K, VV, A>, t: MapView<K, VV, A>) -> bool {
    &&& s.clock == t.clock
    &&& s.entries == t.entries
    &&& forall|c: Map<A, Counter>| has_clock(s.deferred, c) == has_clock(t.deferred, c)
    &&& forall|c: Map<A, Counter>| waiting(s.deferred, c) == waiting(t.deferred, c)
}

/// Two removes leave the same state in either order, but for the order in
/// which their clocks came to wait; where both remove one key, this holds
/// where truncating the value under the key by the two clocks gives the
/// same value in either order.
pub proof fn lemma_removes_commute<K, V: Val<A>, A: Actor>(
    s: MapView<K, V::V, A>,
    key: K,
    c: Map<A, Counter>,
    other_key: K,
    d: Map<A, Counter>,
)
    requires
        map_valid::<K, V, A>(s),
        clock_wf(c),
        clock_wf(d),
        key == other_key && s.entries.contains_key(key) ==> V::truncate_spec(
            V::truncate_spec(s.entries[key].val, c),
            d,
        ) == V::truncate_spec(V::truncate_spec(s.entries[key].val, d), c),
    ensures
        same_state(
            rm_spec::<K, V, A>(rm_spec::<K, V, A>(s, key, c), other_key, d),
            rm_spec::<K, V, A>(rm_spec::<K, V, A>(s, other_key, d), key, c),
        ),
{
    let first = rm_spec::<K, V, A>(s, key, c);
    let second = rm_spec::<K, V, A>(s, other_key, d);
    let l = rm_spec::<K, V, A>(first, other_key, d);
    let r = rm_spec::<K, V, A>(second, key, c);
    assert(set![key].contains(key));
    assert(set![other_key].contains(other_key));
    assert(set![key].len() > 0);
    assert(set![other_key].len() > 0);
    assert forall|k: K|
        (#[trigger] l.entries.dom().contains(k)) == r.entries.dom().contains(k) && (
        l.entries.dom().contains(k) ==> l.entries[k] == r.entries[k]) by {
        if s.entries.contains_key(k) {
            let e = s.entries[k].clock;
            lemma_subtract_commutes(e, c, d);
            assert(subtracted(Map::<A, Counter>::empty(), c) =~= Map::<A, Counter>::empty());
            assert(subtracted(Map::<A, Counter>::empty(), d) =~= Map::<A, Counter>::empty());
            if k == key && k == other_key {
                if subtracted(e, c) == Map::<A, Counter>::empty() {
                    assert(subtracted(subtracted(e, d), c) == Map::<A, Counter>::empty());
                }
                if subtracted(e, d) == Map::<A, Counter>::empty() {
                    assert(subtracted(subtracted(e, c), d) == Map::<A, Counter>::empty());
                }
            }
        }
    }
    assert(l.entries =~= r.entries);
    let sd = s.deferred;
    if !clock_le(c, s.clock) {
        lemma_defer_group_valid(sd, c, set![key]);
    }
    if !clock_le(d, s.clock) {
        lemma_defer_group_valid(sd, d, set![other_key]);
    }
    assert forall|x: Map<A, Counter>|
        has_clock(l.deferred, x) == has_clock(r.deferred, x) && waiting(l.deferred, x) == waiting(
            r.deferred,
            x,
        ) by {
        if !clock_le(c, s.clock) {
            lemma_defer_group_waiting(sd, c, set![key], x);
            if !clock_le(d, s.clock) {
                lemma_defer_group_waiting(first.deferred, d, set![other_key], x);
                lemma_defer_group_waiting(sd, d, set![other_key], x);
                lemma_defer_group_waiting(second.deferred, c, set![key], x);
                lemma_defer_group_waiting(sd, c, set![key], d);
                lemma_defer_group_waiting(sd, d, set![other_key], c);
                assert(waiting(sd, x).union(set![key]).union(set![other_key]) =~= waiting(sd, x).union(
                    set![other_key],
                ).union(set![key]));
            }
        } else {
            if !clock_le(d, s.clock) {
                lemma_defer_group_waiting(sd, d, set![other_key], x);
            }
        }
    }
}

/// An update and a remove of another key leave the same state in either
/// order, on a state without waiting removes, where truncating the value
/// under the removed key twice by the clock of the remove is truncating it
/// once.
pub proof fn lemma_update_remove_commute<K, V: Val<A>, A: Actor>(
    s: MapView<K, V::V, A>,
    actor: A,
    counter: Counter,
    key: K,
    op: V::Op,
    rm_key: K,
    c: Map<A, Counter>,
)
    requires
        map_valid::<K, V, A>(s),
        s.deferred.len() == 0,
        clock_wf(c),
        key != rm_key,
        s.entries.contains_key(rm_key) ==> V::truncate_spec(
            V::truncate_spec(s.entries[rm_key].val, c),
            c,
        ) == V::truncate_spec(s.entries[rm_key].val, c),
    ensures
        up_spec::<K, V, A>(rm_spec::<K, V, A>(s, rm_key, c), actor, counter, key, op)
            == rm_spec::<K, V, A>(up_spec::<K, V, A>(s, actor, counter, key, op), rm_key, c),
{
    let removed = rm_spec::<K, V, A>(s, rm_key, c);
    let updated = up_spec::<K, V, A>(s, actor, counter, key, op);
    let l = up_spec::<K, V, A>(removed, actor, counter, key, op);
    let r = rm_spec::<K, V, A>(updated, rm_key, c);
    let none = Seq::<(Map<A, Counter>, Set<K>)>::empty();
    assert(s.deferred =~= none);
    assert(set![rm_key].contains(rm_key));
    assert(set![rm_key].len() > 0);
    assert(set![rm_key] != Set::<K>::empty());
    lemma_witnessed_le(s.clock, actor, counter);
    if count_of(s.clock, actor) < counter {
        let top = witnessed(s.clock, actor, counter);
        let e = if s.entries.contains_key(key) {
            s.entries[key]
        } else {
            fresh_entry::<V, A>()
        };
        let entry = EntryView {
            clock: witnessed(e.clock, actor, counter),
            val: V::apply_spec(e.val, op),
        };
        assert(updated.deferred =~= none);
        assert(updated == (MapView { clock: top, entries: s.entries.insert(key, entry), deferred: none }));
        if s.entries.contains_key(rm_key) {
            lemma_subtract_commutes(s.entries[rm_key].clock, c, c);
        }
        let x = MapView {
            clock: top,
            entries: removed.entries.insert(key, entry),
            deferred: removed.deferred,
        };
        let start = MapView { clock: top, entries: x.entries, deferred: none };
        if clock_le(c, s.clock) {
            crate::vclock::lemma_le_trans(c, s.clock, top);
            assert(removed.deferred =~= none);
            assert(l == start);
            assert(l.entries =~= r.entries);
        } else {
            assert(removed.deferred =~= none.push((c, set![rm_key])));
            let groups = x.deferred;
            assert(groups.len() == 1);
            assert(groups.drop_first() =~= none);
            let after = rm_group::<K, V, A>(start, groups[0].0, groups[0].1);
            assert(rm_groups::<K, V, A>(after, groups.drop_first()) == after);
            assert(l == after);
            assert(l.entries =~= r.entries);
            assert(l.deferred =~= r.deferred);
        }
    } else {
        assert(updated == s);
    }
}

/// An update and a merge agree: to merge the state before an update into
/// the state after it changes nothing, on a state without waiting removes.
/// This holds where, for the values, merging a value into itself, merging
/// the value before the nested operation into the value after it, and
/// truncating the new value of a new entry by what the state had seen,
/// change nothing.
pub proof fn lemma_merge_behind_update<K, V: Val<A>, A: Actor>(
    s: MapView<K, V::V, A>,
    actor: A,
    counter: Counter,
    key: K,
    op: V::Op,
)
    requires
        map_valid::<K, V, A>(s),
        s.deferred.len() == 0,
        forall|k: K| #[trigger]
            s.entries.contains_key(k) ==> V::truncate_spec(
                V::merge_spec(s.entries[k].val, s.entries[k].val),
                Map::<A, Counter>::empty(),
            ) == s.entries[k].val,
        s.entries.contains_key(key) ==> V::truncate_spec(
            V::merge_spec(V::apply_spec(s.entries[key].val, op), s.entries[key].val),
            Map::<A, Counter>::empty(),
        ) == V::apply_spec(s.entries[key].val, op),
        !s.entries.contains_key(key) ==> V::truncate_spec(
            V::apply_spec(V::default_spec(), op),
            subtracted(s.clock, witnessed(Map::<A, Counter>::empty(), actor, counter)),
        ) == V::apply_spec(V::default_spec(), op),
    ensures
        merged::<K, V, A>(up_spec::<K, V, A>(s, actor, counter, key, op), s) == up_spec::<K, V, A>(
            s,
            actor,
            counter,
            key,
            op,
        ),
{
    let none = Seq::<(Map<A, Counter>, Set<K>)>::empty();
    assert(s.deferred =~= none);
    if count_of(s.clock, actor) >= counter {
        lemma_merge_same::<K, V, A>(s);
    } else {
        let t = up_spec::<K, V, A>(s, actor, counter, key, op);
        let top = witnessed(s.clock, actor, counter);
        let e = if s.entries.contains_key(key) {
            s.entries[key]
        } else {
            fresh_entry::<V, A>()
        };
        let entry = EntryView {
            clock: witnessed(e.clock, actor, counter),
            val: V::apply_spec(e.val, op),
        };
        assert(t == (MapView { clock: top, entries: s.entries.insert(key, entry), deferred: none }));
        lemma_witnessed_le(s.clock, actor, counter);
        assert(joined(top, s.clock) =~= top) by {
            assert forall|a: A| joined(top, s.clock).contains_key(a) implies joined(top, s.clock)[a]
                == top[a] by {
                assert(count_of(s.clock, a) <= count_of(top, a));
            }
        }
        assert forall|k: K| t.entries.contains_key(k) implies merged_entry::<K, V, A>(t, s, k) == Some(
            t.entries[k],
        ) by {
            if k == key {
                if s.entries.contains_key(key) {
                    let f = s.entries[key];
                    assert(entry_valid::<V, A>(f));
                    assert(count_of(f.clock, actor) <= count_of(s.clock, actor));
                    let shared = common(entry.clock, f.clock);
                    let here = alive(entry.clock, shared, s.clock);
                    let there = alive(f.clock, shared, top);
                    assert forall|a: A| f.clock.contains_key(a) implies f.clock[a] > 0 && f.clock[a]
                        <= count_of(top, a) by {
                        assert(count_of(f.clock, a) <= count_of(s.clock, a));
                        assert(count_of(s.clock, a) <= count_of(top, a));
                    }
                    assert(there =~= Map::<A, Counter>::empty());
                    assert(here =~= witnessed(Map::<A, Counter>::empty(), actor, counter));
                    let all = joined(joined(shared, here), there);
                    assert(all =~= entry.clock);
                    assert(subtracted(joined(here, there), all) =~= Map::<A, Counter>::empty());
                } else {
                    assert(entry.clock =~= witnessed(Map::<A, Counter>::empty(), actor, counter));
                    assert(subtracted(entry.clock, s.clock) =~= entry.clock);
                }
            } else {
                let f = s.entries[k];
                assert(s.entries.contains_key(k));
                assert(entry_valid::<V, A>(f));
                assert forall|a: A| f.clock.contains_key(a) implies f.clock[a] > 0 && f.clock[a]
                    <= count_of(s.clock, a) && f.clock[a] <= count_of(top, a) by {
                    assert(count_of(f.clock, a) <= count_of(s.clock, a));
                    assert(count_of(s.clock, a) <= count_of(top, a));
                }
                let shared = common(f.clock, f.clock);
                assert(shared =~= f.clock);
                let here = alive(f.clock, shared, s.clock);
                let there = alive(f.clock, shared, top);
                assert(here =~= Map::<A, Counter>::empty());
                assert(there =~= Map::<A, Counter>::empty());
                let all = joined(joined(shared, here), there);
                assert(all =~= f.clock);
                assert(subtracted(joined(here, there), all) =~= Map::<A, Counter>::empty());
            }
        }
        assert forall|k: K| !t.entries.contains_key(k) implies merged_entry::<K, V, A>(t, s, k)
            is None by {
            assert(!s.entries.contains_key(k));
        }
        assert(merged_entries::<K, V, A>(t, s) =~= t.entries);
        lemma_merged_without_waiting::<K, V, A>(t, s);
    }
}

/// Causal delivery across a merge: after a merge, each remove that waited
/// in either state has taken effect. The entry of each of its keys, if one
/// is left, holds no dot that its clock dominates; and it waits on exactly
/// where the joined clock does not dominate its clock.
pub proof fn lemma_merge_delivers<K, V: Val<A>, A: Actor>(
    s: MapView<K, V::V, A>,
    o: MapView<K, V::V, A>,
    c: Map<A, Counter>,
    key: K,
)
    requires
        map_valid::<K, V, A>(s),
        map_valid::<K, V, A>(o),
        (has_clock(s.deferred, c) && waiting(s.deferred, c).contains(key)) || (has_clock(
            o.deferred,
            c,
        ) && waiting(o.deferred, c).contains(key)),
    ensures
        merged::<K, V, A>(s, o).clock == joined(s.clock, o.clock),
        merged::<K, V, A>(s, o).entries.contains_key(key) ==> forgotten(
            merged::<K, V, A>(s, o).entries[key].clock,
            c,
        ),
        clock_le(c, joined(s.clock, o.clock)) ==> !has_clock(merged::<K, V, A>(s, o).deferred, c),
        !clock_le(c, joined(s.clock, o.clock)) ==> has_clock(merged::<K, V, A>(s, o).deferred, c)
            && waiting(merged::<K, V, A>(s, o).deferred, c).contains(key),
{
    let top = joined(s.clock, o.clock);
    let kept = MapView {
        clock: s.clock,
        entries: crate::map_model::merged_entries::<K, V, A>(s, o),
        deferred: s.deferred,
    };
    let replayed = rm_groups::<K, V, A>(kept, o.deferred);
    let joined_state = MapView { clock: top, entries: replayed.entries, deferred: replayed.deferred };
    let start = MapView::<K, V::V, A> {
        clock: top,
        entries: replayed.entries,
        deferred: Seq::empty(),
    };
    let t = merged::<K, V, A>(s, o);
    assert(t == rm_groups::<K, V, A>(start, replayed.deferred));
    lemma_rm_groups_keeps::<K, V, A>(kept, o.deferred, key, c);
    lemma_rm_groups_keeps::<K, V, A>(start, replayed.deferred, key, c);
    crate::vclock::lemma_joined_lub(s.clock, o.clock, top);
    if !clock_le(c, top) {
        if clock_le(c, s.clock) {
            crate::vclock::lemma_le_trans(c, s.clock, top);
        }
    }
    if has_clock(o.deferred, c) && waiting(o.deferred, c).contains(key) {
        let i = position(o.deferred, c);
        lemma_rm_groups_delivers::<K, V, A>(kept, o.deferred, i, key);
    }
    if has_clock(replayed.deferred, c) && waiting(replayed.deferred, c).contains(key) {
        let j = position(replayed.deferred, c);
        lemma_rm_groups_delivers::<K, V, A>(start, replayed.deferred, j, key);
    } else {
        assert(clock_le(c, s.clock));
        assert(has_clock(o.deferred, c) && waiting(o.deferred, c).contains(key));
        crate::vclock::lemma_le_trans(c, s.clock, top);
    }
}

} // verus!
