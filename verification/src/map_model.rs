//! The mathematical model of the map: its states, and what each operation
//! makes of a state.
use vstd::prelude::*;
use crate::map::{Key, Op, Val};
use crate::vclock::{
    clock_le, clock_wf, common, count_of, joined, lemma_common_le, lemma_joined_lub, lemma_le_trans,
    lemma_subtracted_le, subtracted, witnessed, Actor, Counter,
};

verus! {

/// The model of an entry: the dots that touched the key, and the model of
/// the value under it.
#[verifier::reject_recursive_types(A)]
pub struct EntryView<VV, A> {
    /// The dots that touched the key and were not removed since.
    pub clock: Map<A, Counter>,
    /// The model of the value.
    pub val: VV,
}

/// The model of a map.
#[verifier::reject_recursive_types(K)]
#[verifier::reject_recursive_types(A)]
pub struct MapView<K, VV, A> {
    /// Every event that the replica has observed.
    pub clock: Map<A, Counter>,
    /// The entries by key.
    pub entries: Map<K, EntryView<VV, A>>,
    /// The removes that wait for their clock to be observed: for each clock
    /// the keys to remove, in the order in which the clocks came.
    pub deferred: Seq<(Map<A, Counter>, Set<K>)>,
}

/// The state of a map that nothing was applied to.
pub open spec fn empty_map<K, VV, A>() -> MapView<K, VV, A> {
    MapView { clock: Map::empty(), entries: Map::empty(), deferred: Seq::empty() }
}

/// The entry that an update starts from where the key has none.
pub open spec fn fresh_entry<V: Val<A>, A: Actor>() -> EntryView<V::V, A> {
    EntryView { clock: Map::empty(), val: V::default_spec() }
}

/// An entry is valid when its clock is a well-formed clock that holds at
/// least one dot, and its value is valid.
pub open spec fn entry_valid<V: Val<A>, A: Actor>(e: EntryView<V::V, A>) -> bool {
    &&& clock_wf(e.clock)
    &&& e.clock != Map::<A, Counter>::empty()
    &&& V::valid(e.val)
}

/// The waiting removes are valid when their clocks are well formed and
/// pairwise different, and each has finitely many keys, at least one.
pub open spec fn deferred_valid<K, A>(d: Seq<(Map<A, Counter>, Set<K>)>) -> bool {
    &&& forall|i: int| 0 <= i < d.len() ==> clock_wf(#[trigger] d[i].0)
    &&& forall|i: int| 0 <= i < d.len() ==> (#[trigger] d[i]).1.finite() && d[i].1.len() > 0
    &&& forall|i: int, j: int| 0 <= i < j < d.len() ==> (#[trigger] d[i]).0 != (#[trigger] d[j]).0
}

/// A state is sound when its clock is well formed, it has finitely many
/// entries, each of them valid, and its waiting removes are valid.
pub open spec fn map_sound<K, V: Val<A>, A: Actor>(s: MapView<K, V::V, A>) -> bool {
    &&& clock_wf(s.clock)
    &&& s.entries.dom().finite()
    &&& forall|k: K| #[trigger] s.entries.contains_key(k) ==> entry_valid::<V, A>(s.entries[k])
    &&& deferred_valid(s.deferred)
}

/// A state is valid when it is sound and its clock dominates the clock of
/// each of its entries.
pub open spec fn map_valid<K, V: Val<A>, A: Actor>(s: MapView<K, V::V, A>) -> bool {
    &&& map_sound::<K, V, A>(s)
    &&& forall|k: K| #[trigger]
        s.entries.contains_key(k) ==> clock_le(s.entries[k].clock, s.clock)
}

/// True if some waiting remove has the clock `c`.
pub open spec fn has_clock<K, A>(d: Seq<(Map<A, Counter>, Set<K>)>, c: Map<A, Counter>) -> bool {
    exists|i: int| 0 <= i < d.len() && (#[trigger] d[i]).0 == c
}

/// The place of the waiting remove with the clock `c`, where there is one.
pub open spec fn position<K, A>(d: Seq<(Map<A, Counter>, Set<K>)>, c: Map<A, Counter>) -> int {
    choose|i: int| 0 <= i < d.len() && (#[trigger] d[i]).0 == c
}

/// The keys that wait under the clock `c`; none where no remove has that clock.
pub open spec fn waiting<K, A>(d: Seq<(Map<A, Counter>, Set<K>)>, c: Map<A, Counter>) -> Set<K> {
    if has_clock(d, c) {
        d[position(d, c)].1
    } else {
        Set::empty()
    }
}

/// The waiting removes after the keys were added under the clock `c`: added
/// to the keys that wait under that clock already, or else as a new remove
/// at the end.
pub open spec fn defer_group<K, A>(
    d: Seq<(Map<A, Counter>, Set<K>)>,
    c: Map<A, Counter>,
    keys: Set<K>,
) -> Seq<(Map<A, Counter>, Set<K>)> {
    if has_clock(d, c) {
        d.update(position(d, c), (c, d[position(d, c)].1.union(keys)))
    } else {
        d.push((c, keys))
    }
}

/// The waiting removes after the keys under the clock `c` were set to `keys`:
/// in place of the keys that waited under that clock, or else as a new
/// remove at the end.
pub open spec fn put_group<K, A>(
    d: Seq<(Map<A, Counter>, Set<K>)>,
    c: Map<A, Counter>,
    keys: Set<K>,
) -> Seq<(Map<A, Counter>, Set<K>)> {
    if has_clock(d, c) {
        d.update(position(d, c), (c, keys))
    } else {
        d.push((c, keys))
    }
}

/// What a remove under the clock `c` leaves of an entry: nothing if the
/// clock dominates every dot of the entry; else the dots that it does not
/// dominate, and the value without what the clock dominates.
pub open spec fn entry_rm<V: Val<A>, A: Actor>(e: EntryView<V::V, A>, c: Map<A, Counter>) -> Option<
    EntryView<V::V, A>,
> {
    let rest = subtracted(e.clock, c);
    if rest == Map::<A, Counter>::empty() {
        None
    } else {
        Some(EntryView { clock: rest, val: V::truncate_spec(e.val, c) })
    }
}

/// The state after the removes of `keys` under the clock `c`: where the
/// state's clock does not dominate `c` the keys wait under it; and each of
/// the keys that has an entry has it removed under `c`.
pub open spec fn rm_group<K, V: Val<A>, A: Actor>(
    s: MapView<K, V::V, A>,
    c: Map<A, Counter>,
    keys: Set<K>,
) -> MapView<K, V::V, A> {
    MapView {
        clock: s.clock,
        entries: Map::new(
            |k: K|
                s.entries.contains_key(k) && (keys.contains(k) ==> entry_rm::<V, A>(
                    s.entries[k],
                    c,
                ) is Some),
            |k: K|
                if keys.contains(k) {
                    entry_rm::<V, A>(s.entries[k], c).unwrap()
                } else {
                    s.entries[k]
                },
        ),
        deferred: if clock_le(c, s.clock) || keys == Set::<K>::empty() {
            s.deferred
        } else {
            defer_group(s.deferred, c, keys)
        },
    }
}

/// The state after the remove of one key under the clock `c`.
pub open spec fn rm_spec<K, V: Val<A>, A: Actor>(
    s: MapView<K, V::V, A>,
    key: K,
    c: Map<A, Counter>,
) -> MapView<K, V::V, A> {
    rm_group::<K, V, A>(s, c, set![key])
}

/// The state after the given removes, one clock after the other.
pub open spec fn rm_groups<K, V: Val<A>, A: Actor>(
    s: MapView<K, V::V, A>,
    groups: Seq<(Map<A, Counter>, Set<K>)>,
) -> MapView<K, V::V, A>
    decreases groups.len(),
{
    if groups.len() == 0 {
        s
    } else {
        rm_groups::<K, V, A>(
            rm_group::<K, V, A>(s, groups[0].0, groups[0].1),
            groups.drop_first(),
        )
    }
}

/// The state after its waiting removes were taken out and applied again, in
/// their order: those whose clock the state's clock still does not dominate
/// wait again.
pub open spec fn drained<K, V: Val<A>, A: Actor>(s: MapView<K, V::V, A>) -> MapView<K, V::V, A> {
    rm_groups::<K, V, A>(
        MapView { clock: s.clock, entries: s.entries, deferred: Seq::empty() },
        s.deferred,
    )
}

/// The state after an update of `key` by the nested operation `op` under
/// the dot of `actor` and `counter`: unchanged where the state's clock holds
/// the dot already.
pub open spec fn up_spec<K, V: Val<A>, A: Actor>(
    s: MapView<K, V::V, A>,
    actor: A,
    counter: Counter,
    key: K,
    op: V::Op,
) -> MapView<K, V::V, A> {
    if count_of(s.clock, actor) >= counter {
        s
    } else {
        let e = if s.entries.contains_key(key) {
            s.entries[key]
        } else {
            fresh_entry::<V, A>()
        };
        let updated = EntryView {
            clock: witnessed(e.clock, actor, counter),
            val: V::apply_spec(e.val, op),
        };
        drained::<K, V, A>(
            MapView {
                clock: witnessed(s.clock, actor, counter),
                entries: s.entries.insert(key, updated),
                deferred: s.deferred,
            },
        )
    }
}

/// The state after an operation was applied.
pub open spec fn applied<K: Key, V: Val<A>, A: Actor>(
    s: MapView<K, V::V, A>,
    op: Op<K, V, A>,
) -> MapView<K, V::V, A> {
    match op {
        Op::Nop => s,
        Op::Rm { clock, key } => rm_spec::<K, V, A>(s, key, clock@),
        Op::Up { dot, key, op } => up_spec::<K, V, A>(s, dot.actor, dot.counter, key, op),
    }
}

/// What a merge keeps of an entry that the other replica has none for: the
/// dots that the other replica's clock does not dominate, if any, and the
/// value without what the other replica saw beyond them.
pub open spec fn kept_alone<V: Val<A>, A: Actor>(
    e: EntryView<V::V, A>,
    other_clock: Map<A, Counter>,
) -> Option<EntryView<V::V, A>> {
    let surviving = subtracted(e.clock, other_clock);
    if surviving == Map::<A, Counter>::empty() {
        None
    } else {
        Some(
            EntryView {
                clock: surviving,
                val: V::truncate_spec(e.val, subtracted(other_clock, surviving)),
            },
        )
    }
}

/// The dots of an entry that the entry of the other replica does not share
/// and the other replica's clock does not dominate.
pub open spec fn alive<A>(
    entry_clock: Map<A, Counter>,
    shared: Map<A, Counter>,
    other_clock: Map<A, Counter>,
) -> Map<A, Counter> {
    subtracted(subtracted(entry_clock, shared), other_clock)
}

/// What a merge keeps of two entries for one key: the dots that both share
/// and those that are alive on either side, if any, with the merged value.
pub open spec fn kept_both<V: Val<A>, A: Actor>(
    e: EntryView<V::V, A>,
    other: EntryView<V::V, A>,
    clock: Map<A, Counter>,
    other_clock: Map<A, Counter>,
) -> Option<EntryView<V::V, A>> {
    let shared = common(e.clock, other.clock);
    let here = alive(e.clock, shared, other_clock);
    let there = alive(other.clock, shared, clock);
    let all = joined(joined(shared, here), there);
    if all == Map::<A, Counter>::empty() {
        None
    } else {
        Some(
            EntryView {
                clock: all,
                val: V::truncate_spec(
                    V::merge_spec(e.val, other.val),
                    subtracted(joined(here, there), all),
                ),
            },
        )
    }
}

/// What a merge of the states `s` and `o` keeps under `key`.
pub open spec fn merged_entry<K, V: Val<A>, A: Actor>(
    s: MapView<K, V::V, A>,
    o: MapView<K, V::V, A>,
    key: K,
) -> Option<EntryView<V::V, A>> {
    if s.entries.contains_key(key) && o.entries.contains_key(key) {
        kept_both::<V, A>(s.entries[key], o.entries[key], s.clock, o.clock)
    } else if s.entries.contains_key(key) {
        kept_alone::<V, A>(s.entries[key], o.clock)
    } else if o.entries.contains_key(key) {
        kept_alone::<V, A>(o.entries[key], s.clock)
    } else {
        None
    }
}

/// The entries that a merge of the states `s` and `o` keeps.
pub open spec fn merged_entries<K, V: Val<A>, A: Actor>(
    s: MapView<K, V::V, A>,
    o: MapView<K, V::V, A>,
) -> Map<K, EntryView<V::V, A>> {
    Map::new(
        |k: K| merged_entry::<K, V, A>(s, o, k) is Some,
        |k: K| merged_entry::<K, V, A>(s, o, k).unwrap(),
    )
}

/// The state after the state `o` was merged into the state `s`: the entries
/// are those that the merge keeps; then the waiting removes of `o` are
/// applied, under the clock of `s`; then the clocks are joined; and then the
/// waiting removes are applied again.
pub open spec fn merged<K, V: Val<A>, A: Actor>(
    s: MapView<K, V::V, A>,
    o: MapView<K, V::V, A>,
) -> MapView<K, V::V, A> {
    let kept = MapView {
        clock: s.clock,
        entries: merged_entries::<K, V, A>(s, o),
        deferred: s.deferred,
    };
    let replayed = rm_groups::<K, V, A>(kept, o.deferred);
    drained::<K, V, A>(
        MapView {
            clock: joined(s.clock, o.clock),
            entries: replayed.entries,
            deferred: replayed.deferred,
        },
    )
}

/// The merge of two states without waiting removes: the join of the
/// clocks, the entries that the merge keeps, and no waiting removes.
pub proof fn lemma_merged_without_waiting<K, V: Val<A>, A: Actor>(
    s: MapView<K, V::V, A>,
    o: MapView<K, V::V, A>,
)
    requires
        s.deferred.len() == 0,
        o.deferred.len() == 0,
    ensures
        merged::<K, V, A>(s, o) == (MapView {
            clock: joined(s.clock, o.clock),
            entries: merged_entries::<K, V, A>(s, o),
            deferred: Seq::empty(),
        }),
{
    assert(s.deferred =~= Seq::<(Map<A, Counter>, Set<K>)>::empty());
    assert(o.deferred =~= Seq::<(Map<A, Counter>, Set<K>)>::empty());
}

/// The waiting removes after each clock was subtracted by `c`: those with
/// nothing left are gone, and where two come to have the same clock the
/// keys of the later one stand.
pub open spec fn deferred_without<K, A>(
    groups: Seq<(Map<A, Counter>, Set<K>)>,
    c: Map<A, Counter>,
) -> Seq<(Map<A, Counter>, Set<K>)>
    decreases groups.len(),
{
    if groups.len() == 0 {
        Seq::empty()
    } else {
        let before = deferred_without(groups.drop_last(), c);
        let rest = subtracted(groups.last().0, c);
        if rest == Map::<A, Counter>::empty() {
            before
        } else {
            put_group(before, rest, groups.last().1)
        }
    }
}

/// The state after everything that the clock `c` dominates was forgotten.
pub open spec fn truncated_map<K, V: Val<A>, A: Actor>(
    s: MapView<K, V::V, A>,
    c: Map<A, Counter>,
) -> MapView<K, V::V, A> {
    MapView {
        clock: subtracted(s.clock, c),
        entries: Map::new(
            |k: K| s.entries.contains_key(k) && entry_rm::<V, A>(s.entries[k], c) is Some,
            |k: K| entry_rm::<V, A>(s.entries[k], c).unwrap(),
        ),
        deferred: deferred_without(s.deferred, c),
    }
}

/// Adding keys under a clock keeps the waiting removes valid.
pub proof fn lemma_defer_group_valid<K, A>(
    d: Seq<(Map<A, Counter>, Set<K>)>,
    c: Map<A, Counter>,
    keys: Set<K>,
)
    requires
        deferred_valid(d),
        clock_wf(c),
        keys.finite(),
        keys.len() > 0,
    ensures
        deferred_valid(defer_group(d, c, keys)),
        has_clock(defer_group(d, c, keys), c),
        waiting(defer_group(d, c, keys), c) == waiting(d, c).union(keys),
{
    let r = defer_group(d, c, keys);
    if has_clock(d, c) {
        let p = position(d, c);
        assert(r[p].0 == c);
        assert forall|i: int| 0 <= i < r.len() implies (#[trigger] r[i]).1.finite() && r[i].1.len() > 0 by {
            if i == p {
                vstd::set_lib::lemma_set_union_finite_iff(d[p].1, keys);
                vstd::set_lib::lemma_len_union(d[p].1, keys);
                vstd::set_lib::lemma_len_subset(keys, d[p].1.union(keys));
            } else {
                assert(r[i] == d[i]);
            }
        }
        assert forall|i: int, j: int| 0 <= i < j < r.len() implies (#[trigger] r[i]).0 != (#[trigger] r[j]).0 by {
            assert(r[i].0 == d[i].0);
            assert(r[j].0 == d[j].0);
        }
        assert forall|i: int| 0 <= i < r.len() implies clock_wf(#[trigger] r[i].0) by {
            assert(r[i].0 == d[i].0);
        }
        lemma_position_unique(r, c, p);
    } else {
        let p = d.len() as int;
        assert(r[p].0 == c);
        assert forall|i: int, j: int| 0 <= i < j < r.len() implies (#[trigger] r[i]).0 != (#[trigger] r[j]).0 by {
            assert(r[i] == d[i]);
            if j < d.len() {
                assert(r[j] == d[j]);
            }
        }
        assert forall|i: int| 0 <= i < r.len() implies clock_wf(#[trigger] r[i].0) by {
            if i < d.len() {
                assert(r[i] == d[i]);
            }
        }
        assert forall|i: int| 0 <= i < r.len() implies (#[trigger] r[i]).1.finite() && r[i].1.len() > 0 by {
            if i < d.len() {
                assert(r[i] == d[i]);
            }
        }
        lemma_position_unique(r, c, p);
        assert(waiting(d, c).union(keys) =~= keys);
    }
}

/// Among valid waiting removes a clock has one place at most.
pub proof fn lemma_position_unique<K, A>(d: Seq<(Map<A, Counter>, Set<K>)>, c: Map<A, Counter>, p: int)
    requires
        forall|i: int, j: int| 0 <= i < j < d.len() ==> (#[trigger] d[i]).0 != (#[trigger] d[j]).0,
        0 <= p < d.len(),
        d[p].0 == c,
    ensures
        has_clock(d, c),
        position(d, c) == p,
{
    let q = position(d, c);
    assert(0 <= q < d.len() && d[q].0 == c);
    if q < p {
        assert(d[q].0 != d[p].0);
    }
    if p < q {
        assert(d[p].0 != d[q].0);
    }
}

/// To add keys under a clock and then one more key is to add them together.
pub proof fn lemma_defer_group_insert<K, A>(
    d: Seq<(Map<A, Counter>, Set<K>)>,
    c: Map<A, Counter>,
    keys: Set<K>,
    key: K,
)
    requires
        deferred_valid(d),
        clock_wf(c),
        keys.finite(),
        keys.len() > 0,
    ensures
        defer_group(defer_group(d, c, keys), c, set![key]) == defer_group(d, c, keys.insert(key)),
{
    lemma_defer_group_valid(d, c, keys);
    let d1 = defer_group(d, c, keys);
    if has_clock(d, c) {
        let p = position(d, c);
        lemma_position_unique(d1, c, p);
        assert(d[p].1.union(keys).union(set![key]) =~= d[p].1.union(keys.insert(key)));
        assert(defer_group(d1, c, set![key]) =~= defer_group(d, c, keys.insert(key)));
    } else {
        let p = d.len() as int;
        lemma_position_unique(d1, c, p);
        assert(keys.union(set![key]) =~= keys.insert(key));
        assert(defer_group(d1, c, set![key]) =~= defer_group(d, c, keys.insert(key)));
    }
}

/// To remove a set of keys and then one more key, all under one clock, is
/// to remove them together.
pub proof fn lemma_rm_group_insert<K, V: Val<A>, A: Actor>(
    s: MapView<K, V::V, A>,
    c: Map<A, Counter>,
    keys: Set<K>,
    key: K,
)
    requires
        deferred_valid(s.deferred),
        clock_wf(c),
        keys.finite(),
        !keys.contains(key),
    ensures
        rm_spec::<K, V, A>(rm_group::<K, V, A>(s, c, keys), key, c) == rm_group::<K, V, A>(
            s,
            c,
            keys.insert(key),
        ),
{
    let mid = rm_group::<K, V, A>(s, c, keys);
    let l = rm_spec::<K, V, A>(mid, key, c);
    let r = rm_group::<K, V, A>(s, c, keys.insert(key));
    assert(set![key].contains(key));
    assert(keys.insert(key).contains(key));
    assert(l.entries =~= r.entries);
    if !clock_le(c, s.clock) {
        if keys == Set::<K>::empty() {
            assert(keys.insert(key) =~= set![key]);
        } else {
            assert(keys.len() > 0) by {
                if keys.len() == 0 {
                    keys.lemma_len0_is_empty();
                }
            }
            lemma_defer_group_insert(s.deferred, c, keys, key);
        }
    }
}

/// The clock of an entry that a merge keeps is well formed, and the join of
/// the clocks of the two states dominates it.
pub proof fn lemma_merged_entry_le<K, V: Val<A>, A: Actor>(
    s: MapView<K, V::V, A>,
    o: MapView<K, V::V, A>,
    key: K,
)
    requires
        map_valid::<K, V, A>(s),
        map_valid::<K, V, A>(o),
        merged_entry::<K, V, A>(s, o, key) is Some,
    ensures
        clock_le(merged_entry::<K, V, A>(s, o, key).unwrap().clock, joined(s.clock, o.clock)),
{
    let top = joined(s.clock, o.clock);
    lemma_joined_lub(s.clock, o.clock, top);
    if s.entries.contains_key(key) && o.entries.contains_key(key) {
        let e = s.entries[key];
        let f = o.entries[key];
        let shared = common(e.clock, f.clock);
        lemma_common_le(e.clock, f.clock);
        lemma_subtracted_le(e.clock, shared);
        lemma_subtracted_le(subtracted(e.clock, shared), o.clock);
        lemma_subtracted_le(f.clock, shared);
        lemma_subtracted_le(subtracted(f.clock, shared), s.clock);
        let here = alive(e.clock, shared, o.clock);
        let there = alive(f.clock, shared, s.clock);
        lemma_le_trans(here, subtracted(e.clock, shared), e.clock);
        lemma_le_trans(there, subtracted(f.clock, shared), f.clock);
        lemma_le_trans(shared, e.clock, s.clock);
        lemma_le_trans(here, e.clock, s.clock);
        lemma_le_trans(there, f.clock, o.clock);
        lemma_le_trans(shared, s.clock, top);
        lemma_le_trans(here, s.clock, top);
        lemma_le_trans(there, o.clock, top);
        lemma_joined_lub(shared, here, top);
        lemma_joined_lub(joined(shared, here), there, top);
    } else if s.entries.contains_key(key) {
        let e = s.entries[key];
        lemma_subtracted_le(e.clock, o.clock);
        lemma_le_trans(subtracted(e.clock, o.clock), e.clock, s.clock);
        lemma_le_trans(subtracted(e.clock, o.clock), s.clock, top);
    } else {
        let f = o.entries[key];
        lemma_subtracted_le(f.clock, s.clock);
        lemma_le_trans(subtracted(f.clock, s.clock), f.clock, o.clock);
        lemma_le_trans(subtracted(f.clock, s.clock), o.clock, top);
    }
}

/// To set the keys under a clock keeps the waiting removes valid.
pub proof fn lemma_put_group_valid<K, A>(
    d: Seq<(Map<A, Counter>, Set<K>)>,
    c: Map<A, Counter>,
    keys: Set<K>,
)
    requires
        deferred_valid(d),
        clock_wf(c),
        keys.finite(),
        keys.len() > 0,
    ensures
        deferred_valid(put_group(d, c, keys)),
{
    let r = put_group(d, c, keys);
    if has_clock(d, c) {
        let p = position(d, c);
        assert forall|i: int| 0 <= i < r.len() implies (#[trigger] r[i]).1.finite() && r[i].1.len() > 0 by {
            if i != p {
                assert(r[i] == d[i]);
            }
        }
        assert forall|i: int, j: int| 0 <= i < j < r.len() implies (#[trigger] r[i]).0 != (#[trigger] r[j]).0 by {
            assert(r[i].0 == d[i].0);
            assert(r[j].0 == d[j].0);
        }
        assert forall|i: int| 0 <= i < r.len() implies clock_wf(#[trigger] r[i].0) by {
            assert(r[i].0 == d[i].0);
        }
    } else {
        assert forall|i: int, j: int| 0 <= i < j < r.len() implies (#[trigger] r[i]).0 != (#[trigger] r[j]).0 by {
            assert(r[i] == d[i]);
            if j < d.len() {
                assert(r[j] == d[j]);
            }
        }
        assert forall|i: int| 0 <= i < r.len() implies clock_wf(#[trigger] r[i].0) by {
            if i < d.len() {
                assert(r[i] == d[i]);
            }
        }
        assert forall|i: int| 0 <= i < r.len() implies (#[trigger] r[i]).1.finite() && r[i].1.len() > 0 by {
            if i < d.len() {
                assert(r[i] == d[i]);
            }
        }
    }
}

/// The keys that wait under each clock after keys were added under the
/// clock `c`: under `c` also the added keys, under any other clock the keys
/// that waited before.
pub proof fn lemma_defer_group_waiting<K, A>(
    d: Seq<(Map<A, Counter>, Set<K>)>,
    c: Map<A, Counter>,
    keys: Set<K>,
    x: Map<A, Counter>,
)
    requires
        deferred_valid(d),
        clock_wf(c),
        keys.finite(),
        keys.len() > 0,
    ensures
        has_clock(defer_group(d, c, keys), x) == (x == c || has_clock(d, x)),
        waiting(defer_group(d, c, keys), x) == if x == c {
            waiting(d, c).union(keys)
        } else {
            waiting(d, x)
        },
{
    lemma_defer_group_valid(d, c, keys);
    let r = defer_group(d, c, keys);
    if x != c {
        if has_clock(d, x) {
            let q = position(d, x);
            assert(r[q] == d[q]);
            lemma_position_unique(r, x, q);
        }
        if has_clock(r, x) {
            let i = choose|i: int| 0 <= i < r.len() && (#[trigger] r[i]).0 == x;
            if has_clock(d, c) {
                assert(d[i].0 == x);
            } else {
                if i < d.len() {
                    assert(d[i].0 == x);
                }
            }
        }
    }
}

/// A remove leaves the clock of each entry below any clock that dominated
/// it before.
pub proof fn lemma_rm_group_bound<K, V: Val<A>, A: Actor>(
    s: MapView<K, V::V, A>,
    c: Map<A, Counter>,
    keys: Set<K>,
    bound: Map<A, Counter>,
)
    requires
        forall|k: K| #[trigger]
            s.entries.contains_key(k) ==> clock_wf(s.entries[k].clock) && clock_le(
                s.entries[k].clock,
                bound,
            ),
    ensures
        forall|k: K| #[trigger]
            rm_group::<K, V, A>(s, c, keys).entries.contains_key(k) ==> clock_le(
                rm_group::<K, V, A>(s, c, keys).entries[k].clock,
                bound,
            ),
{
    let t = rm_group::<K, V, A>(s, c, keys);
    assert forall|k: K| #[trigger] t.entries.contains_key(k) implies clock_le(
        t.entries[k].clock,
        bound,
    ) by {
        assert(s.entries.contains_key(k));
        if keys.contains(k) {
            lemma_subtracted_le(s.entries[k].clock, c);
            lemma_le_trans(t.entries[k].clock, s.entries[k].clock, bound);
        }
    }
}

} // verus!
