//! A map whose values are replicated types themselves, with reset-remove
//! semantics: a remove erases what the remover has seen of an entry, and
//! concurrent updates of the entry survive it.
use vstd::prelude::*;
use std::collections::{BTreeMap, BTreeSet};
use vstd::std_specs::cmp::PartialEqSpec;
use crate::ctx::{AddCtx, ReadCtx, RmCtx};
use crate::map_model::{
    applied, defer_group, deferred_valid, deferred_without, drained, empty_map, entry_valid,
    has_clock, kept_alone, kept_both, lemma_defer_group_insert, lemma_merged_entry_le,
    lemma_put_group_valid, lemma_rm_group_bound, lemma_rm_group_insert, map_sound, map_valid,
    merged, merged_entries, merged_entry,
    position, put_group, rm_group, rm_groups, rm_spec, truncated_map, waiting,
    EntryView, MapView,
};
use crate::traits::{Causal, CmRDT, CvRDT, Valid};
use crate::vclock::{
    clock_le, clock_wf, count_of, items_of, joined, keys_of, lawful, lemma_le_trans,
    lemma_subtracted_le, lemma_subtracted_monotone, lemma_take_next, lemma_witnessed_le,
    lemma_witnessed_monotone, witnessed, Actor, Counter, Dot, VClock,
};

verus! {

/// The keys of a map are totally ordered and clonable.
pub trait Key: Ord + Clone + Sized {
    /// The order on keys is a lawful total order, and a clone of a key is
    /// the same key.
    proof fn key_laws()
        ensures
            lawful::<Self>(),
    ;
}

impl Key for u8 {
    proof fn key_laws() {
        broadcast use vstd::laws_cmp::group_laws_cmp;

    }
}

impl Key for u16 {
    proof fn key_laws() {
        broadcast use vstd::laws_cmp::group_laws_cmp;

    }
}

impl Key for u32 {
    proof fn key_laws() {
        broadcast use vstd::laws_cmp::group_laws_cmp;

    }
}

impl Key for u64 {
    proof fn key_laws() {
        broadcast use vstd::laws_cmp::group_laws_cmp;

    }
}

impl Key for u128 {
    proof fn key_laws() {
        broadcast use vstd::laws_cmp::group_laws_cmp;

    }
}

impl Key for usize {
    proof fn key_laws() {
        broadcast use vstd::laws_cmp::group_laws_cmp;

    }
}

impl Key for i8 {
    proof fn key_laws() {
        broadcast use vstd::laws_cmp::group_laws_cmp;

    }
}

impl Key for i16 {
    proof fn key_laws() {
        broadcast use vstd::laws_cmp::group_laws_cmp;

    }
}

impl Key for i32 {
    proof fn key_laws() {
        broadcast use vstd::laws_cmp::group_laws_cmp;

    }
}

impl Key for i64 {
    proof fn key_laws() {
        broadcast use vstd::laws_cmp::group_laws_cmp;

    }
}

impl Key for i128 {
    proof fn key_laws() {
        broadcast use vstd::laws_cmp::group_laws_cmp;

    }
}

impl Key for isize {
    proof fn key_laws() {
        broadcast use vstd::laws_cmp::group_laws_cmp;

    }
}

/// The values of a map: replicated types with a default value, which stands
/// for "no information".
pub trait Val<A: Actor>: Clone + Default + Causal<A> + CmRDT + CvRDT {
    /// The model of the default value.
    spec fn default_spec() -> Self::V;

    /// The default value is valid and has the default model, and a clone of
    /// a value has the model of the value.
    proof fn val_laws()
        ensures
            forall|v: Self| #[trigger]
                call_ensures(Self::default, (), v) ==> Self::valid(v@) && v@ == Self::default_spec(),
            forall|v: Self, w: Self| #[trigger] cloned(v, w) ==> w@ == v@,
    ;
}

/// An entry of the map: the value under a key, and the dots that touched it.
#[derive(Debug, Clone, Eq)]
pub struct Entry<V: Val<A>, A: Actor> {
    /// The dots that touched this entry and were not removed since.
    pub clock: VClock<A>,
    /// The value.
    pub val: V,
}

impl<V: Val<A>, A: Actor> View for Entry<V, A> {
    type V = EntryView<V::V, A>;

    open spec fn view(&self) -> EntryView<V::V, A> {
        EntryView { clock: self.clock@, val: self.val@ }
    }
}

/// Two entries with the same clock and with values that are equal.
pub open spec fn same_entry<V: Val<A> + PartialEq, A: Actor>(e: Entry<V, A>, f: Entry<V, A>) -> bool {
    e.clock@ == f.clock@ && e.val.eq_spec(&f.val)
}

/// Two maps with the same clock, with equal entries under the same keys,
/// and with the same waiting removes, whatever the order in which these came.
pub open spec fn same_map<K: Key, V: Val<A> + PartialEq, A: Actor>(
    m: CrdtMap<K, V, A>,
    n: CrdtMap<K, V, A>,
) -> bool {
    &&& m.clock@ == n.clock@
    &&& m.entries@.dom() == n.entries@.dom()
    &&& forall|k: K| #[trigger] m.entries@.contains_key(k) ==> same_entry(m.entries@[k], n.entries@[k])
    &&& same_removes(m.deferred@, n.deferred@)
}

impl<V: Val<A> + PartialEq, A: Actor> PartialEq for Entry<V, A> {
    /// Two entries are equal when their clocks and their values are.
    fn eq(&self, other: &Self) -> (same: bool) {
        self.clock == other.clock && self.val == other.val
    }
}

impl<V: Val<A> + PartialEq, A: Actor> vstd::std_specs::cmp::PartialEqSpecImpl for Entry<V, A> {
    open spec fn obeys_eq_spec() -> bool {
        V::obeys_eq_spec()
    }

    open spec fn eq_spec(&self, other: &Self) -> bool {
        same_entry(*self, *other)
    }
}

impl<V: Val<A>, A: Actor> Entry<V, A> {
    /// What a merge keeps of this entry where the other replica, with the
    /// given clock, has no entry for the key.
    pub fn kept_alone(&self, other_clock: &VClock<A>) -> (kept: Option<Entry<V, A>>)
        requires
            entry_valid::<V, A>(self@),
            other_clock.wf(),
        ensures
            kept is Some <==> kept_alone::<V, A>(self@, other_clock@) is Some,
            kept matches Some(e) ==> entry_valid::<V, A>(e@) && Some(e@) == kept_alone::<V, A>(
                self@,
                other_clock@,
            ),
    {
        proof {
            V::val_laws();
        }
        let mut clock = self.clock.clone();
        clock.subtract(other_clock);
        if clock.is_empty() {
            None
        } else {
            let mut deleted = other_clock.clone();
            deleted.subtract(&clock);
            let mut val = self.val.clone();
            assert(cloned(self.val, val));
            val.truncate(&deleted);
            Some(Entry { clock: clock, val: val })
        }
    }

    /// What a merge keeps of this entry and the entry that the other
    /// replica has for the key; `clock` is the clock of this replica.
    pub fn kept_both(&self, other: &Entry<V, A>, clock: &VClock<A>, other_clock: &VClock<A>) -> (kept:
        Option<Entry<V, A>>)
        requires
            entry_valid::<V, A>(self@),
            entry_valid::<V, A>(other@),
            clock.wf(),
            other_clock.wf(),
        ensures
            kept is Some <==> kept_both::<V, A>(self@, other@, clock@, other_clock@) is Some,
            kept matches Some(e) ==> entry_valid::<V, A>(e@) && Some(e@) == kept_both::<V, A>(
                self@,
                other@,
                clock@,
                other_clock@,
            ),
    {
        proof {
            V::val_laws();
        }
        let shared = self.clock.intersection(&other.clock);
        let mut here = self.clock.clone();
        here.subtract(&shared);
        here.subtract(other_clock);
        let mut there = other.clock.clone();
        there.subtract(&shared);
        there.subtract(clock);
        let mut all = shared;
        all.merge(&here);
        all.merge(&there);
        if all.is_empty() {
            None
        } else {
            let mut val = self.val.clone();
            assert(cloned(self.val, val));
            val.merge(&other.val);
            let mut deleted = here;
            deleted.merge(&there);
            deleted.subtract(&all);
            val.truncate(&deleted);
            Some(Entry { clock: all, val: val })
        }
    }
}

/// The removes that wait until the map has observed their clock: for each
/// clock the keys to remove.
#[derive(Debug, Eq)]
pub struct Deferred<K: Key, A: Actor> {
    /// The clocks with their keys, in the order in which the clocks came.
    pub removes: Vec<(VClock<A>, BTreeSet<K>)>,
}

impl<K: Key, A: Actor> View for Deferred<K, A> {
    type V = Seq<(Map<A, Counter>, Set<K>)>;

    open spec fn view(&self) -> Seq<(Map<A, Counter>, Set<K>)> {
        Seq::new(self.removes@.len(), |i: int| (self.removes@[i].0@, self.removes@[i].1@))
    }
}

impl<K: Key, A: Actor> Deferred<K, A> {
    /// The waiting removes are valid.
    pub open spec fn wf(&self) -> bool {
        deferred_valid(self@)
    }

    /// Returns no waiting removes.
    pub fn new() -> (d: Deferred<K, A>)
        ensures
            d@ == Seq::<(Map<A, Counter>, Set<K>)>::empty(),
            d.wf(),
    {
        let d = Deferred { removes: Vec::new() };
        assert(d@ =~= Seq::<(Map<A, Counter>, Set<K>)>::empty());
        d
    }

    /// Returns the number of clocks under which removes wait.
    pub fn len(&self) -> (n: usize)
        ensures
            n == self@.len(),
    {
        self.removes.len()
    }

    /// Returns the place of the given clock among the waiting removes.
    pub fn find(&self, clock: &VClock<A>) -> (place: Option<usize>)
        requires
            self.wf(),
            clock.wf(),
        ensures
            place is Some <==> has_clock(self@, clock@),
            place matches Some(i) ==> i == position(self@, clock@) && i < self@.len(),
    {
        let mut i: usize = 0;
        while i < self.removes.len()
            invariant
                i <= self.removes@.len(),
                self.wf(),
                clock.wf(),
                forall|j: int| 0 <= j < i ==> (#[trigger] self@[j]).0 != clock@,
            decreases self.removes.len() - i,
        {
            assert(self@[i as int].0 == self.removes@[i as int].0@);
            if self.removes[i].0.same_as(clock) {
                assert(has_clock(self@, clock@));
                return Some(i);
            }
            i += 1;
        }
        None
    }

    /// Returns the keys that wait under the given clock.
    pub fn get(&self, clock: &VClock<A>) -> (keys: Option<&BTreeSet<K>>)
        requires
            self.wf(),
            clock.wf(),
        ensures
            keys is Some <==> has_clock(self@, clock@),
            keys matches Some(set) ==> set@ == waiting(self@, clock@),
    {
        match self.find(clock) {
            Some(i) => {
                assert(self@[i as int].1 == self.removes@[i as int].1@);
                Some(&self.removes[i].1)
            },
            None => None,
        }
    }

    /// Adds the key to those that wait under the given clock.
    pub fn insert(&mut self, clock: VClock<A>, key: K)
        requires
            old(self).wf(),
            clock.wf(),
        ensures
            final(self).wf(),
            final(self)@ == defer_group(old(self)@, clock@, set![key]),
    {
        broadcast use vstd::std_specs::btree::group_btree_axioms;

        proof {
            K::key_laws();
        }
        let ghost before = self@;
        match self.find(&clock) {
            Some(i) => {
                assert(before[i as int] == (self.removes@[i as int].0@, self.removes@[i as int].1@));
                let (c, mut keys) = self.removes.remove(i);
                keys.insert(key);
                self.removes.insert(i, (c, keys));
                proof {
                    assert(keys@ =~= before[i as int].1.union(set![key]));
                    assert(self@ =~= defer_group(before, clock@, set![key]));
                    assert(keys@.len() > 0) by {
                        assert(keys@.contains(key));
                        if keys@.len() == 0 {
                            keys@.lemma_len0_is_empty();
                        }
                    }
                }
            },
            None => {
                let mut keys: BTreeSet<K> = BTreeSet::new();
                keys.insert(key);
                proof {
                    assert(keys@ =~= set![key]);
                }
                self.removes.push((clock, keys));
                proof {
                    assert(self@ =~= defer_group(before, clock@, set![key]));
                    assert forall|i: int, j: int| 0 <= i < j < self@.len() implies (#[trigger] self@[i]).0 != (#[trigger] self@[j]).0 by {
                        if j == before.len() {
                            assert(before[i] == self@[i]);
                        } else {
                            assert(before[i] == self@[i]);
                            assert(before[j] == self@[j]);
                        }
                    }
                }
            },
        }
    }

    /// Sets the keys that wait under the given clock.
    pub fn put(&mut self, clock: VClock<A>, keys: BTreeSet<K>)
        requires
            old(self).wf(),
            clock.wf(),
            keys@.finite(),
            keys@.len() > 0,
        ensures
            final(self).wf(),
            final(self)@ == put_group(old(self)@, clock@, keys@),
    {
        broadcast use vstd::std_specs::btree::group_btree_axioms;

        proof {
            K::key_laws();
            lemma_put_group_valid(self@, clock@, keys@);
        }
        let ghost before = self@;
        match self.find(&clock) {
            Some(i) => {
                self.removes.remove(i);
                self.removes.insert(i, (clock, keys));
                proof {
                    assert(self@ =~= put_group(before, clock@, keys@));
                }
            },
            None => {
                self.removes.push((clock, keys));
                proof {
                    assert(self@ =~= put_group(before, clock@, keys@));
                }
            },
        }
    }

    /// Adds each of the keys to those that wait under the given clock.
    pub fn insert_all(&mut self, clock: &VClock<A>, keys: &BTreeSet<K>)
        requires
            old(self).wf(),
            clock.wf(),
        ensures
            final(self).wf(),
            final(self)@ == if keys@ == Set::<K>::empty() {
                old(self)@
            } else {
                defer_group(old(self)@, clock@, keys@)
            },
    {
        proof {
            K::key_laws();
        }
        let ghost before = self@;
        let items = items_of(keys);
        let mut j: usize = 0;
        proof {
            assert(items@.take(0).to_set() =~= Set::<K>::empty());
        }
        while j < items.len()
            invariant
                j <= items.len(),
                lawful::<K>(),
                self.wf(),
                clock.wf(),
                deferred_valid(before),
                items@.no_duplicates(),
                self@ == if j == 0 {
                    before
                } else {
                    defer_group(before, clock@, items@.take(j as int).to_set())
                },
            decreases items.len() - j,
        {
            let key = items[j].clone();
            assert(cloned(items@[j as int], key));
            proof {
                let done = items@.take(j as int).to_set();
                lemma_take_next(items@, j as int);
                if j == 0 {
                    assert(done =~= Set::<K>::empty());
                    assert(done.insert(key) =~= set![key]);
                } else {
                    assert(done.contains(items@.take(j as int)[0]));
                    assert(done.len() > 0) by {
                        if done.len() == 0 {
                            done.lemma_len0_is_empty();
                        }
                    }
                    lemma_defer_group_insert(before, clock@, done, key);
                }
            }
            self.insert(clock.clone(), key);
            j += 1;
        }
        proof {
            assert(items@.take(items@.len() as int) =~= items@);
            if items@.len() == 0 {
                assert(keys@ =~= Set::<K>::empty());
            } else {
                assert(items@.to_set().contains(items@[0]));
            }
        }
    }
}

/// True if every item of the first set is in the second.
fn subset_of<T: Ord + Clone>(a: &BTreeSet<T>, b: &BTreeSet<T>) -> (within: bool)
    requires
        lawful::<T>(),
    ensures
        within == a@.subset_of(b@),
{
    broadcast use vstd::std_specs::btree::group_btree_axioms;

    let items = items_of(a);
    let mut i: usize = 0;
    while i < items.len()
        invariant
            i <= items.len(),
            lawful::<T>(),
            items@.to_set() == a@,
            forall|j: int| 0 <= j < i ==> b@.contains(#[trigger] items@[j]),
        decreases items.len() - i,
    {
        if !b.contains(&items[i]) {
            assert(items@.to_set().contains(items@[i as int]));
            return false;
        }
        i += 1;
    }
    proof {
        assert forall|k: T| a@.contains(k) implies b@.contains(k) by {
            assert(items@.to_set().contains(k));
            let j = choose|j: int| 0 <= j < items@.len() && items@[j] == k;
            assert(b@.contains(items@[j]));
        }
    }
    true
}

/// True if the list holds a remove with a clock of the same counters as
/// the given one, and with the same keys.
pub open spec fn has_match<K, A>(
    group: (Map<A, Counter>, Set<K>),
    e: Seq<(Map<A, Counter>, Set<K>)>,
) -> bool {
    exists|j: int|
        0 <= j < e.len() && clock_le(group.0, (#[trigger] e[j]).0) && clock_le(e[j].0, group.0)
            && group.1 == e[j].1
}

/// Two lists of waiting removes with the same number of clocks, where each
/// remove of the first has one in the second with a clock of the same
/// counters and with the same keys.
pub open spec fn same_removes<K, A>(
    d: Seq<(Map<A, Counter>, Set<K>)>,
    e: Seq<(Map<A, Counter>, Set<K>)>,
) -> bool {
    &&& d.len() == e.len()
    &&& forall|i: int| 0 <= i < d.len() ==> has_match(#[trigger] d[i], e)
}

impl<K: Key, A: Actor> PartialEq for Deferred<K, A> {
    /// The order in which the clocks came does not count.
    fn eq(&self, other: &Self) -> (same: bool) {
        proof {
            K::key_laws();
        }
        if self.removes.len() != other.removes.len() {
            return false;
        }
        let mut i: usize = 0;
        while i < self.removes.len()
            invariant
                i <= self.removes@.len(),
                lawful::<K>(),
                self@.len() == other@.len(),
                self@.len() == self.removes@.len(),
                forall|h: int| 0 <= h < i ==> has_match(#[trigger] self@[h], other@),
            decreases self.removes.len() - i,
        {
            let mut found = false;
            let mut j: usize = 0;
            let here = &self.removes[i];
            proof {
                assert(self@[i as int] == (here.0@, here.1@));
            }
            while j < other.removes.len() && !found
                invariant
                    j <= other.removes@.len(),
                    other@.len() == other.removes@.len(),
                    lawful::<K>(),
                    found ==> has_match((here.0@, here.1@), other@),
                    !found ==> forall|g: int|
                        0 <= g < j ==> !(clock_le(here.0@, (#[trigger] other@[g]).0) && clock_le(
                            other@[g].0,
                            here.0@,
                        ) && here.1@ == other@[g].1),
                decreases other.removes.len() - j + if found {
                    0int
                } else {
                    1int
                },
            {
                let there = &other.removes[j];
                proof {
                    assert(other@[j as int] == (there.0@, there.1@));
                }
                if here.0.dominated_by(&there.0) && there.0.dominated_by(&here.0) && subset_of(
                    &here.1,
                    &there.1,
                ) && subset_of(&there.1, &here.1) {
                    proof {
                        assert(here.1@ =~= there.1@);
                    }
                    found = true;
                } else {
                    j += 1;
                }
            }
            if !found {
                proof {
                    if has_match(self@[i as int], other@) {
                        let g = choose|g: int|
                            0 <= g < other@.len() && clock_le(self@[i as int].0, (#[trigger] other@[g]).0)
                                && clock_le(other@[g].0, self@[i as int].0) && self@[i as int].1
                                == other@[g].1;
                        assert(!(clock_le(here.0@, other@[g].0) && clock_le(other@[g].0, here.0@)
                            && here.1@ == other@[g].1));
                    }
                }
                return false;
            }
            i += 1;
        }
        true
    }
}

impl<K: Key, A: Actor> vstd::std_specs::cmp::PartialEqSpecImpl for Deferred<K, A> {
    open spec fn obeys_eq_spec() -> bool {
        true
    }

    open spec fn eq_spec(&self, other: &Self) -> bool {
        same_removes(self@, other@)
    }
}

impl<K: Key, A: Actor> Clone for Deferred<K, A> {
    fn clone(&self) -> (copy: Self)
        ensures
            copy@ == self@,
    {
        let mut removes: Vec<(VClock<A>, BTreeSet<K>)> = Vec::new();
        let mut i: usize = 0;
        while i < self.removes.len()
            invariant
                i <= self.removes@.len(),
                removes@.len() == i,
                forall|j: int|
                    0 <= j < i ==> (#[trigger] removes@[j]).0@ == self.removes@[j].0@ && removes@[j].1@
                        == self.removes@[j].1@,
            decreases self.removes.len() - i,
        {
            removes.push((self.removes[i].0.clone(), self.removes[i].1.clone()));
            i += 1;
        }
        let copy = Deferred { removes: removes };
        assert(copy@ =~= self@);
        copy
    }
}

/// The operations that can be applied to a map.
#[derive(Debug, Clone, PartialEq, Eq)]
pub enum Op<K: Key, V: Val<A>, A: Actor> {
    /// No change.
    Nop,
    /// Remove a key.
    Rm {
        /// The clock that the remove covers.
        clock: VClock<A>,
        /// The key to remove.
        key: K,
    },
    /// Update the value under a key.
    Up {
        /// The dot that marks the update.
        dot: Dot<A>,
        /// The key of the value to update.
        key: K,
        /// The operation to apply to the value under the key.
        op: V::Op,
    },
}

/// A map from keys to replicated values, with reset-remove semantics.
#[derive(Debug, Eq)]
pub struct CrdtMap<K: Key, V: Val<A>, A: Actor> {
    /// Every event that this replica has observed; it dominates the clock
    /// of every entry.
    pub clock: VClock<A>,
    /// The entries by key.
    pub entries: BTreeMap<K, Entry<V, A>>,
    /// The removes that wait until this replica has observed their clock.
    pub deferred: Deferred<K, A>,
}

/// The models of the entries of a map, by key.
pub open spec fn entry_views<K, V: Val<A>, A: Actor>(entries: Map<K, Entry<V, A>>) -> Map<
    K,
    EntryView<V::V, A>,
> {
    entries.map_values(|e: Entry<V, A>| e@)
}

impl<K: Key, V: Val<A>, A: Actor> View for CrdtMap<K, V, A> {
    type V = MapView<K, V::V, A>;

    open spec fn view(&self) -> MapView<K, V::V, A> {
        MapView {
            clock: self.clock@,
            entries: entry_views(self.entries@),
            deferred: self.deferred@,
        }
    }
}

impl<K: Key, V: Val<A>, A: Actor> Valid for CrdtMap<K, V, A> {
    open spec fn valid(state: MapView<K, V::V, A>) -> bool {
        map_valid::<K, V, A>(state)
    }
}

impl<K: Key, V: Val<A>, A: Actor> CrdtMap<K, V, A> {
    /// The state of the map is valid.
    pub open spec fn wf(&self) -> bool {
        map_valid::<K, V, A>(self@)
    }

    /// The state of the map is sound: valid, but that its clock need not
    /// dominate the clocks of its entries.
    pub open spec fn sound(&self) -> bool {
        map_sound::<K, V, A>(self@)
    }

    /// Constructs an empty map.
    pub fn new() -> (map: CrdtMap<K, V, A>)
        ensures
            map.wf(),
            map@ == empty_map::<K, V::V, A>(),
    {
        let map = CrdtMap { clock: VClock::new(), entries: BTreeMap::new(), deferred: Deferred::new() };
        proof {
            assert(map@.entries =~= Map::<K, EntryView<V::V, A>>::empty());
        }
        map
    }

    /// Returns the number of entries, with the clock of the map as the
    /// clock to add and to remove under.
    pub fn len(&self) -> (read: ReadCtx<usize, A>)
        ensures
            read.add_clock@ == self@.clock,
            read.rm_clock@ == self@.clock,
            read.val == self@.entries.len(),
    {
        broadcast use vstd::std_specs::btree::group_btree_axioms;

        proof {
            K::key_laws();
            assert(self@.entries.dom() =~= self.entries@.dom());
        }
        ReadCtx {
            add_clock: self.clock.clone(),
            rm_clock: self.clock.clone(),
            val: self.entries.len(),
        }
    }

    /// Returns the value under a key, if there is one, with the clock of the
    /// map as the clock to add under, and the clock of the entry as the
    /// clock to remove under: the empty clock where the key has no entry.
    pub fn get(&self, key: &K) -> (read: ReadCtx<Option<V>, A>)
        ensures
            read.add_clock@ == self@.clock,
            read.rm_clock@ == if self@.entries.contains_key(*key) {
                self@.entries[*key].clock
            } else {
                Map::<A, Counter>::empty()
            },
            read.val is Some <==> self@.entries.contains_key(*key),
            read.val matches Some(v) ==> v@ == self@.entries[*key].val,
    {
        broadcast use vstd::std_specs::btree::group_btree_axioms;

        proof {
            K::key_laws();
            V::val_laws();
        }
        let add_clock = self.clock.clone();
        match self.entries.get(key) {
            Some(entry) => {
                let val = entry.val.clone();
                assert(cloned(entry.val, val));
                ReadCtx { add_clock: add_clock, rm_clock: entry.clock.clone(), val: Some(val) }
            },
            None => ReadCtx { add_clock: add_clock, rm_clock: VClock::new(), val: None },
        }
    }

    /// Makes the operation that updates the value under a key: the updater
    /// is given the value under the key, or the default value where the key
    /// has none, and returns the nested operation. The map does not change.
    pub fn update<F>(&self, key: K, ctx: AddCtx<A>, f: F) -> (op: Op<K, V, A>) where
        F: FnOnce(&V, AddCtx<A>) -> V::Op,

        requires
            self.entries@.contains_key(key) ==> f.requires((&self.entries@[key].val, ctx)),
            !self.entries@.contains_key(key) ==> forall|d: V| #[trigger]
                call_ensures(V::default, (), d) ==> f.requires((&d, ctx)),
        ensures
            op matches Op::Up { dot, key: k, op: nested } && dot == ctx.dot && k == key && (
            if self.entries@.contains_key(key) {
                f.ensures((&self.entries@[key].val, ctx), nested)
            } else {
                exists|d: V| #[trigger] call_ensures(V::default, (), d) && f.ensures((&d, ctx), nested)
            }),
    {
        broadcast use vstd::std_specs::btree::group_btree_axioms;

        proof {
            K::key_laws();
            A::actor_laws();
        }
        let actor = ctx.dot.actor.clone();
        assert(cloned(ctx.dot.actor, actor));
        let dot = Dot { actor: actor, counter: ctx.dot.counter };
        let nested = match self.entries.get(&key) {
            Some(entry) => f(&entry.val, ctx),
            None => {
                let d = V::default();
                f(&d, ctx)
            },
        };
        Op::Up { dot: dot, key: key, op: nested }
    }

    /// Makes the operation that removes a key under the clock of the
    /// context. The map does not change.
    pub fn rm(&self, key: K, ctx: RmCtx<A>) -> (op: Op<K, V, A>)
        ensures
            op == (Op::<K, V, A>::Rm { clock: ctx.clock, key: key }),
    {
        Op::Rm { clock: ctx.clock, key: key }
    }

    /// Removes a key under a clock. Where the clock of the map does not
    /// dominate the given clock, the key is added to those that wait under
    /// it. Then the entry of the key, if there is one, loses the dots that
    /// the given clock dominates: all of the entry if none is left, else
    /// what the value holds of them.
    pub fn apply_rm(&mut self, key: K, clock: &VClock<A>)
        requires
            old(self).sound(),
            clock.wf(),
        ensures
            final(self).sound(),
            old(self).wf() ==> final(self).wf(),
            final(self)@ == rm_spec::<K, V, A>(old(self)@, key, clock@),
    {
        broadcast use vstd::std_specs::btree::group_btree_axioms;

        proof {
            K::key_laws();
            assert(set![key].contains(key));
        }
        let ghost before = self@;
        if !clock.dominated_by(&self.clock) {
            let waiting_key = key.clone();
            assert(cloned(key, waiting_key));
            self.deferred.insert(clock.clone(), waiting_key);
        }
        if let Some(mut existing) = self.entries.remove(&key) {
            assert(before.entries.contains_key(key));
            assert(before.entries[key] == existing@);
            assert(entry_valid::<V, A>(before.entries[key]));
            existing.clock.subtract(clock);
            if !existing.clock.is_empty() {
                existing.val.truncate(clock);
                self.entries.insert(key, existing);
            }
        }
        proof {
            assert(self@.entries =~= rm_spec::<K, V, A>(before, key, clock@).entries);
            assert(self@.entries.dom() =~= self.entries@.dom());
            assert(self@.entries.dom().finite());
            assert(deferred_valid(self@.deferred));
            assert(clock_wf(self@.clock));
            assert forall|k: K| #[trigger] self@.entries.contains_key(k) implies entry_valid::<V, A>(
                self@.entries[k],
            ) by {
                assert(before.entries.contains_key(k));
                if k != key {
                    assert(self@.entries[k] == before.entries[k]);
                }
            }
            if map_valid::<K, V, A>(before) {
                assert forall|k: K| #[trigger] self@.entries.contains_key(k) implies clock_le(
                    self@.entries[k].clock,
                    self@.clock,
                ) by {
                    assert(before.entries.contains_key(k));
                    if k == key {
                        lemma_subtracted_le(before.entries[key].clock, clock@);
                        lemma_le_trans(
                            self@.entries[k].clock,
                            before.entries[key].clock,
                            before.clock,
                        );
                    } else {
                        assert(self@.entries[k] == before.entries[k]);
                    }
                }
            }
        }
    }

    /// Removes each of the keys under the clock, as `apply_rm` does for one.
    pub fn apply_rm_all(&mut self, keys: &BTreeSet<K>, clock: &VClock<A>)
        requires
            old(self).sound(),
            clock.wf(),
        ensures
            final(self).sound(),
            old(self).wf() ==> final(self).wf(),
            final(self)@ == rm_group::<K, V, A>(old(self)@, clock@, keys@),
    {
        broadcast use vstd::std_specs::btree::group_btree_axioms;

        proof {
            K::key_laws();
        }
        let ghost before = self@;
        let items = items_of(keys);
        let mut j: usize = 0;
        proof {
            assert(items@.take(0).to_set() =~= Set::<K>::empty());
            assert(rm_group::<K, V, A>(before, clock@, Set::<K>::empty()).entries =~= before.entries);
        }
        while j < items.len()
            invariant
                j <= items.len(),
                lawful::<K>(),
                self.sound(),
                map_valid::<K, V, A>(before) ==> self.wf(),
                clock.wf(),
                map_sound::<K, V, A>(before),
                items@.no_duplicates(),
                self@ == rm_group::<K, V, A>(before, clock@, items@.take(j as int).to_set()),
            decreases items.len() - j,
        {
            let key = items[j].clone();
            assert(cloned(items@[j as int], key));
            proof {
                let done = items@.take(j as int).to_set();
                lemma_take_next(items@, j as int);
                lemma_rm_group_insert::<K, V, A>(before, clock@, done, key);
            }
            self.apply_rm(key, clock);
            j += 1;
        }
        proof {
            assert(items@.take(items@.len() as int) =~= items@);
        }
    }

    /// Takes the waiting removes out and applies each of them again, in
    /// their order: those whose clock the map still does not dominate wait
    /// again, and the others have waited for the last time.
    pub fn apply_deferred(&mut self)
        requires
            old(self).wf(),
        ensures
            final(self).wf(),
            final(self)@ == drained::<K, V, A>(old(self)@),
    {
        let ghost before = self@;
        let mut groups = Deferred::new();
        std::mem::swap(&mut self.deferred, &mut groups);
        let ghost start = self@;
        let mut i: usize = 0;
        proof {
            assert(groups@.skip(0) =~= groups@);
        }
        while i < groups.removes.len()
            invariant
                i <= groups.removes@.len(),
                self.wf(),
                groups.wf(),
                rm_groups::<K, V, A>(self@, groups@.skip(i as int)) == rm_groups::<K, V, A>(
                    start,
                    groups@,
                ),
            decreases groups.removes.len() - i,
        {
            proof {
                let rest = groups@.skip(i as int);
                assert(rest[0] == groups@[i as int]);
                assert(rest.drop_first() =~= groups@.skip(i + 1));
                assert(groups@[i as int].0 == groups.removes@[i as int].0@);
                assert(groups@[i as int].1 == groups.removes@[i as int].1@);
            }
            self.apply_rm_all(&groups.removes[i].1, &groups.removes[i].0);
            i += 1;
        }
    }
}

impl<K: Key, V: Val<A> + PartialEq, A: Actor> PartialEq for CrdtMap<K, V, A> {
    /// Two maps are equal when they have the same clock, equal entries
    /// under the same keys, and the same waiting removes, whatever the
    /// order in which these came.
    fn eq(&self, other: &Self) -> (same: bool) {
        broadcast use vstd::std_specs::btree::group_btree_axioms;

        proof {
            K::key_laws();
        }
        if !(self.clock == other.clock) {
            return false;
        }
        if self.entries.len() != other.entries.len() {
            return false;
        }
        let keys = keys_of(&self.entries);
        let mut i: usize = 0;
        while i < keys.len()
            invariant
                i <= keys.len(),
                lawful::<K>(),
                keys@.to_set() == self.entries@.dom(),
                V::obeys_eq_spec() ==> forall|j: int|
                    0 <= j < i ==> other.entries@.contains_key(#[trigger] keys@[j]) && same_entry(
                        self.entries@[keys@[j]],
                        other.entries@[keys@[j]],
                    ),
                forall|j: int| 0 <= j < i ==> other.entries@.contains_key(#[trigger] keys@[j]),
            decreases keys.len() - i,
        {
            proof {
                assert(keys@.to_set().contains(keys@[i as int]));
            }
            match self.entries.get(&keys[i]) {
                Some(here) => {
                    match other.entries.get(&keys[i]) {
                        Some(there) => {
                            if !(here == there) {
                                return false;
                            }
                        },
                        None => {
                            return false;
                        },
                    }
                },
                None => {},
            }
            i += 1;
        }
        proof {
            assert forall|k: K| self.entries@.contains_key(k) implies other.entries@.contains_key(k) by {
                assert(keys@.to_set().contains(k));
                let j = choose|j: int| 0 <= j < keys@.len() && keys@[j] == k;
                assert(other.entries@.contains_key(keys@[j]));
            }
            assert(self.entries@.dom().subset_of(other.entries@.dom()));
            vstd::set_lib::lemma_subset_equality(self.entries@.dom(), other.entries@.dom());
            if V::obeys_eq_spec() {
                assert forall|k: K| self.entries@.contains_key(k) implies same_entry(
                    self.entries@[k],
                    other.entries@[k],
                ) by {
                    assert(keys@.to_set().contains(k));
                    let j = choose|j: int| 0 <= j < keys@.len() && keys@[j] == k;
                    assert(same_entry(self.entries@[keys@[j]], other.entries@[keys@[j]]));
                }
            }
        }
        self.deferred == other.deferred
    }
}

impl<K: Key, V: Val<A> + PartialEq, A: Actor> vstd::std_specs::cmp::PartialEqSpecImpl for CrdtMap<K, V, A> {
    open spec fn obeys_eq_spec() -> bool {
        V::obeys_eq_spec()
    }

    open spec fn eq_spec(&self, other: &Self) -> bool {
        same_map(*self, *other)
    }
}

impl<K: Key, V: Val<A>, A: Actor> CmRDT for CrdtMap<K, V, A> {
    type Op = Op<K, V, A>;

    open spec fn op_wf(op: Op<K, V, A>) -> bool {
        match op {
            Op::Nop => true,
            Op::Rm { clock, key } => clock.wf(),
            Op::Up { dot, key, op } => V::op_wf(op),
        }
    }

    open spec fn apply_spec(state: MapView<K, V::V, A>, op: Op<K, V, A>) -> MapView<K, V::V, A> {
        applied::<K, V, A>(state, op)
    }

    /// Applies an operation. A remove is applied as `apply_rm` does. An
    /// update whose dot the map has seen changes nothing; else the nested
    /// operation is applied to the value under the key, or to the default
    /// value where the key has none, the entry and the map witness the dot,
    /// and the waiting removes are applied again.
    fn apply(&mut self, op: &Op<K, V, A>) {
        broadcast use vstd::std_specs::btree::group_btree_axioms;

        proof {
            K::key_laws();
            A::actor_laws();
            V::val_laws();
        }
        let ghost before = self@;
        match op {
            Op::Nop => {},
            Op::Rm { clock, key } => {
                let k = key.clone();
                assert(cloned(*key, k));
                self.apply_rm(k, clock);
            },
            Op::Up { dot, key, op } => {
                if self.clock.get(&dot.actor) >= dot.counter {
                    return;
                }
                let mut entry = match self.entries.remove(key) {
                    Some(existing) => {
                        assert(before.entries.contains_key(*key));
                        assert(before.entries[*key] == existing@);
                        assert(entry_valid::<V, A>(before.entries[*key]));
                        existing
                    },
                    None => Entry { clock: VClock::new(), val: V::default() },
                };
                let ghost start = entry@;
                proof {
                    lemma_witnessed_le(start.clock, dot.actor, dot.counter);
                    lemma_witnessed_le(before.clock, dot.actor, dot.counter);
                    if before.entries.contains_key(*key) {
                        lemma_witnessed_monotone(start.clock, before.clock, dot.actor, dot.counter);
                    } else {
                        assert(clock_le(start.clock, before.clock));
                        lemma_witnessed_monotone(start.clock, before.clock, dot.actor, dot.counter);
                    }
                }
                let actor = dot.actor.clone();
                assert(cloned(dot.actor, actor));
                entry.clock.witness(actor, dot.counter);
                entry.val.apply(op);
                let k = key.clone();
                assert(cloned(*key, k));
                self.entries.insert(k, entry);
                let actor = dot.actor.clone();
                assert(cloned(dot.actor, actor));
                self.clock.witness(actor, dot.counter);
                proof {
                    let updated = EntryView {
                        clock: witnessed(start.clock, dot.actor, dot.counter),
                        val: V::apply_spec(start.val, *op),
                    };
                    assert(self@.entries =~= before.entries.insert(*key, updated));
                    assert(self@.entries.dom() =~= self.entries@.dom());
                    assert(count_of(updated.clock, dot.actor) > 0);
                    assert(updated.clock.contains_key(dot.actor));
                    assert forall|k: K| #[trigger] self@.entries.contains_key(k) implies entry_valid::<V, A>(
                        self@.entries[k],
                    ) && clock_le(self@.entries[k].clock, self@.clock) by {
                        if k != *key {
                            assert(before.entries.contains_key(k));
                            assert(self@.entries[k] == before.entries[k]);
                            lemma_le_trans(before.entries[k].clock, before.clock, self@.clock);
                        }
                    }
                }
                self.apply_deferred();
            },
        }
    }
}

impl<K: Key, V: Val<A>, A: Actor> CvRDT for CrdtMap<K, V, A> {
    open spec fn merge_spec(state: MapView<K, V::V, A>, other: MapView<K, V::V, A>) -> MapView<
        K,
        V::V,
        A,
    > {
        merged::<K, V, A>(state, other)
    }

    /// Merges the state of another replica into this one. Of an entry that
    /// only one replica has, the dots stay that the other replica has not
    /// seen; of an entry that both have, the dots that both hold and those
    /// that the other has not seen. An entry with no dot left is dropped.
    /// Then the waiting removes of the other replica are applied, the
    /// clocks are joined, and the waiting removes are applied again.
    fn merge(&mut self, other: &Self) {
        broadcast use vstd::std_specs::btree::group_btree_axioms;

        proof {
            K::key_laws();
        }
        let ghost s = self@;
        let ghost o = other@;
        let mut keep: BTreeMap<K, Entry<V, A>> = BTreeMap::new();
        let keys = keys_of(&self.entries);
        let mut i: usize = 0;
        proof {
            assert(keys@.take(0).to_set() =~= Set::<K>::empty());
            assert(entry_views(self.entries@).dom() =~= self.entries@.dom());
        }
        while i < keys.len()
            invariant
                i <= keys.len(),
                lawful::<K>(),
                self@ == s,
                other@ == o,
                map_valid::<K, V, A>(s),
                map_valid::<K, V, A>(o),
                keys@.no_duplicates(),
                keys@.to_set() == s.entries.dom(),
                forall|k: K| #[trigger]
                    entry_views(keep@).contains_key(k) <==> merged_entry::<K, V, A>(s, o, k) is Some
                        && keys@.take(i as int).to_set().contains(k),
                forall|k: K| #[trigger]
                    entry_views(keep@).contains_key(k) ==> entry_valid::<V, A>(entry_views(keep@)[k])
                        && Some(entry_views(keep@)[k]) == merged_entry::<K, V, A>(s, o, k),
            decreases keys.len() - i,
        {
            let key = &keys[i];
            let ghost kept_before = entry_views(keep@);
            proof {
                lemma_take_next(keys@, i as int);
                assert(keys@.to_set().contains(keys@[i as int]));
                assert(s.entries.contains_key(*key));
            }
            match self.entries.get(key) {
                Some(entry) => {
                    assert(s.entries[*key] == entry@);
                    let kept = match other.entries.get(key) {
                        Some(other_entry) => {
                            assert(entry_views(other.entries@).contains_key(*key));
                            assert(o.entries[*key] == other_entry@);
                            entry.kept_both(other_entry, &self.clock, &other.clock)
                        },
                        None => {
                            assert(!entry_views(other.entries@).contains_key(*key));
                            entry.kept_alone(&other.clock)
                        },
                    };
                    match kept {
                        Some(e) => {
                            let k = key.clone();
                            assert(cloned(*key, k));
                            keep.insert(k, e);
                        },
                        None => {},
                    }
                },
                None => {},
            }
            proof {
                let kept_now = entry_views(keep@);
                assert forall|k: K| #[trigger]
                    kept_now.contains_key(k) <==> merged_entry::<K, V, A>(s, o, k) is Some
                        && keys@.take(i + 1).to_set().contains(k) by {
                    if k != *key {
                        assert(kept_now.contains_key(k) == kept_before.contains_key(k));
                    }
                }
                assert forall|k: K| #[trigger] kept_now.contains_key(k) implies entry_valid::<V, A>(
                    kept_now[k],
                ) && Some(kept_now[k]) == merged_entry::<K, V, A>(s, o, k) by {
                    if k != *key {
                        assert(kept_before.contains_key(k));
                        assert(kept_now[k] == kept_before[k]);
                    }
                }
            }
            i += 1;
        }
        proof {
            assert(keys@.take(keys@.len() as int) =~= keys@);
        }
        let other_keys = keys_of(&other.entries);
        let mut i: usize = 0;
        proof {
            assert(other_keys@.take(0).to_set() =~= Set::<K>::empty());
            assert(entry_views(other.entries@).dom() =~= other.entries@.dom());
        }
        while i < other_keys.len()
            invariant
                i <= other_keys.len(),
                lawful::<K>(),
                self@ == s,
                other@ == o,
                map_valid::<K, V, A>(s),
                map_valid::<K, V, A>(o),
                other_keys@.no_duplicates(),
                other_keys@.to_set() == o.entries.dom(),
                forall|k: K| #[trigger]
                    entry_views(keep@).contains_key(k) <==> merged_entry::<K, V, A>(s, o, k) is Some && (
                    s.entries.contains_key(k) || other_keys@.take(i as int).to_set().contains(k)),
                forall|k: K| #[trigger]
                    entry_views(keep@).contains_key(k) ==> entry_valid::<V, A>(entry_views(keep@)[k])
                        && Some(entry_views(keep@)[k]) == merged_entry::<K, V, A>(s, o, k),
            decreases other_keys.len() - i,
        {
            let key = &other_keys[i];
            let ghost kept_before = entry_views(keep@);
            proof {
                lemma_take_next(other_keys@, i as int);
                assert(other_keys@.to_set().contains(other_keys@[i as int]));
                assert(o.entries.contains_key(*key));
            }
            if !self.entries.contains_key(key) {
                assert(!s.entries.contains_key(*key));
                match other.entries.get(key) {
                    Some(other_entry) => {
                        assert(o.entries[*key] == other_entry@);
                        match other_entry.kept_alone(&self.clock) {
                            Some(e) => {
                                let k = key.clone();
                                assert(cloned(*key, k));
                                keep.insert(k, e);
                            },
                            None => {},
                        }
                    },
                    None => {},
                }
            } else {
                assert(s.entries.contains_key(*key));
            }
            proof {
                let kept_now = entry_views(keep@);
                assert forall|k: K| #[trigger]
                    kept_now.contains_key(k) <==> merged_entry::<K, V, A>(s, o, k) is Some && (
                    s.entries.contains_key(k) || other_keys@.take(i + 1).to_set().contains(k)) by {
                    if k != *key {
                        assert(kept_now.contains_key(k) == kept_before.contains_key(k));
                    }
                }
                assert forall|k: K| #[trigger] kept_now.contains_key(k) implies entry_valid::<V, A>(
                    kept_now[k],
                ) && Some(kept_now[k]) == merged_entry::<K, V, A>(s, o, k) by {
                    if k != *key {
                        assert(kept_before.contains_key(k));
                        assert(kept_now[k] == kept_before[k]);
                    }
                }
            }
            i += 1;
        }
        proof {
            assert(other_keys@.take(other_keys@.len() as int) =~= other_keys@);
            assert(entry_views(keep@) =~= merged_entries::<K, V, A>(s, o));
        }
        self.entries = keep;
        let ghost kept = self@;
        let ghost top = joined(s.clock, o.clock);
        let mut i: usize = 0;
        proof {
            assert(entry_views(self.entries@).dom() =~= self.entries@.dom());
            assert(o.deferred.skip(0) =~= o.deferred);
            assert forall|k: K| #[trigger] kept.entries.contains_key(k) implies clock_le(
                kept.entries[k].clock,
                top,
            ) by {
                lemma_merged_entry_le::<K, V, A>(s, o, k);
            }
        }
        while i < other.deferred.removes.len()
            invariant
                i <= other.deferred.removes@.len(),
                other@ == o,
                deferred_valid(o.deferred),
                self.sound(),
                self.clock@ == s.clock,
                forall|k: K| #[trigger]
                    self@.entries.contains_key(k) ==> clock_le(self@.entries[k].clock, top),
                rm_groups::<K, V, A>(self@, o.deferred.skip(i as int)) == rm_groups::<K, V, A>(
                    kept,
                    o.deferred,
                ),
            decreases other.deferred.removes.len() - i,
        {
            proof {
                let rest = o.deferred.skip(i as int);
                assert(rest[0] == o.deferred[i as int]);
                assert(rest.drop_first() =~= o.deferred.skip(i + 1));
                assert(o.deferred[i as int] == (
                    other.deferred.removes@[i as int].0@,
                    other.deferred.removes@[i as int].1@,
                ));
                assert(clock_wf(o.deferred[i as int].0));
                lemma_rm_group_bound::<K, V, A>(
                    self@,
                    o.deferred[i as int].0,
                    o.deferred[i as int].1,
                    top,
                );
            }
            self.apply_rm_all(&other.deferred.removes[i].1, &other.deferred.removes[i].0);
            i += 1;
        }
        let ghost replayed = self@;
        self.clock.merge(&other.clock);
        proof {
            assert(replayed == rm_groups::<K, V, A>(kept, o.deferred));
            assert(self@ == (MapView {
                clock: top,
                entries: replayed.entries,
                deferred: replayed.deferred,
            }));
        }
        self.apply_deferred();
    }
}

impl<K: Key, V: Val<A>, A: Actor> Causal<A> for CrdtMap<K, V, A> {
    open spec fn truncate_spec(state: MapView<K, V::V, A>, clock: Map<A, Counter>) -> MapView<
        K,
        V::V,
        A,
    > {
        truncated_map::<K, V, A>(state, clock)
    }

    /// Forgets what the given clock dominates: of each entry the dots that
    /// it dominates, and with them the entry if none is left, else what the
    /// value holds of them; of each waiting remove the part of its clock
    /// that it dominates, and with it the remove if nothing is left; and
    /// the part of the clock of the map that it dominates.
    fn truncate(&mut self, clock: &VClock<A>) {
        broadcast use vstd::std_specs::btree::group_btree_axioms;

        proof {
            K::key_laws();
        }
        let ghost s = self@;
        let keys = keys_of(&self.entries);
        let mut i: usize = 0;
        proof {
            assert(keys@.take(0).to_set() =~= Set::<K>::empty());
            assert(entry_views(self.entries@).dom() =~= self.entries@.dom());
            assert(entry_views(self.entries@) =~= rm_group::<K, V, A>(
                s,
                clock@,
                Set::<K>::empty(),
            ).entries);
        }
        while i < keys.len()
            invariant
                i <= keys.len(),
                lawful::<K>(),
                clock.wf(),
                map_valid::<K, V, A>(s),
                self.clock@ == s.clock,
                self.deferred@ == s.deferred,
                keys@.no_duplicates(),
                keys@.to_set() == s.entries.dom(),
                entry_views(self.entries@) == rm_group::<K, V, A>(
                    s,
                    clock@,
                    keys@.take(i as int).to_set(),
                ).entries,
                forall|k: K| #[trigger]
                    entry_views(self.entries@).contains_key(k) ==> entry_valid::<V, A>(
                        entry_views(self.entries@)[k],
                    ),
            decreases keys.len() - i,
        {
            let key = &keys[i];
            let ghost held = entry_views(self.entries@);
            proof {
                lemma_take_next(keys@, i as int);
                assert(keys@.to_set().contains(keys@[i as int]));
                assert(s.entries.contains_key(*key));
                assert(held.contains_key(*key));
                assert(held[*key] == s.entries[*key]);
            }
            match self.entries.remove(key) {
                Some(existing) => {
                    let mut entry = existing;
                    assert(entry@ == s.entries[*key]);
                    entry.clock.subtract(clock);
                    if !entry.clock.is_empty() {
                        entry.val.truncate(clock);
                        let k = key.clone();
                        assert(cloned(*key, k));
                        self.entries.insert(k, entry);
                    }
                },
                None => {},
            }
            proof {
                let now = entry_views(self.entries@);
                let goal = rm_group::<K, V, A>(s, clock@, keys@.take(i + 1).to_set()).entries;
                assert forall|k: K| now.contains_key(k) == goal.contains_key(k) by {
                    if k != *key {
                        assert(now.contains_key(k) == held.contains_key(k));
                    }
                }
                assert forall|k: K| now.contains_key(k) implies now[k] == goal[k] by {
                    if k != *key {
                        assert(now[k] == held[k]);
                    }
                }
                assert(now =~= goal);
                assert forall|k: K| #[trigger] now.contains_key(k) implies entry_valid::<V, A>(now[k]) by {
                    if k != *key {
                        assert(held.contains_key(k));
                        assert(now[k] == held[k]);
                    }
                }
            }
            i += 1;
        }
        proof {
            assert(keys@.take(keys@.len() as int) =~= keys@);
            assert(entry_views(self.entries@) =~= truncated_map::<K, V, A>(s, clock@).entries);
        }
        let mut groups = Deferred::new();
        std::mem::swap(&mut self.deferred, &mut groups);
        let mut i: usize = 0;
        proof {
            assert(groups@.take(0) =~= Seq::<(Map<A, Counter>, Set<K>)>::empty());
        }
        while i < groups.removes.len()
            invariant
                i <= groups.removes@.len(),
                clock.wf(),
                groups@ == s.deferred,
                map_valid::<K, V, A>(s),
                self.clock@ == s.clock,
                entry_views(self.entries@) == truncated_map::<K, V, A>(s, clock@).entries,
                forall|k: K| #[trigger]
                    entry_views(self.entries@).contains_key(k) ==> entry_valid::<V, A>(
                        entry_views(self.entries@)[k],
                    ),
                self.deferred.wf(),
                self.deferred@ == deferred_without(s.deferred.take(i as int), clock@),
            decreases groups.removes.len() - i,
        {
            proof {
                let front = s.deferred.take(i + 1);
                assert(front.drop_last() =~= s.deferred.take(i as int));
                assert(front.last() == s.deferred[i as int]);
                assert(s.deferred[i as int] == (groups.removes@[i as int].0@, groups.removes@[i as int].1@));
                assert(clock_wf(s.deferred[i as int].0));
                assert(s.deferred[i as int].1.finite() && s.deferred[i as int].1.len() > 0);
            }
            let mut rest = groups.removes[i].0.clone();
            rest.subtract(clock);
            if !rest.is_empty() {
                self.deferred.put(rest, groups.removes[i].1.clone());
            }
            i += 1;
        }
        proof {
            assert(s.deferred.take(s.deferred.len() as int) =~= s.deferred);
        }
        self.clock.subtract(clock);
        proof {
            assert(entry_views(self.entries@).dom() =~= self.entries@.dom());
            assert forall|k: K| #[trigger] self@.entries.contains_key(k) implies clock_le(
                self@.entries[k].clock,
                self@.clock,
            ) by {
                assert(s.entries.contains_key(k));
                lemma_subtracted_monotone(s.entries[k].clock, s.clock, clock@);
            }
        }
    }
}

impl<K: Key, V: Val<A>, A: Actor> Clone for CrdtMap<K, V, A> {
    fn clone(&self) -> (copy: Self)
        ensures
            copy@ == self@,
    {
        CrdtMap {
            clock: self.clock.clone(),
            entries: self.entries.clone(),
            deferred: self.deferred.clone(),
        }
    }
}

impl<K: Key, V: Val<A>, A: Actor> Default for CrdtMap<K, V, A> {
    /// The empty map.
    fn default() -> (map: Self)
        ensures
            map.wf(),
            map@ == empty_map::<K, V::V, A>(),
    {
        CrdtMap::new()
    }
}

impl<K: Key, V: Val<A>, A: Actor> Val<A> for CrdtMap<K, V, A> {
    open spec fn default_spec() -> MapView<K, V::V, A> {
        empty_map::<K, V::V, A>()
    }

    proof fn val_laws() {
    }
}

} // verus!
