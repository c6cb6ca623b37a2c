//! A vector clock: for each actor the highest counter that was witnessed.
//!
//! Clocks are partially ordered and form a lattice; `witness`, `merge`,
//! `intersection`, `subtract` and `truncate` are its operations.
use vstd::prelude::*;
use std::cmp::Ordering;
use std::collections::{BTreeMap, BTreeSet};
use vstd::laws_cmp::obeys_cmp;
use vstd::std_specs::cmp::PartialOrdSpec;
use vstd::std_specs::iter::IteratorSpec;
use crate::traits::{Causal, CmRDT, CvRDT, Valid};

verus! {

/// A counter tracks causality at one actor.
pub type Counter = u64;

/// What the collections of this library need of the type of their keys:
/// a lawful total order, and clones that equal their originals.
pub open spec fn lawful<T: Ord + Clone>() -> bool {
    &&& obeys_cmp::<T>()
    &&& forall|a: T, b: T| cloned(a, b) ==> a == b
}

/// An actor identifies whatever mutates a clock. Actors are totally ordered
/// and clonable.
pub trait Actor: Ord + Clone + Sized {
    /// The order on actors is a lawful total order, and a clone of an actor is
    /// the same actor.
    proof fn actor_laws()
        ensures
            lawful::<Self>(),
    ;
}

impl Actor for u8 {
    proof fn actor_laws() {
        broadcast use vstd::laws_cmp::group_laws_cmp;

    }
}

impl Actor for u16 {
    proof fn actor_laws() {
        broadcast use vstd::laws_cmp::group_laws_cmp;

    }
}

impl Actor for u32 {
    proof fn actor_laws() {
        broadcast use vstd::laws_cmp::group_laws_cmp;

    }
}

impl Actor for u64 {
    proof fn actor_laws() {
        broadcast use vstd::laws_cmp::group_laws_cmp;

    }
}

impl Actor for u128 {
    proof fn actor_laws() {
        broadcast use vstd::laws_cmp::group_laws_cmp;

    }
}

impl Actor for usize {
    proof fn actor_laws() {
        broadcast use vstd::laws_cmp::group_laws_cmp;

    }
}

impl Actor for i8 {
    proof fn actor_laws() {
        broadcast use vstd::laws_cmp::group_laws_cmp;

    }
}

impl Actor for i16 {
    proof fn actor_laws() {
        broadcast use vstd::laws_cmp::group_laws_cmp;

    }
}

impl Actor for i32 {
    proof fn actor_laws() {
        broadcast use vstd::laws_cmp::group_laws_cmp;

    }
}

impl Actor for i64 {
    proof fn actor_laws() {
        broadcast use vstd::laws_cmp::group_laws_cmp;

    }
}

impl Actor for i128 {
    proof fn actor_laws() {
        broadcast use vstd::laws_cmp::group_laws_cmp;

    }
}

impl Actor for isize {
    proof fn actor_laws() {
        broadcast use vstd::laws_cmp::group_laws_cmp;

    }
}

/// The counter of an actor in a clock; 0 for an actor that the clock does not hold.
pub open spec fn count_of<A>(m: Map<A, Counter>, a: A) -> Counter {
    if m.contains_key(a) {
        m[a]
    } else {
        0
    }
}

/// A clock holds finitely many actors, and none with counter 0.
pub open spec fn clock_wf<A>(m: Map<A, Counter>) -> bool {
    &&& m.dom().finite()
    &&& forall|a: A| m.contains_key(a) ==> #[trigger] m[a] > 0
}

/// The larger of two counters.
pub open spec fn larger(x: Counter, y: Counter) -> Counter {
    if x >= y {
        x
    } else {
        y
    }
}

/// The smaller of two counters.
pub open spec fn smaller(x: Counter, y: Counter) -> Counter {
    if x <= y {
        x
    } else {
        y
    }
}

/// `m <= o` in the partial order of clocks: no actor has a higher counter in `m`.
pub open spec fn clock_le<A>(m: Map<A, Counter>, o: Map<A, Counter>) -> bool {
    forall|a: A| #[trigger] count_of(m, a) <= count_of(o, a)
}

/// The clock `m` after it witnessed counter `c` of actor `a`.
pub open spec fn witnessed<A>(m: Map<A, Counter>, a: A, c: Counter) -> Map<A, Counter> {
    if count_of(m, a) >= c {
        m
    } else {
        m.insert(a, c)
    }
}

/// The join of two clocks: for each actor the larger counter.
pub open spec fn joined<A>(m: Map<A, Counter>, o: Map<A, Counter>) -> Map<A, Counter> {
    Map::new(
        |a: A| m.contains_key(a) || o.contains_key(a),
        |a: A| larger(count_of(m, a), count_of(o, a)),
    )
}

/// The entries of `m` that `o` holds with the same counter.
pub open spec fn common<A>(m: Map<A, Counter>, o: Map<A, Counter>) -> Map<A, Counter> {
    Map::new(|a: A| m.contains_key(a) && count_of(o, a) == m[a], |a: A| m[a])
}

/// The entries of `m` that `o` does not dominate.
pub open spec fn subtracted<A>(m: Map<A, Counter>, o: Map<A, Counter>) -> Map<A, Counter> {
    Map::new(|a: A| m.contains_key(a) && count_of(o, a) < m[a], |a: A| m[a])
}

/// The meet of two clocks: for each actor the smaller counter, where that is not 0.
pub open spec fn truncated<A>(m: Map<A, Counter>, o: Map<A, Counter>) -> Map<A, Counter> {
    Map::new(
        |a: A| m.contains_key(a) && count_of(o, a) > 0,
        |a: A| smaller(m[a], count_of(o, a)),
    )
}

/// Two well-formed clocks with the same counter for every actor are the same clock.
pub proof fn lemma_clock_ext<A>(m: Map<A, Counter>, o: Map<A, Counter>)
    requires
        clock_wf(m),
        clock_wf(o),
        forall|a: A| count_of(m, a) == count_of(o, a),
    ensures
        m == o,
{
    assert forall|a: A| m.contains_key(a) == o.contains_key(a) by {
        assert(count_of(m, a) == count_of(o, a));
        if m.contains_key(a) {
            assert(m[a] > 0);
        }
        if o.contains_key(a) {
            assert(o[a] > 0);
        }
    }
    assert forall|a: A| m.contains_key(a) implies m[a] == o[a] by {
        assert(count_of(m, a) == count_of(o, a));
    }
    assert(m =~= o);
}

/// A dot is a version marker for a single actor: its `counter`-th mutation.
#[derive(Debug, Clone, PartialEq, Eq)]
pub struct Dot<A: Actor> {
    /// The actor identifier.
    pub actor: A,
    /// The version of this actor.
    pub counter: Counter,
}

/// A vector clock: a set of actors, each with the highest counter witnessed.
#[derive(Debug, Eq, Hash)]
pub struct VClock<A: Actor> {
    /// The mapping from actors to their counters.
    pub dots: BTreeMap<A, Counter>,
}

impl<A: Actor> View for VClock<A> {
    type V = Map<A, Counter>;

    open spec fn view(&self) -> Map<A, Counter> {
        self.dots@
    }
}

impl<A: Actor> Valid for VClock<A> {
    open spec fn valid(state: Map<A, Counter>) -> bool {
        clock_wf(state)
    }
}

/// The keys of an ordered map, each once.
pub(crate) fn keys_of<T: Ord + Clone, V>(m: &BTreeMap<T, V>) -> (keys: Vec<T>)
    requires
        lawful::<T>(),
    ensures
        keys@.no_duplicates(),
        keys@.to_set() == m@.dom(),
{
    broadcast use vstd::std_specs::btree::group_btree_axioms;

    let mut keys: Vec<T> = Vec::new();
    for k in it: m.keys()
        invariant
            lawful::<T>(),
            keys@.len() == it.index(),
            forall|i: int| 0 <= i < keys@.len() ==> keys@[i] == *#[trigger] it.seq()[i],
            it.seq() == m.keys().remaining(),
    {
        let c = k.clone();
        assert(cloned(*k, c));
        keys.push(c);
    }
    proof {
        assert(keys@ =~= m.keys().remaining().unref());
    }
    keys
}

/// The first `j + 1` items of a sequence without duplicates are the first
/// `j` items and one item more.
pub proof fn lemma_take_next<T>(s: Seq<T>, j: int)
    requires
        s.no_duplicates(),
        0 <= j < s.len(),
    ensures
        s.take(j).to_set().finite(),
        !s.take(j).to_set().contains(s[j]),
        s.take(j + 1).to_set() == s.take(j).to_set().insert(s[j]),
{
    let cur = s.take(j);
    let next = s.take(j + 1);
    vstd::seq_lib::seq_to_set_is_finite(cur);
    if cur.contains(s[j]) {
        let i = choose|i: int| 0 <= i < cur.len() && cur[i] == s[j];
        assert(s[i] == s[j]);
    }
    assert forall|k: T| #[trigger] next.to_set().contains(k) implies cur.to_set().insert(s[j]).contains(k) by {
        assert(next.contains(k));
        let i = choose|i: int| 0 <= i < next.len() && next[i] == k;
        if i < j {
            assert(cur[i] == k);
            assert(cur.contains(k));
        }
    }
    assert forall|k: T| #[trigger] cur.to_set().insert(s[j]).contains(k) implies next.to_set().contains(k) by {
        if k == s[j] {
            assert(next[j] == k);
            assert(next.contains(k));
        } else {
            assert(cur.contains(k));
            let i = choose|i: int| 0 <= i < cur.len() && cur[i] == k;
            assert(next[i] == k);
            assert(next.contains(k));
        }
    }
    assert(next.to_set() =~= cur.to_set().insert(s[j]));
}

/// The items of an ordered set, each once.
pub(crate) fn items_of<T: Ord + Clone>(set: &BTreeSet<T>) -> (items: Vec<T>)
    requires
        lawful::<T>(),
    ensures
        items@.no_duplicates(),
        items@.to_set() == set@,
{
    broadcast use vstd::std_specs::btree::group_btree_axioms;

    let mut items: Vec<T> = Vec::new();
    for k in it: set.iter()
        invariant
            lawful::<T>(),
            items@.len() == it.index(),
            forall|i: int| 0 <= i < items@.len() ==> items@[i] == *#[trigger] it.seq()[i],
            it.seq() == set.iter().remaining(),
    {
        let c = k.clone();
        assert(cloned(*k, c));
        items.push(c);
    }
    proof {
        assert(items@ =~= set.iter().remaining().unref());
    }
    items
}

impl<A: Actor> VClock<A> {
    /// The clock holds finitely many actors, and none with counter 0.
    pub open spec fn wf(&self) -> bool {
        clock_wf(self@)
    }

    /// The counter of an actor in this clock.
    pub open spec fn count(&self, a: A) -> Counter {
        count_of(self@, a)
    }

    /// Returns the empty clock.
    pub fn new() -> (clock: VClock<A>)
        ensures
            clock@ == Map::<A, Counter>::empty(),
            clock.wf(),
    {
        broadcast use vstd::std_specs::btree::group_btree_axioms;

        VClock { dots: BTreeMap::new() }
    }

    /// Returns the counter of this actor; an actor that the clock does not
    /// hold has counter 0.
    pub fn get(&self, actor: &A) -> (c: Counter)
        ensures
            c == self.count(*actor),
    {
        broadcast use vstd::std_specs::btree::group_btree_axioms;

        proof {
            A::actor_laws();
        }
        match self.dots.get(actor) {
            Some(c) => *c,
            None => 0,
        }
    }

    /// Stores the counter for the actor if it is above the one that the clock
    /// holds; no counter ever decreases.
    pub fn witness(&mut self, actor: A, counter: Counter)
        requires
            old(self).wf(),
        ensures
            final(self).wf(),
            final(self)@ == witnessed(old(self)@, actor, counter),
    {
        broadcast use vstd::std_specs::btree::group_btree_axioms;

        proof {
            A::actor_laws();
        }
        if !(self.get(&actor) >= counter) {
            self.dots.insert(actor, counter);
        }
    }

    /// Returns the next dot of the actor. The clock does not change.
    pub fn inc(&self, actor: A) -> (dot: Dot<A>)
        requires
            self.count(actor) < u64::MAX,
        ensures
            dot.actor == actor,
            dot.counter == self.count(actor) + 1,
    {
        let next = self.get(&actor) + 1;
        Dot { actor: actor, counter: next }
    }

    /// True if the clock holds no actor.
    pub fn is_empty(&self) -> (empty: bool)
        ensures
            empty <==> self@ == Map::<A, Counter>::empty(),
    {
        let empty = self.dots.is_empty();
        proof {
            if empty {
                assert(self@ =~= Map::<A, Counter>::empty());
            }
        }
        empty
    }

    /// True if no actor has a higher counter in this clock than in the other.
    pub fn dominated_by(&self, other: &VClock<A>) -> (le: bool)
        ensures
            le == clock_le(self@, other@),
    {
        proof {
            A::actor_laws();
        }
        let keys = keys_of(&self.dots);
        let mut i: usize = 0;
        while i < keys.len()
            invariant
                i <= keys.len(),
                keys@.to_set() == self@.dom(),
                forall|j: int| 0 <= j < i ==> count_of(self@, #[trigger] keys@[j]) <= count_of(other@, keys@[j]),
            decreases keys.len() - i,
        {
            if self.get(&keys[i]) > other.get(&keys[i]) {
                assert(!(count_of(self@, keys@[i as int]) <= count_of(other@, keys@[i as int])));
                return false;
            }
            i += 1;
        }
        proof {
            assert forall|a: A| #[trigger] count_of(self@, a) <= count_of(other@, a) by {
                if self@.contains_key(a) {
                    assert(keys@.to_set().contains(a));
                    let j = choose|j: int| 0 <= j < keys@.len() && keys@[j] == a;
                    assert(count_of(self@, keys@[j]) <= count_of(other@, keys@[j]));
                }
            }
        }
        true
    }

    /// Returns the entries, same actor and same counter, that both clocks hold.
    pub fn intersection(&self, other: &VClock<A>) -> (both: VClock<A>)
        requires
            self.wf(),
        ensures
            both.wf(),
            both@ == common(self@, other@),
    {
        broadcast use vstd::std_specs::btree::group_btree_axioms;

        proof {
            A::actor_laws();
        }
        let keys = keys_of(&self.dots);
        let mut both: VClock<A> = VClock::new();
        let mut i: usize = 0;
        while i < keys.len()
            invariant
                i <= keys.len(),
                lawful::<A>(),
                self.wf(),
                both.wf(),
                keys@.to_set() == self@.dom(),
                forall|a: A| #[trigger]
                    both@.contains_key(a) <==> common(self@, other@).contains_key(a) && exists|j: int|
                        0 <= j < i && keys@[j] == a,
                forall|a: A| #[trigger] both@.contains_key(a) ==> both@[a] == self@[a],
            decreases keys.len() - i,
        {
            let counter = self.get(&keys[i]);
            let other_counter = other.get(&keys[i]);
            let ghost prev = both@;
            if other_counter == counter {
                let actor = keys[i].clone();
                assert(cloned(keys@[i as int], actor));
                assert(keys@.to_set().contains(keys@[i as int]));
                both.dots.insert(actor, counter);
            }
            proof {
                let k = keys@[i as int];
                assert forall|a: A| #[trigger]
                    both@.contains_key(a) <==> common(self@, other@).contains_key(a) && exists|j: int|
                        0 <= j < i + 1 && keys@[j] == a by {
                    if a == k {
                        assert(keys@.to_set().contains(k));
                    } else {
                        assert(both@.contains_key(a) == prev.contains_key(a));
                        if prev.contains_key(a) {
                            let j = choose|j: int| 0 <= j < i && keys@[j] == a;
                            assert(0 <= j < i + 1 && keys@[j] == a);
                        }
                        if exists|j: int| 0 <= j < i + 1 && keys@[j] == a {
                            let j = choose|j: int| 0 <= j < i + 1 && keys@[j] == a;
                            assert(j != i);
                            assert(0 <= j < i && keys@[j] == a);
                        }
                    }
                }
            }
            i += 1;
        }
        proof {
            assert forall|a: A| both@.contains_key(a) == common(self@, other@).contains_key(a) by {
                if common(self@, other@).contains_key(a) {
                    assert(keys@.to_set().contains(a));
                    let j = choose|j: int| 0 <= j < keys@.len() && keys@[j] == a;
                    assert(0 <= j < i && keys@[j] == a);
                }
            }
            assert(both@ =~= common(self@, other@));
        }
        both
    }

    /// Returns the entries of this clock as pairs, in the order of the actors.
    pub fn iter(&self) -> (pairs: Vec<(A, Counter)>)
        ensures
            pairs@.len() == self@.dom().len(),
            forall|i: int| 0 <= i < pairs@.len() ==> self@.contains_key(#[trigger] pairs@[i].0) && self@[pairs@[i].0] == pairs@[i].1,
            forall|a: A| self@.contains_key(a) ==> exists|i: int| 0 <= i < pairs@.len() && #[trigger] pairs@[i].0 == a,
            forall|i: int, j: int| 0 <= i < j < pairs@.len() ==> (#[trigger] pairs@[i]).0 != (#[trigger] pairs@[j]).0,
    {
        proof {
            A::actor_laws();
        }
        let keys = keys_of(&self.dots);
        proof {
            keys@.unique_seq_to_set();
        }
        let mut pairs: Vec<(A, Counter)> = Vec::new();
        let mut i: usize = 0;
        while i < keys.len()
            invariant
                i <= keys.len(),
                lawful::<A>(),
                pairs@.len() == i,
                keys@.no_duplicates(),
                keys@.to_set() == self@.dom(),
                forall|j: int| 0 <= j < i ==> (#[trigger] pairs@[j]).0 == keys@[j] && pairs@[j].1 == self@[keys@[j]],
            decreases keys.len() - i,
        {
            let counter = self.get(&keys[i]);
            let actor = keys[i].clone();
            assert(cloned(keys@[i as int], actor));
            assert(keys@.to_set().contains(keys@[i as int]));
            pairs.push((actor, counter));
            i += 1;
        }
        proof {
            assert forall|j: int| 0 <= j < pairs@.len() implies self@.contains_key(#[trigger] pairs@[j].0) && self@[pairs@[j].0] == pairs@[j].1 by {
                assert(keys@.to_set().contains(keys@[j]));
            }
            assert forall|a: A| self@.contains_key(a) implies exists|j: int| 0 <= j < pairs@.len() && #[trigger] pairs@[j].0 == a by {
                assert(keys@.to_set().contains(a));
                let j = choose|j: int| 0 <= j < keys@.len() && keys@[j] == a;
                assert(pairs@[j].0 == a);
            }
        }
        pairs
    }

    /// Forgets the actors that the other clock holds with the same or a higher counter.
    pub fn subtract(&mut self, other: &VClock<A>)
        requires
            old(self).wf(),
        ensures
            final(self).wf(),
            final(self)@ == subtracted(old(self)@, other@),
    {
        broadcast use vstd::std_specs::btree::group_btree_axioms;

        proof {
            A::actor_laws();
        }
        let keys = keys_of(&other.dots);
        let ghost start = self@;
        let mut i: usize = 0;
        while i < keys.len()
            invariant
                i <= keys.len(),
                lawful::<A>(),
                self.wf(),
                clock_wf(start),
                keys@.to_set() == other@.dom(),
                forall|a: A| #[trigger]
                    self@.contains_key(a) <==> start.contains_key(a) && !(count_of(other@, a) >= start[a] && exists|j: int|
                        0 <= j < i && keys@[j] == a),
                forall|a: A| #[trigger] self@.contains_key(a) ==> self@[a] == start[a],
            decreases keys.len() - i,
        {
            let ghost prev = self@;
            let counter = other.get(&keys[i]);
            if counter >= self.get(&keys[i]) {
                self.dots.remove(&keys[i]);
            }
            proof {
                let k = keys@[i as int];
                assert forall|a: A| #[trigger]
                    self@.contains_key(a) <==> start.contains_key(a) && !(count_of(other@, a) >= start[a] && exists|j: int|
                        0 <= j < i + 1 && keys@[j] == a) by {
                    if a == k {
                        if prev.contains_key(a) {
                            assert(prev[a] == start[a]);
                        }
                    } else {
                        assert(self@.contains_key(a) == prev.contains_key(a));
                        if exists|j: int| 0 <= j < i && keys@[j] == a {
                            let j = choose|j: int| 0 <= j < i && keys@[j] == a;
                            assert(0 <= j < i + 1 && keys@[j] == a);
                        }
                        if exists|j: int| 0 <= j < i + 1 && keys@[j] == a {
                            let j = choose|j: int| 0 <= j < i + 1 && keys@[j] == a;
                            assert(j != i);
                            assert(0 <= j < i && keys@[j] == a);
                        }
                    }
                }
            }
            i += 1;
        }
        proof {
            assert forall|a: A| self@.contains_key(a) == subtracted(start, other@).contains_key(a) by {
                if start.contains_key(a) {
                    assert(start[a] > 0);
                    if count_of(other@, a) >= start[a] {
                        assert(other@.contains_key(a));
                        assert(keys@.to_set().contains(a));
                        let j = choose|j: int| 0 <= j < keys@.len() && keys@[j] == a;
                        assert(0 <= j < i && keys@[j] == a);
                    }
                }
            }
            assert(self@ =~= subtracted(start, other@));
        }
    }

    /// True if the two clocks hold the same actors with the same counters.
    pub fn same_as(&self, other: &VClock<A>) -> (same: bool)
        requires
            self.wf(),
            other.wf(),
        ensures
            same == (self@ == other@),
    {
        let le = self.dominated_by(other);
        let ge = other.dominated_by(self);
        proof {
            if le && ge {
                assert forall|a: A| count_of(self@, a) == count_of(other@, a) by {
                    assert(count_of(self@, a) <= count_of(other@, a));
                    assert(count_of(other@, a) <= count_of(self@, a));
                }
                lemma_clock_ext(self@, other@);
            }
        }
        le && ge
    }

    /// True if the two clocks have diverged: neither is dominated by the other.
    pub fn concurrent(&self, other: &VClock<A>) -> (diverged: bool)
        ensures
            diverged <==> !clock_le(self@, other@) && !clock_le(other@, self@),
    {
        let le = self.dominated_by(other);
        let ge = other.dominated_by(self);
        !le && !ge
    }
}

impl<A: Actor> PartialEq for VClock<A> {
    /// Two clocks are equal when they hold the same actors with the same counters.
    fn eq(&self, other: &Self) -> (same: bool) {
        broadcast use vstd::std_specs::btree::group_btree_axioms;

        proof {
            A::actor_laws();
        }
        if self.dots.len() != other.dots.len() {
            return false;
        }
        let keys = keys_of(&self.dots);
        let mut i: usize = 0;
        while i < keys.len()
            invariant
                i <= keys.len(),
                lawful::<A>(),
                keys@.to_set() == self@.dom(),
                forall|j: int|
                    0 <= j < i ==> other@.contains_key(#[trigger] keys@[j]) && other@[keys@[j]]
                        == self@[keys@[j]],
            decreases keys.len() - i,
        {
            proof {
                assert(keys@.to_set().contains(keys@[i as int]));
            }
            let here = self.get(&keys[i]);
            match other.dots.get(&keys[i]) {
                Some(there) => {
                    if *there != here {
                        return false;
                    }
                },
                None => {
                    return false;
                },
            }
            i += 1;
        }
        proof {
            assert forall|a: A| self@.contains_key(a) implies other@.contains_key(a) && other@[a]
                == self@[a] by {
                assert(keys@.to_set().contains(a));
                let j = choose|j: int| 0 <= j < keys@.len() && keys@[j] == a;
                assert(other@.contains_key(keys@[j]));
            }
            assert(self@.dom().subset_of(other@.dom()));
            vstd::set_lib::lemma_subset_equality(self@.dom(), other@.dom());
            assert(self@ =~= other@);
        }
        true
    }
}

impl<A: Actor> vstd::std_specs::cmp::PartialEqSpecImpl for VClock<A> {
    open spec fn obeys_eq_spec() -> bool {
        true
    }

    open spec fn eq_spec(&self, other: &Self) -> bool {
        self@ == other@
    }
}

impl<A: Actor> Clone for VClock<A> {
    fn clone(&self) -> (copy: Self)
        ensures
            copy@ == self@,
    {
        VClock { dots: self.dots.clone() }
    }
}

impl<A: Actor> CmRDT for VClock<A> {
    type Op = Dot<A>;

    open spec fn op_wf(op: Dot<A>) -> bool {
        true
    }

    open spec fn apply_spec(state: Map<A, Counter>, op: Dot<A>) -> Map<A, Counter> {
        witnessed(state, op.actor, op.counter)
    }

    /// Witnesses the dot.
    fn apply(&mut self, dot: &Dot<A>) {
        proof {
            A::actor_laws();
        }
        let actor = dot.actor.clone();
        assert(cloned(dot.actor, actor));
        self.witness(actor, dot.counter);
    }
}

impl<A: Actor> CvRDT for VClock<A> {
    open spec fn merge_spec(state: Map<A, Counter>, other: Map<A, Counter>) -> Map<A, Counter> {
        joined(state, other)
    }

    /// Raises each counter to the one that the other clock holds, where that is higher.
    fn merge(&mut self, other: &VClock<A>) {
        proof {
            A::actor_laws();
        }
        let keys = keys_of(&other.dots);
        let ghost start = self@;
        let mut i: usize = 0;
        while i < keys.len()
            invariant
                i <= keys.len(),
                lawful::<A>(),
                self.wf(),
                other.wf(),
                clock_wf(start),
                keys@.to_set() == other@.dom(),
                forall|a: A| #[trigger]
                    count_of(self@, a) == if exists|j: int| 0 <= j < i && keys@[j] == a {
                        larger(count_of(start, a), count_of(other@, a))
                    } else {
                        count_of(start, a)
                    },
            decreases keys.len() - i,
        {
            let ghost prev = self@;
            let counter = other.get(&keys[i]);
            let actor = keys[i].clone();
            assert(cloned(keys@[i as int], actor));
            self.witness(actor, counter);
            proof {
                let k = keys@[i as int];
                assert forall|a: A| #[trigger]
                    count_of(self@, a) == if exists|j: int| 0 <= j < i + 1 && keys@[j] == a {
                        larger(count_of(start, a), count_of(other@, a))
                    } else {
                        count_of(start, a)
                    } by {
                    assert(count_of(prev, a) == if exists|j: int| 0 <= j < i && keys@[j] == a {
                        larger(count_of(start, a), count_of(other@, a))
                    } else {
                        count_of(start, a)
                    });
                    if a == k {
                        assert(0 <= i < i + 1 && keys@[i as int] == a);
                    } else {
                        assert(count_of(self@, a) == count_of(prev, a));
                        if exists|j: int| 0 <= j < i && keys@[j] == a {
                            let j = choose|j: int| 0 <= j < i && keys@[j] == a;
                            assert(0 <= j < i + 1 && keys@[j] == a);
                        }
                        if exists|j: int| 0 <= j < i + 1 && keys@[j] == a {
                            let j = choose|j: int| 0 <= j < i + 1 && keys@[j] == a;
                            assert(j != i);
                            assert(0 <= j < i && keys@[j] == a);
                        }
                    }
                }
            }
            i += 1;
        }
        proof {
            lemma_joined_wf(start, other@);
            assert forall|a: A| count_of(self@, a) == count_of(joined(start, other@), a) by {
                assert(count_of(self@, a) == if exists|j: int| 0 <= j < i && keys@[j] == a {
                    larger(count_of(start, a), count_of(other@, a))
                } else {
                    count_of(start, a)
                });
                if other@.contains_key(a) {
                    assert(keys@.to_set().contains(a));
                    let j = choose|j: int| 0 <= j < keys@.len() && keys@[j] == a;
                    assert(0 <= j < i && keys@[j] == a);
                } else {
                    if exists|j: int| 0 <= j < i && keys@[j] == a {
                        let j = choose|j: int| 0 <= j < i && keys@[j] == a;
                        assert(keys@.to_set().contains(keys@[j]));
                    }
                }
            }
            lemma_clock_ext(self@, joined(start, other@));
        }
    }
}

impl<A: Actor> Causal<A> for VClock<A> {
    open spec fn truncate_spec(state: Map<A, Counter>, clock: Map<A, Counter>) -> Map<A, Counter> {
        truncated(state, clock)
    }

    /// Lowers each counter to the one that the given clock holds, where that
    /// is lower, and drops the actors that the given clock does not hold: the
    /// greatest lower bound of the two clocks.
    fn truncate(&mut self, other: &VClock<A>) {
        broadcast use vstd::std_specs::btree::group_btree_axioms;

        proof {
            A::actor_laws();
        }
        let keys = keys_of(&self.dots);
        let ghost start = self@;
        let mut i: usize = 0;
        while i < keys.len()
            invariant
                i <= keys.len(),
                lawful::<A>(),
                other.wf(),
                clock_wf(start),
                self@.dom().finite(),
                keys@.to_set() == start.dom(),
                keys@.no_duplicates(),
                forall|j: int|
                    0 <= j < i ==> (self@.contains_key(#[trigger] keys@[j]) <==> count_of(other@, keys@[j]) > 0),
                forall|j: int|
                    0 <= j < i && self@.contains_key(keys@[j]) ==> self@[#[trigger] keys@[j]] == smaller(
                        start[keys@[j]],
                        count_of(other@, keys@[j]),
                    ),
                forall|j: int|
                    i <= j < keys@.len() ==> self@.contains_key(#[trigger] keys@[j]) && self@[keys@[j]] == start[keys@[j]],
                forall|a: A| self@.contains_key(a) ==> #[trigger] start.contains_key(a),
            decreases keys.len() - i,
        {
            let count = self.get(&keys[i]);
            let other_count = other.get(&keys[i]);
            let min_count = if count <= other_count {
                count
            } else {
                other_count
            };
            if min_count > 0 {
                let actor = keys[i].clone();
                assert(cloned(keys@[i as int], actor));
                self.dots.insert(actor, min_count);
            } else {
                self.dots.remove(&keys[i]);
            }
            i += 1;
        }
        proof {
            assert forall|a: A| self@.contains_key(a) == truncated(start, other@).contains_key(a) by {
                if start.contains_key(a) {
                    assert(keys@.to_set().contains(a));
                    let j = choose|j: int| 0 <= j < keys@.len() && keys@[j] == a;
                    assert(self@.contains_key(keys@[j]) <==> count_of(other@, keys@[j]) > 0);
                }
            }
            assert forall|a: A| self@.contains_key(a) implies self@[a] == truncated(start, other@)[a] by {
                assert(start.contains_key(a));
                assert(keys@.to_set().contains(a));
                let j = choose|j: int| 0 <= j < keys@.len() && keys@[j] == a;
                assert(self@[keys@[j]] == smaller(start[keys@[j]], count_of(other@, keys@[j])));
            }
            assert(self@ =~= truncated(start, other@));
            lemma_truncated_wf(start, other@);
        }
    }
}

/// The order of clocks is transitive.
pub proof fn lemma_le_trans<A>(m: Map<A, Counter>, n: Map<A, Counter>, o: Map<A, Counter>)
    requires
        clock_le(m, n),
        clock_le(n, o),
    ensures
        clock_le(m, o),
{
    assert forall|a: A| #[trigger] count_of(m, a) <= count_of(o, a) by {
        assert(count_of(m, a) <= count_of(n, a));
        assert(count_of(n, a) <= count_of(o, a));
    }
}

/// What is left of a clock after a subtraction is a well-formed clock that
/// the clock dominates.
pub proof fn lemma_subtracted_le<A>(m: Map<A, Counter>, o: Map<A, Counter>)
    requires
        clock_wf(m),
    ensures
        clock_wf(subtracted(m, o)),
        clock_le(subtracted(m, o), m),
{
    assert(subtracted(m, o).dom().subset_of(m.dom()));
    vstd::set_lib::lemma_len_subset(subtracted(m, o).dom(), m.dom());
    assert forall|a: A| subtracted(m, o).contains_key(a) implies #[trigger] subtracted(m, o)[a] > 0 by {
        assert(m[a] > 0);
    }
}

/// To witness a dot keeps a clock well formed and never lowers a counter.
pub proof fn lemma_witnessed_le<A>(m: Map<A, Counter>, a: A, c: Counter)
    requires
        clock_wf(m),
    ensures
        clock_wf(witnessed(m, a, c)),
        clock_le(m, witnessed(m, a, c)),
        count_of(witnessed(m, a, c), a) == larger(count_of(m, a), c),
{
    let w = witnessed(m, a, c);
    assert forall|b: A| #[trigger] count_of(m, b) <= count_of(w, b) by {}
    assert forall|b: A| w.contains_key(b) implies #[trigger] w[b] > 0 by {
        if m.contains_key(b) {
            assert(m[b] > 0);
        }
    }
}

/// To witness a dot is monotone in the clock.
pub proof fn lemma_witnessed_monotone<A>(m: Map<A, Counter>, o: Map<A, Counter>, a: A, c: Counter)
    requires
        clock_le(m, o),
    ensures
        clock_le(witnessed(m, a, c), witnessed(o, a, c)),
{
    assert forall|b: A| #[trigger] count_of(witnessed(m, a, c), b) <= count_of(witnessed(o, a, c), b) by {
        assert(count_of(m, b) <= count_of(o, b));
    }
}

/// Subtraction is monotone in the clock that is subtracted from.
pub proof fn lemma_subtracted_monotone<A>(m: Map<A, Counter>, o: Map<A, Counter>, c: Map<A, Counter>)
    requires
        clock_le(m, o),
    ensures
        clock_le(subtracted(m, c), subtracted(o, c)),
{
    assert forall|a: A| #[trigger] count_of(subtracted(m, c), a) <= count_of(subtracted(o, c), a) by {
        assert(count_of(m, a) <= count_of(o, a));
    }
}

/// What two clocks have in common is a well-formed clock that the first dominates.
pub proof fn lemma_common_le<A>(m: Map<A, Counter>, o: Map<A, Counter>)
    requires
        clock_wf(m),
    ensures
        clock_wf(common(m, o)),
        clock_le(common(m, o), m),
{
    assert(common(m, o).dom().subset_of(m.dom()));
    vstd::set_lib::lemma_len_subset(common(m, o).dom(), m.dom());
    assert forall|a: A| common(m, o).contains_key(a) implies #[trigger] common(m, o)[a] > 0 by {
        assert(m[a] > 0);
    }
}

/// The join of two clocks is their least upper bound.
pub proof fn lemma_joined_lub<A>(m: Map<A, Counter>, o: Map<A, Counter>, u: Map<A, Counter>)
    ensures
        clock_le(m, joined(m, o)),
        clock_le(o, joined(m, o)),
        clock_le(m, u) && clock_le(o, u) ==> clock_le(joined(m, o), u),
{
    assert forall|a: A| #[trigger] count_of(m, a) <= count_of(joined(m, o), a) by {}
    assert forall|a: A| #[trigger] count_of(o, a) <= count_of(joined(m, o), a) by {}
    if clock_le(m, u) && clock_le(o, u) {
        assert forall|a: A| #[trigger] count_of(joined(m, o), a) <= count_of(u, a) by {
            assert(count_of(m, a) <= count_of(u, a));
            assert(count_of(o, a) <= count_of(u, a));
        }
    }
}

/// The join of two well-formed clocks is well formed.
pub proof fn lemma_joined_wf<A>(m: Map<A, Counter>, o: Map<A, Counter>)
    requires
        clock_wf(m),
        clock_wf(o),
    ensures
        clock_wf(joined(m, o)),
{
    assert(joined(m, o).dom() =~= m.dom().union(o.dom()));
    assert forall|a: A| joined(m, o).contains_key(a) implies #[trigger] joined(m, o)[a] > 0 by {
        if m.contains_key(a) {
            assert(m[a] > 0);
        } else {
            assert(o[a] > 0);
        }
    }
}

/// The meet of two well-formed clocks is well formed.
pub proof fn lemma_truncated_wf<A>(m: Map<A, Counter>, o: Map<A, Counter>)
    requires
        clock_wf(m),
        clock_wf(o),
    ensures
        clock_wf(truncated(m, o)),
{
    assert(truncated(m, o).dom() =~= m.dom().intersect(o.dom())) by {
        assert forall|a: A| truncated(m, o).dom().contains(a) == m.dom().intersect(o.dom()).contains(a) by {
            if o.contains_key(a) {
                assert(o[a] > 0);
            }
        }
    }
    assert forall|a: A| truncated(m, o).contains_key(a) implies #[trigger] truncated(m, o)[a] > 0 by {
        assert(m[a] > 0);
    }
}

/// How two clocks compare: equal, one dominating the other, or concurrent (`None`).
pub open spec fn clock_order<A>(m: Map<A, Counter>, o: Map<A, Counter>) -> Option<Ordering> {
    if m == o {
        Some(Ordering::Equal)
    } else if clock_le(o, m) {
        Some(Ordering::Greater)
    } else if clock_le(m, o) {
        Some(Ordering::Less)
    } else {
        None
    }
}

impl<A: Actor> PartialOrd for VClock<A> {
    fn partial_cmp(&self, other: &VClock<A>) -> (order: Option<Ordering>) {
        let ge = other.dominated_by(self);
        let le = self.dominated_by(other);
        proof {
            if self.wf() && other.wf() {
                if ge && le {
                    assert forall|a: A| count_of(self@, a) == count_of(other@, a) by {
                        assert(count_of(self@, a) <= count_of(other@, a));
                        assert(count_of(other@, a) <= count_of(self@, a));
                    }
                    lemma_clock_ext(self@, other@);
                }
            }
        }
        if ge && le {
            Some(Ordering::Equal)
        } else if ge {
            Some(Ordering::Greater)
        } else if le {
            Some(Ordering::Less)
        } else {
            None
        }
    }
}

impl<A: Actor> vstd::std_specs::cmp::PartialOrdSpecImpl for VClock<A> {
    open spec fn obeys_partial_cmp_spec() -> bool {
        true
    }

    open spec fn partial_cmp_spec(&self, other: &VClock<A>) -> Option<Ordering> {
        if clock_le(other@, self@) && clock_le(self@, other@) {
            Some(Ordering::Equal)
        } else if clock_le(other@, self@) {
            Some(Ordering::Greater)
        } else if clock_le(self@, other@) {
            Some(Ordering::Less)
        } else {
            None
        }
    }
}

/// For well-formed clocks the comparison is that of the partial order of
/// clocks: equal clocks compare equal.
pub proof fn lemma_partial_cmp_is_clock_order<A: Actor>(u: VClock<A>, v: VClock<A>)
    requires
        u.wf(),
        v.wf(),
    ensures
        u.partial_cmp_spec(&v) == clock_order(u@, v@),
{
    if clock_le(v@, u@) && clock_le(u@, v@) {
        assert forall|a: A| count_of(u@, a) == count_of(v@, a) by {
            assert(count_of(u@, a) <= count_of(v@, a));
            assert(count_of(v@, a) <= count_of(u@, a));
        }
        lemma_clock_ext(u@, v@);
    }
}

impl<A: Actor> From<Dot<A>> for VClock<A> {
    /// The clock that holds the dot and nothing else.
    fn from(dot: Dot<A>) -> (clock: VClock<A>)
        ensures
            clock.wf(),
            clock@ == witnessed(Map::<A, Counter>::empty(), dot.actor, dot.counter),
    {
        let mut clock = VClock::new();
        clock.witness(dot.actor, dot.counter);
        clock
    }
}

/// No clock can be written down in a specification: what `from` returns is
/// stated by `from` itself, over the view of the clock.
impl<A: Actor> vstd::std_specs::convert::FromSpecImpl<Dot<A>> for VClock<A> {
    open spec fn obeys_from_spec() -> bool {
        false
    }

    open spec fn from_spec(dot: Dot<A>) -> VClock<A> {
        arbitrary()
    }
}

/// The clock `m` after it witnessed each of the pairs of an actor and a
/// counter, one after the other.
pub open spec fn witnessed_all<A>(m: Map<A, Counter>, pairs: Seq<(A, Counter)>) -> Map<A, Counter>
    decreases pairs.len(),
{
    if pairs.len() == 0 {
        m
    } else {
        witnessed(witnessed_all(m, pairs.drop_last()), pairs.last().0, pairs.last().1)
    }
}

impl<A: Actor> From<Vec<(A, Counter)>> for VClock<A> {
    /// The clock that has witnessed each of the pairs and nothing else.
    fn from(pairs: Vec<(A, Counter)>) -> (clock: VClock<A>)
        ensures
            clock.wf(),
            clock@ == witnessed_all(Map::<A, Counter>::empty(), pairs@),
    {
        proof {
            A::actor_laws();
        }
        let mut clock = VClock::new();
        let mut i: usize = 0;
        proof {
            assert(pairs@.take(0) =~= Seq::<(A, Counter)>::empty());
        }
        while i < pairs.len()
            invariant
                i <= pairs.len(),
                lawful::<A>(),
                clock.wf(),
                clock@ == witnessed_all(Map::<A, Counter>::empty(), pairs@.take(i as int)),
            decreases pairs.len() - i,
        {
            proof {
                let front = pairs@.take(i + 1);
                assert(front.drop_last() =~= pairs@.take(i as int));
                assert(front.last() == pairs@[i as int]);
            }
            let actor = pairs[i].0.clone();
            assert(cloned(pairs@[i as int].0, actor));
            clock.witness(actor, pairs[i].1);
            i += 1;
        }
        proof {
            assert(pairs@.take(pairs@.len() as int) =~= pairs@);
        }
        clock
    }
}

/// No clock can be written down in a specification: what `from` returns is
/// stated by `from` itself, over the view of the clock.
impl<A: Actor> vstd::std_specs::convert::FromSpecImpl<Vec<(A, Counter)>> for VClock<A> {
    open spec fn obeys_from_spec() -> bool {
        false
    }

    open spec fn from_spec(pairs: Vec<(A, Counter)>) -> VClock<A> {
        arbitrary()
    }
}

} // verus!
