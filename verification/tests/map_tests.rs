use crdts::{
    AddCtx, Causal, CmRDT, CrdtMap, CvRDT, Deferred, Dot, Entry, Op, RmCtx, VClock, Val, Valid,
};
use std::collections::BTreeSet;
use std::cmp::Ordering;

/// A multi-value register: the leaf value of the maps under test.
#[derive(Debug, Clone, Eq)]
struct MVReg {
    vals: Vec<(VClock<u8>, u8)>,
}

impl PartialEq for MVReg {
    fn eq(&self, other: &Self) -> bool {
        self.vals.len() == other.vals.len()
            && self.vals.iter().all(|pair| other.vals.contains(pair))
            && other.vals.iter().all(|pair| self.vals.contains(pair))
    }
}

#[derive(Debug, Clone, PartialEq, Eq)]
enum RegOp {
    Put { clock: VClock<u8>, val: u8 },
}

impl MVReg {
    /// The values that the register holds, in ascending order.
    fn read(&self) -> Vec<u8> {
        let mut vals: Vec<u8> = self.vals.iter().map(|(_, v)| *v).collect();
        vals.sort();
        vals
    }
}

impl Default for MVReg {
    fn default() -> Self {
        MVReg { vals: Vec::new() }
    }
}

// The model of the register is of no interest to these tests: the items
// below stand for it and are never called.
impl vstd::prelude::View for MVReg {
    type V = ();

    fn view(&self) {}
}

impl Valid for MVReg {
    fn valid(_state: ()) -> bool {
        true
    }
}

impl Causal<u8> for MVReg {
    fn truncate_spec(_state: (), _clock: vstd::map::Map<u8, u64>) {}

    fn truncate(&mut self, clock: &VClock<u8>) {
        let mut vals = Vec::new();
        for (val_clock, val) in self.vals.iter() {
            let mut rest = val_clock.clone();
            rest.subtract(clock);
            if !rest.is_empty() {
                vals.push((rest, *val));
            }
        }
        self.vals = vals;
    }
}

impl CmRDT for MVReg {
    type Op = RegOp;

    fn op_wf(_op: RegOp) -> bool {
        true
    }

    fn apply_spec(_state: (), _op: RegOp) {}

    fn apply(&mut self, op: &RegOp) {
        let RegOp::Put { clock, val } = op;
        if clock.is_empty() {
            return;
        }
        self.vals.retain(|(val_clock, _)| match val_clock.partial_cmp(clock) {
            None | Some(Ordering::Greater) => true,
            _ => false,
        });
        let mut should_add = true;
        for (existing_clock, _) in self.vals.iter() {
            if existing_clock > clock {
                should_add = false;
            }
        }
        if should_add {
            self.vals.push((clock.clone(), *val));
        }
    }
}

impl CvRDT for MVReg {
    fn merge_spec(_state: (), _other: ()) {}

    fn merge(&mut self, other: &Self) {
        let mut vals = Vec::new();
        for (clock, val) in self.vals.iter() {
            if other.vals.iter().filter(|(c, _)| clock < c).count() == 0 {
                vals.push((clock.clone(), *val));
            }
        }
        for (clock, val) in other.vals.iter() {
            if self.vals.iter().filter(|(c, _)| clock < c).count() == 0
                && vals.iter().filter(|(c, _)| c == clock).count() == 0
            {
                vals.push((clock.clone(), *val));
            }
        }
        self.vals = vals;
    }
}

impl Val<u8> for MVReg {
    fn default_spec() {}

    fn val_laws() {}
}

type TestActor = u8;
type TestKey = u8;
type TestVal = MVReg;
type TestMap = CrdtMap<TestKey, CrdtMap<TestKey, TestVal, TestActor>, TestActor>;

#[test]
fn test_get() {
    let mut m: TestMap = CrdtMap::new();

    assert_eq!(m.get(&0).val, None);

    let op_1 = m.clock.inc(1);
    m.clock.apply(&op_1);

    m.entries.insert(0, Entry { clock: m.clock.clone(), val: CrdtMap::default() });

    assert_eq!(m.get(&0).val, Some(CrdtMap::new()));
}

#[test]
fn test_op_exchange_converges_quickcheck1() {
    let op_actor1: Op<TestKey, CrdtMap<TestKey, TestVal, TestActor>, TestActor> = Op::Up {
        dot: Dot { actor: 0, counter: 3 },
        key: 9,
        op: Op::Up {
            dot: Dot { actor: 0, counter: 3 },
            key: 0,
            op: RegOp::Put { clock: Dot { actor: 0, counter: 3 }.into(), val: 0 },
        },
    };
    let op_1_actor2: Op<TestKey, CrdtMap<TestKey, TestVal, TestActor>, TestActor> = Op::Up {
        dot: Dot { actor: 1, counter: 1 },
        key: 9,
        op: Op::Rm { clock: Dot { actor: 1, counter: 1 }.into(), key: 0 },
    };
    let op_2_actor2: Op<TestKey, CrdtMap<TestKey, TestVal, TestActor>, TestActor> =
        Op::Rm { clock: Dot { actor: 1, counter: 2 }.into(), key: 9 };

    let mut m1: TestMap = CrdtMap::new();
    let mut m2: TestMap = CrdtMap::new();

    m1.apply(&op_actor1);
    assert_eq!(m1.clock, Dot { actor: 0, counter: 3 }.into());
    assert_eq!(m1.entries.get(&9).unwrap().clock, Dot { actor: 0, counter: 3 }.into());
    assert_eq!(m1.entries.get(&9).unwrap().val.deferred.len(), 0);

    m2.apply(&op_1_actor2);
    m2.apply(&op_2_actor2);
    assert_eq!(m2.clock, Dot { actor: 1, counter: 1 }.into());
    assert_eq!(m2.entries.get(&9), None);
    assert_eq!(
        m2.deferred.get(&Dot { actor: 1, counter: 2 }.into()),
        Some(&vec![9].into_iter().collect())
    );

    // m1 <- m2
    m1.apply(&op_1_actor2);
    m1.apply(&op_2_actor2);

    // m2 <- m1
    m2.apply(&op_actor1);

    // m1 <- m2 == m2 <- m1
    assert_eq!(m1, m2);
}

type FlatMap = CrdtMap<TestKey, TestVal, TestActor>;
type FlatOp = Op<TestKey, TestVal, TestActor>;
type NestedOp = Op<TestKey, FlatMap, TestActor>;

fn clock(pairs: Vec<(u8, u64)>) -> VClock<u8> {
    VClock::from(pairs)
}

fn put(pairs: Vec<(u8, u64)>, val: u8) -> RegOp {
    RegOp::Put { clock: clock(pairs), val }
}

fn up(actor: u8, counter: u64, key: u8, op: RegOp) -> FlatOp {
    Op::Up { dot: Dot { actor, counter }, key, op }
}

fn rm(pairs: Vec<(u8, u64)>, key: u8) -> FlatOp {
    Op::Rm { clock: clock(pairs), key }
}

fn keys(items: Vec<u8>) -> BTreeSet<u8> {
    items.into_iter().collect()
}

const ALICE: u8 = 1;
const BOB: u8 = 10;
const CLYDE: u8 = 11;

#[test]
fn new_map_is_empty() {
    let m: FlatMap = CrdtMap::new();
    assert_eq!(m.len().val, 0);
    assert!(m.clock.is_empty());
    assert!(m.entries.is_empty());
    assert_eq!(m.deferred.len(), 0);
    assert_eq!(m, CrdtMap::default());
}

#[test]
fn len_reads_count_under_map_clock() {
    let mut m: FlatMap = CrdtMap::new();
    m.apply(&up(1, 1, 5, put(vec![(1, 1)], 50)));
    m.apply(&up(1, 2, 6, put(vec![(1, 2)], 60)));
    m.apply(&up(2, 1, 5, put(vec![(1, 2), (2, 1)], 51)));
    let read = m.len();
    assert_eq!(read.val, 2);
    assert_eq!(read.add_clock, clock(vec![(1, 2), (2, 1)]));
    assert_eq!(read.rm_clock, clock(vec![(1, 2), (2, 1)]));
}

#[test]
fn get_reads_value_under_entry_clock() {
    let mut m: FlatMap = CrdtMap::new();
    m.apply(&up(1, 1, 5, put(vec![(1, 1)], 50)));
    m.apply(&up(2, 1, 6, put(vec![(2, 1)], 60)));

    let read = m.get(&5);
    assert_eq!(read.add_clock, clock(vec![(1, 1), (2, 1)]));
    assert_eq!(read.rm_clock, clock(vec![(1, 1)]));
    assert_eq!(read.val.map(|reg| reg.read()), Some(vec![50]));

    let absent = m.get(&7);
    assert_eq!(absent.add_clock, clock(vec![(1, 1), (2, 1)]));
    assert_eq!(absent.rm_clock, VClock::new());
    assert_eq!(absent.val, None);
}

#[test]
fn update_makes_op_and_leaves_map() {
    let mut m: FlatMap = CrdtMap::new();
    let ctx = m.get(&5).derive_add_ctx(3);
    assert_eq!(ctx, AddCtx { clock: VClock::new(), dot: Dot { actor: 3, counter: 1 } });
    let op = m.update(5, ctx, |reg, ctx| {
        assert_eq!(reg, &MVReg::default());
        let mut clock = ctx.clock.clone();
        clock.apply(&ctx.dot);
        RegOp::Put { clock, val: 50 }
    });
    assert_eq!(op, up(3, 1, 5, put(vec![(3, 1)], 50)));
    assert_eq!(m, CrdtMap::new());

    m.apply(&op);
    assert_eq!(m.get(&5).val.map(|reg| reg.read()), Some(vec![50]));

    let ctx = m.get(&5).derive_add_ctx(3);
    assert_eq!(ctx.dot, Dot { actor: 3, counter: 2 });
    let before = m.clone();
    let op = m.update(5, ctx, |reg, ctx| {
        assert_eq!(reg.read(), vec![50]);
        let mut clock = ctx.clock.clone();
        clock.apply(&ctx.dot);
        RegOp::Put { clock, val: 51 }
    });
    assert_eq!(op, up(3, 2, 5, put(vec![(3, 2)], 51)));
    assert_eq!(m, before);
}

#[test]
fn rm_makes_op_and_leaves_map() {
    let mut m: FlatMap = CrdtMap::new();
    m.apply(&up(1, 1, 5, put(vec![(1, 1)], 50)));
    let before = m.clone();
    let ctx = m.get(&5).derive_rm_ctx();
    assert_eq!(ctx, RmCtx { clock: clock(vec![(1, 1)]) });
    let op = m.rm(5, ctx);
    assert_eq!(op, rm(vec![(1, 1)], 5));
    assert_eq!(m, before);
    m.apply(&op);
    assert_eq!(m.get(&5).val, None);
    assert_eq!(m.len().val, 0);
    assert_eq!(m.clock, clock(vec![(1, 1)]));
}

#[test]
fn nop_changes_nothing() {
    let mut m: FlatMap = CrdtMap::new();
    m.apply(&up(1, 1, 5, put(vec![(1, 1)], 50)));
    let before = m.clone();
    m.apply(&Op::Nop);
    assert_eq!(m, before);
}

#[test]
fn up_creates_entry_and_witnesses_dot() {
    let mut m: FlatMap = CrdtMap::new();
    m.apply(&up(4, 2, 5, put(vec![(4, 2)], 50)));
    assert_eq!(m.clock, clock(vec![(4, 2)]));
    assert_eq!(m.entries.get(&5).unwrap().clock, clock(vec![(4, 2)]));
    assert_eq!(m.entries.get(&5).unwrap().val.read(), vec![50]);

    m.apply(&up(6, 1, 5, put(vec![(6, 1)], 60)));
    assert_eq!(m.clock, clock(vec![(4, 2), (6, 1)]));
    assert_eq!(m.entries.get(&5).unwrap().clock, clock(vec![(4, 2), (6, 1)]));
    assert_eq!(m.entries.get(&5).unwrap().val.read(), vec![50, 60]);
}

#[test]
fn idempotent_op() {
    let op = up(1, 1, 5, put(vec![(1, 1)], 50));
    let mut once: FlatMap = CrdtMap::new();
    once.apply(&op);
    let mut twice: FlatMap = CrdtMap::new();
    twice.apply(&op);
    let entry_clock = twice.entries.get(&5).unwrap().clock.clone();
    twice.apply(&op);
    assert_eq!(once, twice);
    assert_eq!(twice.entries.get(&5).unwrap().clock, entry_clock);
    assert_eq!(entry_clock, clock(vec![(1, 1)]));
}

#[test]
fn seen_dot_is_not_applied_again() {
    let mut m: FlatMap = CrdtMap::new();
    m.apply(&up(1, 2, 5, put(vec![(1, 2)], 50)));
    let before = m.clone();
    m.apply(&up(1, 1, 6, put(vec![(1, 1)], 60)));
    assert_eq!(m, before);
    m.apply(&up(1, 2, 7, put(vec![(1, 2)], 70)));
    assert_eq!(m, before);
}

#[test]
fn idempotent_rm() {
    let mut m: FlatMap = CrdtMap::new();
    m.apply(&up(1, 1, 5, put(vec![(1, 1)], 50)));
    m.apply(&up(2, 1, 5, put(vec![(2, 1)], 51)));
    let op = rm(vec![(1, 1), (3, 1)], 5);
    let mut once = m.clone();
    once.apply(&op);
    let mut twice = m.clone();
    twice.apply(&op);
    twice.apply(&op);
    assert_eq!(once, twice);
    assert_eq!(once.entries.get(&5).unwrap().clock, clock(vec![(2, 1)]));
    assert_eq!(once.entries.get(&5).unwrap().val.read(), vec![51]);
    assert_eq!(once.deferred.get(&clock(vec![(1, 1), (3, 1)])), Some(&keys(vec![5])));
    assert_eq!(once.deferred.len(), 1);
}

#[test]
fn reset_remove_convergence() {
    let mut x: FlatMap = CrdtMap::new();
    x.apply(&up(1, 1, ALICE, put(vec![(1, 1)], BOB)));
    let mut y = x.clone();

    x.apply(&rm(vec![(1, 1)], ALICE));
    y.apply(&up(2, 1, ALICE, put(vec![(1, 1), (2, 1)], CLYDE)));

    assert_eq!(x.get(&ALICE).val, None);
    assert_eq!(y.get(&ALICE).val.map(|reg| reg.read()), Some(vec![CLYDE]));

    let mut xy = x.clone();
    xy.merge(&y);
    let mut yx = y.clone();
    yx.merge(&x);

    assert_eq!(xy, yx);
    assert_eq!(xy.len().val, 1);
    assert_eq!(xy.entries.get(&ALICE).unwrap().clock, clock(vec![(2, 1)]));
    assert_eq!(xy.entries.get(&ALICE).unwrap().val.read(), vec![CLYDE]);
    assert_eq!(xy.clock, clock(vec![(1, 1), (2, 1)]));
    assert_eq!(yx.entries.get(&ALICE).unwrap().clock, clock(vec![(2, 1)]));
    assert_eq!(yx.entries.get(&ALICE).unwrap().val.read(), vec![CLYDE]);
}

#[test]
fn reset_remove_keeps_concurrent_values() {
    let mut x: FlatMap = CrdtMap::new();
    x.apply(&up(1, 1, ALICE, put(vec![(1, 1)], BOB)));
    let mut y = x.clone();
    x.apply(&rm(vec![(1, 1)], ALICE));
    y.apply(&up(2, 1, ALICE, put(vec![(2, 1)], CLYDE)));
    assert_eq!(y.get(&ALICE).val.map(|reg| reg.read()), Some(vec![BOB, CLYDE]));

    x.merge(&y);
    assert_eq!(x.get(&ALICE).val.map(|reg| reg.read()), Some(vec![CLYDE]));
    assert_eq!(x.get(&ALICE).rm_clock, clock(vec![(2, 1)]));
}

#[test]
fn ops_and_merge_agree() {
    let op1 = up(1, 1, 5, put(vec![(1, 1)], 50));
    let op2 = up(2, 1, 6, put(vec![(2, 1)], 60));
    let op3 = rm(vec![(1, 1)], 5);

    let mut ahead: FlatMap = CrdtMap::new();
    ahead.apply(&op1);
    ahead.apply(&op2);
    ahead.apply(&op3);

    let mut behind: FlatMap = CrdtMap::new();
    behind.apply(&op2);

    let mut merged = ahead.clone();
    merged.merge(&behind);
    assert_eq!(merged, ahead);

    let mut caught_up = behind.clone();
    caught_up.merge(&ahead);
    assert_eq!(caught_up, ahead);
    assert_eq!(caught_up.get(&5).val, None);
    assert_eq!(caught_up.get(&6).val.map(|reg| reg.read()), Some(vec![60]));
}

#[test]
fn merge_of_shared_entry_keeps_both_values() {
    let mut ahead: FlatMap = CrdtMap::new();
    ahead.apply(&up(1, 1, ALICE, put(vec![(1, 1)], BOB)));
    let behind = ahead.clone();
    ahead.apply(&up(2, 1, ALICE, put(vec![(1, 1), (2, 1)], CLYDE)));
    ahead.apply(&rm(vec![(1, 1)], ALICE));
    assert_eq!(ahead.get(&ALICE).val.map(|reg| reg.read()), Some(vec![CLYDE]));

    ahead.merge(&behind);
    assert_eq!(ahead.entries.get(&ALICE).unwrap().clock, clock(vec![(2, 1)]));
    assert_eq!(ahead.get(&ALICE).val.map(|reg| reg.read()), Some(vec![BOB, CLYDE]));
    assert_eq!(ahead.clock, clock(vec![(1, 1), (2, 1)]));
}

#[test]
fn merge_is_commutative_and_associative() {
    let mut a: FlatMap = CrdtMap::new();
    a.apply(&up(1, 1, 5, put(vec![(1, 1)], 50)));
    a.apply(&up(1, 2, 6, put(vec![(1, 2)], 60)));
    let mut b: FlatMap = CrdtMap::new();
    b.apply(&up(2, 1, 5, put(vec![(2, 1)], 51)));
    b.apply(&up(2, 2, 7, put(vec![(2, 2)], 70)));
    let mut c = a.clone();
    c.apply(&rm(vec![(1, 2)], 6));
    c.apply(&up(3, 1, 8, put(vec![(3, 1)], 80)));

    let mut ab = a.clone();
    ab.merge(&b);
    let mut ba = b.clone();
    ba.merge(&a);
    assert_eq!(ab, ba);

    let mut ab_c = ab.clone();
    ab_c.merge(&c);
    let mut bc = b.clone();
    bc.merge(&c);
    let mut a_bc = a.clone();
    a_bc.merge(&bc);
    assert_eq!(ab_c, a_bc);

    assert_eq!(ab_c.clock, clock(vec![(1, 2), (2, 2), (3, 1)]));
    assert_eq!(ab_c.len().val, 3);
    assert_eq!(ab_c.get(&5).val.map(|reg| reg.read()), Some(vec![50, 51]));
    assert_eq!(ab_c.get(&6).val, None);
    assert_eq!(ab_c.get(&7).val.map(|reg| reg.read()), Some(vec![70]));
    assert_eq!(ab_c.get(&8).val.map(|reg| reg.read()), Some(vec![80]));
}

#[test]
fn merge_with_empty_and_with_itself() {
    let mut a: FlatMap = CrdtMap::new();
    a.apply(&up(1, 1, 5, put(vec![(1, 1)], 50)));
    a.apply(&up(2, 1, 6, put(vec![(2, 1)], 60)));

    let mut with_empty = a.clone();
    with_empty.merge(&CrdtMap::new());
    assert_eq!(with_empty, a);

    let mut into_empty: FlatMap = CrdtMap::new();
    into_empty.merge(&a);
    assert_eq!(into_empty, a);

    let mut with_itself = a.clone();
    with_itself.merge(&a);
    assert_eq!(with_itself, a);
}

#[test]
fn merge_drops_entry_that_other_has_removed() {
    let mut x: FlatMap = CrdtMap::new();
    x.apply(&up(1, 1, 5, put(vec![(1, 1)], 50)));
    let mut y = x.clone();
    y.apply(&rm(vec![(1, 1)], 5));
    y.apply(&up(2, 1, 6, put(vec![(2, 1)], 60)));

    x.merge(&y);
    assert_eq!(x.get(&5).val, None);
    assert_eq!(x.get(&6).val.map(|reg| reg.read()), Some(vec![60]));
    assert_eq!(x.clock, clock(vec![(1, 1), (2, 1)]));
    assert_eq!(x, y);
}

#[test]
fn merge_takes_over_waiting_removes() {
    let mut x: FlatMap = CrdtMap::new();
    x.apply(&up(1, 1, 5, put(vec![(1, 1)], 50)));
    let mut y: FlatMap = CrdtMap::new();
    y.apply(&rm(vec![(3, 1)], 5));
    assert_eq!(y.deferred.get(&clock(vec![(3, 1)])), Some(&keys(vec![5])));

    x.merge(&y);
    assert_eq!(x.deferred.get(&clock(vec![(3, 1)])), Some(&keys(vec![5])));
    assert_eq!(x.deferred.len(), 1);
    assert_eq!(x.get(&5).val.map(|reg| reg.read()), Some(vec![50]));

    x.apply(&up(3, 1, 5, put(vec![(3, 1)], 51)));
    assert_eq!(x.deferred.len(), 0);
    assert_eq!(x.get(&5).val.map(|reg| reg.read()), Some(vec![50]));
    assert_eq!(x.get(&5).rm_clock, clock(vec![(1, 1)]));
}

#[test]
fn deferred_remove_waits_until_dots_arrive() {
    let mut m: FlatMap = CrdtMap::new();
    m.apply(&rm(vec![(1, 2)], 9));
    assert_eq!(m.deferred.len(), 1);
    assert_eq!(m.deferred.get(&clock(vec![(1, 2)])), Some(&keys(vec![9])));
    assert!(m.clock.is_empty());

    m.apply(&up(1, 1, 9, put(vec![(1, 1)], 90)));
    assert_eq!(m.clock, clock(vec![(1, 1)]));
    assert_eq!(m.deferred.get(&clock(vec![(1, 2)])), Some(&keys(vec![9])));
    assert_eq!(m.get(&9).val, None);

    m.apply(&up(1, 2, 9, put(vec![(1, 2)], 91)));
    assert_eq!(m.clock, clock(vec![(1, 2)]));
    assert_eq!(m.deferred.len(), 0);
    assert_eq!(m.deferred.get(&clock(vec![(1, 2)])), None);
    assert_eq!(m.get(&9).val, None);
}

#[test]
fn seen_remove_does_not_wait() {
    let mut m: FlatMap = CrdtMap::new();
    m.apply(&up(1, 2, 9, put(vec![(1, 2)], 90)));
    m.apply(&rm(vec![(1, 1)], 9));
    assert_eq!(m.deferred.len(), 0);
    assert_eq!(m.get(&9).val.map(|reg| reg.read()), Some(vec![90]));
    m.apply(&rm(vec![(1, 2)], 9));
    assert_eq!(m.deferred.len(), 0);
    assert_eq!(m.get(&9).val, None);
}

#[test]
fn clock_dominates_entry_clocks() {
    let mut m: FlatMap = CrdtMap::new();
    m.apply(&up(1, 1, 5, put(vec![(1, 1)], 50)));
    m.apply(&up(2, 3, 6, put(vec![(2, 3)], 60)));
    m.apply(&rm(vec![(1, 1), (4, 4)], 5));
    m.apply(&up(3, 1, 6, put(vec![(3, 1)], 61)));
    let mut other: FlatMap = CrdtMap::new();
    other.apply(&up(5, 2, 6, put(vec![(5, 2)], 62)));
    m.merge(&other);
    for entry in m.entries.values() {
        assert!(entry.clock <= m.clock);
        assert!(!entry.clock.is_empty());
    }
    assert_eq!(m.clock, clock(vec![(1, 1), (2, 3), (3, 1), (5, 2)]));
    assert_eq!(m.entries.get(&6).unwrap().clock, clock(vec![(2, 3), (3, 1), (5, 2)]));
}

#[test]
fn apply_rm_removes_seen_dots() {
    let mut m: FlatMap = CrdtMap::new();
    m.apply(&up(1, 1, 5, put(vec![(1, 1)], 50)));
    m.apply(&up(2, 1, 5, put(vec![(2, 1)], 51)));
    m.apply_rm(5, &clock(vec![(1, 1)]));
    assert_eq!(m.entries.get(&5).unwrap().clock, clock(vec![(2, 1)]));
    assert_eq!(m.entries.get(&5).unwrap().val.read(), vec![51]);
    assert_eq!(m.deferred.len(), 0);
    m.apply_rm(5, &clock(vec![(2, 1)]));
    assert_eq!(m.entries.get(&5), None);
    m.apply_rm(7, &clock(vec![(2, 1)]));
    assert_eq!(m.len().val, 0);
    assert_eq!(m.clock, clock(vec![(1, 1), (2, 1)]));
}

#[test]
fn apply_rm_all_removes_each_key() {
    let mut m: FlatMap = CrdtMap::new();
    m.apply(&up(1, 1, 5, put(vec![(1, 1)], 50)));
    m.apply(&up(1, 2, 6, put(vec![(1, 2)], 60)));
    m.apply(&up(1, 3, 7, put(vec![(1, 3)], 70)));
    m.apply_rm_all(&keys(vec![5, 7, 8]), &clock(vec![(1, 3), (2, 1)]));
    assert_eq!(m.len().val, 1);
    assert_eq!(m.get(&6).val.map(|reg| reg.read()), Some(vec![60]));
    assert_eq!(m.deferred.get(&clock(vec![(1, 3), (2, 1)])), Some(&keys(vec![5, 7, 8])));
}

#[test]
fn apply_deferred_drops_removes_that_are_seen() {
    let mut m: FlatMap = CrdtMap::new();
    m.apply(&rm(vec![(1, 1)], 5));
    m.apply(&rm(vec![(2, 1)], 6));
    assert_eq!(m.deferred.len(), 2);
    m.clock.witness(1, 1);
    m.apply_deferred();
    assert_eq!(m.deferred.len(), 1);
    assert_eq!(m.deferred.get(&clock(vec![(1, 1)])), None);
    assert_eq!(m.deferred.get(&clock(vec![(2, 1)])), Some(&keys(vec![6])));
}

#[test]
fn truncate_forgets_dominated_dots() {
    let mut m: FlatMap = CrdtMap::new();
    m.apply(&up(1, 1, 5, put(vec![(1, 1)], 50)));
    m.apply(&up(2, 1, 5, put(vec![(2, 1)], 51)));
    m.apply(&up(1, 2, 6, put(vec![(1, 2)], 60)));
    m.apply(&rm(vec![(1, 3)], 7));
    m.apply(&rm(vec![(3, 1)], 8));

    m.truncate(&clock(vec![(1, 3)]));
    assert_eq!(m.clock, clock(vec![(2, 1)]));
    assert_eq!(m.len().val, 1);
    assert_eq!(m.entries.get(&5).unwrap().clock, clock(vec![(2, 1)]));
    assert_eq!(m.entries.get(&5).unwrap().val.read(), vec![51]);
    assert_eq!(m.deferred.len(), 1);
    assert_eq!(m.deferred.get(&clock(vec![(3, 1)])), Some(&keys(vec![8])));
}

#[test]
fn truncate_by_empty_clock_changes_nothing() {
    let mut m: FlatMap = CrdtMap::new();
    m.apply(&up(1, 1, 5, put(vec![(1, 1)], 50)));
    m.apply(&rm(vec![(3, 1)], 8));
    let before = m.clone();
    m.truncate(&VClock::new());
    assert_eq!(m, before);
}

#[test]
fn nested_map_composition() {
    let inner_put = |actor: u8, counter: u64, key: u8, pairs: Vec<(u8, u64)>, val: u8| -> FlatOp {
        up(actor, counter, key, put(pairs, val))
    };
    let mut x: TestMap = CrdtMap::new();
    let op1: NestedOp = Op::Up {
        dot: Dot { actor: 1, counter: 1 },
        key: 1,
        op: inner_put(1, 1, 10, vec![(1, 1)], 7),
    };
    x.apply(&op1);
    let mut y = x.clone();

    let op2: NestedOp = Op::Rm { clock: clock(vec![(1, 1)]), key: 1 };
    x.apply(&op2);
    assert_eq!(x.get(&1).val, None);

    let op3: NestedOp = Op::Up {
        dot: Dot { actor: 2, counter: 1 },
        key: 1,
        op: inner_put(2, 1, 11, vec![(1, 1), (2, 1)], 8),
    };
    y.apply(&op3);
    assert_eq!(y.get(&1).val.unwrap().len().val, 2);

    let mut xy = x.clone();
    xy.merge(&y);
    let mut yx = y.clone();
    yx.merge(&x);
    assert_eq!(xy, yx);

    let inner = xy.get(&1).val.unwrap();
    assert_eq!(inner.len().val, 1);
    assert_eq!(inner.get(&10).val, None);
    assert_eq!(inner.get(&11).val.map(|reg| reg.read()), Some(vec![8]));
    assert_eq!(inner.clock, clock(vec![(2, 1)]));
    assert_eq!(xy.entries.get(&1).unwrap().clock, clock(vec![(2, 1)]));

    let mut by_ops: TestMap = CrdtMap::new();
    by_ops.apply(&op1);
    by_ops.apply(&op3);
    by_ops.apply(&op2);
    assert_eq!(by_ops, xy);
    by_ops.apply(&op3);
    by_ops.apply(&op1);
    assert_eq!(by_ops, xy);
}

#[test]
fn updates_by_different_actors_commute() {
    let op1 = up(1, 1, 5, put(vec![(1, 1)], 50));
    let op2 = up(2, 1, 5, put(vec![(2, 1)], 51));
    let op3 = up(3, 1, 6, put(vec![(3, 1)], 60));
    let mut a: FlatMap = CrdtMap::new();
    a.apply(&op1);
    a.apply(&op2);
    a.apply(&op3);
    let mut b: FlatMap = CrdtMap::new();
    b.apply(&op3);
    b.apply(&op2);
    b.apply(&op1);
    assert_eq!(a.clock, b.clock);
    assert_eq!(a.get(&5).val.map(|reg| reg.read()), b.get(&5).val.map(|reg| reg.read()));
    assert_eq!(a.get(&5).rm_clock, b.get(&5).rm_clock);
    assert_eq!(a.get(&6).val, b.get(&6).val);
    assert_eq!(a.get(&5).val.map(|reg| reg.read()), Some(vec![50, 51]));
}

#[test]
fn deferred_insert_get_len() {
    let mut d: Deferred<u8, u8> = Deferred::new();
    assert_eq!(d.len(), 0);
    assert_eq!(d.get(&clock(vec![(1, 1)])), None);
    assert_eq!(d.find(&clock(vec![(1, 1)])), None);

    d.insert(clock(vec![(1, 1)]), 5);
    d.insert(clock(vec![(2, 1)]), 6);
    d.insert(clock(vec![(1, 1)]), 7);
    d.insert(clock(vec![(1, 1)]), 5);
    assert_eq!(d.len(), 2);
    assert_eq!(d.find(&clock(vec![(1, 1)])), Some(0));
    assert_eq!(d.find(&clock(vec![(2, 1)])), Some(1));
    assert_eq!(d.get(&clock(vec![(1, 1)])), Some(&keys(vec![5, 7])));
    assert_eq!(d.get(&clock(vec![(2, 1)])), Some(&keys(vec![6])));
    assert_eq!(d.get(&clock(vec![(1, 2)])), None);
}

#[test]
fn deferred_insert_all_and_put() {
    let mut d: Deferred<u8, u8> = Deferred::new();
    d.insert_all(&clock(vec![(1, 1)]), &keys(vec![]));
    assert_eq!(d.len(), 0);
    d.insert_all(&clock(vec![(1, 1)]), &keys(vec![3, 4]));
    d.insert_all(&clock(vec![(1, 1)]), &keys(vec![4, 5]));
    assert_eq!(d.len(), 1);
    assert_eq!(d.get(&clock(vec![(1, 1)])), Some(&keys(vec![3, 4, 5])));

    d.put(clock(vec![(1, 1)]), keys(vec![9]));
    assert_eq!(d.len(), 1);
    assert_eq!(d.get(&clock(vec![(1, 1)])), Some(&keys(vec![9])));
    d.put(clock(vec![(2, 2)]), keys(vec![8]));
    assert_eq!(d.len(), 2);
    assert_eq!(d.get(&clock(vec![(2, 2)])), Some(&keys(vec![8])));
}

#[test]
fn deferred_equality_ignores_order() {
    let mut d: Deferred<u8, u8> = Deferred::new();
    d.insert(clock(vec![(1, 1)]), 5);
    d.insert(clock(vec![(2, 1)]), 6);
    let mut e: Deferred<u8, u8> = Deferred::new();
    e.insert(clock(vec![(2, 1)]), 6);
    e.insert(clock(vec![(1, 1)]), 5);
    assert_eq!(d, e);
    assert_eq!(d, d.clone());

    e.insert(clock(vec![(1, 1)]), 7);
    assert_ne!(d, e);
    assert_ne!(e, d);
    let mut f: Deferred<u8, u8> = Deferred::new();
    f.insert(clock(vec![(1, 1)]), 5);
    assert_ne!(d, f);
    f.insert(clock(vec![(3, 1)]), 6);
    assert_ne!(d, f);
}

#[test]
fn removes_in_either_order_give_equal_maps() {
    let op1 = rm(vec![(1, 1)], 5);
    let op2 = rm(vec![(2, 1)], 6);
    let mut a: FlatMap = CrdtMap::new();
    a.apply(&op1);
    a.apply(&op2);
    let mut b: FlatMap = CrdtMap::new();
    b.apply(&op2);
    b.apply(&op1);
    assert_eq!(a.deferred.len(), 2);
    assert_eq!(a, b);
}

#[test]
fn map_clone_equals_original() {
    let mut m: TestMap = CrdtMap::new();
    m.apply(&Op::Up {
        dot: Dot { actor: 1, counter: 1 },
        key: 1,
        op: up(1, 1, 10, put(vec![(1, 1)], 7)),
    });
    m.apply(&Op::Rm { clock: clock(vec![(4, 1)]), key: 2 });
    let copy = m.clone();
    assert_eq!(copy, m);
    assert_eq!(copy.deferred.len(), 1);
}

fn reg(vals: Vec<(Vec<(u8, u64)>, u8)>) -> MVReg {
    MVReg { vals: vals.into_iter().map(|(pairs, val)| (clock(pairs), val)).collect() }
}

#[test]
fn kept_alone_keeps_unseen_dots() {
    let entry = Entry {
        clock: clock(vec![(1, 2), (2, 1)]),
        val: reg(vec![(vec![(1, 2)], 5), (vec![(2, 1)], 6)]),
    };
    let kept = entry.kept_alone(&clock(vec![(1, 2), (3, 1)]));
    assert_eq!(
        kept,
        Some(Entry { clock: clock(vec![(2, 1)]), val: reg(vec![(vec![(2, 1)], 6)]) })
    );
    assert_eq!(entry.kept_alone(&clock(vec![(1, 2), (2, 1)])), None);
    assert_eq!(entry.kept_alone(&clock(vec![(1, 3), (2, 4), (9, 9)])), None);
    assert_eq!(entry.kept_alone(&VClock::new()), Some(entry.clone()));
}

#[test]
fn kept_both_keeps_shared_and_unseen_dots() {
    let here = Entry {
        clock: clock(vec![(1, 1), (2, 1)]),
        val: reg(vec![(vec![(1, 1)], 5), (vec![(2, 1)], 6)]),
    };
    let there = Entry {
        clock: clock(vec![(1, 1), (3, 1)]),
        val: reg(vec![(vec![(1, 1)], 5), (vec![(3, 1)], 7)]),
    };
    let kept = here.kept_both(
        &there,
        &clock(vec![(1, 1), (2, 1)]),
        &clock(vec![(1, 1), (2, 1), (3, 1)]),
    );
    assert_eq!(
        kept,
        Some(Entry {
            clock: clock(vec![(1, 1), (3, 1)]),
            val: reg(vec![(vec![(1, 1)], 5), (vec![(2, 1)], 6), (vec![(3, 1)], 7)]),
        })
    );

    let kept = here.kept_both(&there, &clock(vec![(1, 1), (2, 1)]), &clock(vec![(1, 1), (3, 1)]));
    assert_eq!(kept.unwrap().clock, clock(vec![(1, 1), (2, 1), (3, 1)]));
}

#[test]
fn kept_both_drops_entry_without_dots() {
    let here = Entry { clock: clock(vec![(2, 1)]), val: reg(vec![(vec![(2, 1)], 6)]) };
    let there = Entry { clock: clock(vec![(3, 1)]), val: reg(vec![(vec![(3, 1)], 7)]) };
    let seen = clock(vec![(2, 1), (3, 1)]);
    assert_eq!(here.kept_both(&there, &seen, &seen), None);
}

#[test]
fn entries_and_maps_compare_by_content() {
    let a = Entry { clock: clock(vec![(1, 1)]), val: reg(vec![(vec![(1, 1)], 5)]) };
    let b = Entry { clock: clock(vec![(1, 1)]), val: reg(vec![(vec![(1, 1)], 6)]) };
    let c = Entry { clock: clock(vec![(1, 2)]), val: reg(vec![(vec![(1, 1)], 5)]) };
    assert_eq!(a, a.clone());
    assert_ne!(a, b);
    assert_ne!(a, c);

    let mut m: FlatMap = CrdtMap::new();
    m.apply(&up(1, 1, 5, put(vec![(1, 1)], 50)));
    let mut n: FlatMap = CrdtMap::new();
    assert_ne!(m, n);
    n.apply(&up(1, 1, 5, put(vec![(1, 1)], 51)));
    assert_ne!(m, n);
    let mut o: FlatMap = CrdtMap::new();
    o.apply(&up(1, 1, 6, put(vec![(1, 1)], 50)));
    assert_ne!(m, o);
    let mut p = m.clone();
    assert_eq!(m, p);
    p.apply(&rm(vec![(7, 1)], 5));
    assert_ne!(m, p);
    assert_ne!(p, m);
}

#[test]
fn merge_applies_waiting_removes_of_other() {
    let mut l: FlatMap = CrdtMap::new();
    l.apply(&up(1, 1, 5, put(vec![(1, 1)], 50)));
    let mut r: FlatMap = CrdtMap::new();
    r.apply(&rm(vec![(1, 1)], 5));
    r.apply(&up(2, 1, 6, put(vec![(2, 1)], 60)));
    assert_eq!(r.deferred.get(&clock(vec![(1, 1)])), Some(&keys(vec![5])));

    let mut lr = l.clone();
    lr.merge(&r);
    let mut rl = r.clone();
    rl.merge(&l);

    assert_eq!(lr, rl);
    assert_eq!(lr.get(&5).val, None);
    assert_eq!(lr.get(&6).val.map(|reg| reg.read()), Some(vec![60]));
    assert_eq!(lr.clock, clock(vec![(1, 1), (2, 1)]));
    assert_eq!(lr.deferred.len(), 0);

    let mut by_ops: FlatMap = CrdtMap::new();
    by_ops.apply(&rm(vec![(1, 1)], 5));
    by_ops.apply(&up(2, 1, 6, put(vec![(2, 1)], 60)));
    by_ops.apply(&up(1, 1, 5, put(vec![(1, 1)], 50)));
    assert_eq!(by_ops, lr);
}

#[test]
fn merge_keeps_waiting_removes_that_are_unseen() {
    let mut l: FlatMap = CrdtMap::new();
    l.apply(&up(1, 1, 5, put(vec![(1, 1)], 50)));
    l.apply(&rm(vec![(8, 1)], 5));
    let mut r: FlatMap = CrdtMap::new();
    r.apply(&rm(vec![(1, 1), (9, 1)], 5));
    r.apply(&rm(vec![(2, 1)], 6));
    r.apply(&up(2, 1, 7, put(vec![(2, 1)], 70)));

    l.merge(&r);
    assert_eq!(l.clock, clock(vec![(1, 1), (2, 1)]));
    assert_eq!(l.deferred.len(), 2);
    assert_eq!(l.deferred.get(&clock(vec![(8, 1)])), Some(&keys(vec![5])));
    assert_eq!(l.deferred.get(&clock(vec![(1, 1), (9, 1)])), Some(&keys(vec![5])));
    assert_eq!(l.deferred.get(&clock(vec![(2, 1)])), None);
    assert_eq!(l.get(&5).val, None);
    assert_eq!(l.get(&7).val.map(|reg| reg.read()), Some(vec![70]));
}
