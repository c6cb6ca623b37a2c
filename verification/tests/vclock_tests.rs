use crdts::{AddCtx, Causal, CmRDT, CvRDT, Dot, ReadCtx, RmCtx, VClock};
use std::cmp::Ordering;

fn clock(pairs: Vec<(u8, u64)>) -> VClock<u8> {
    VClock::from(pairs)
}

#[test]
fn new_clock_is_empty() {
    let c: VClock<u8> = VClock::new();
    assert!(c.is_empty());
    assert_eq!(c.get(&3), 0);
    assert_eq!(c.iter(), vec![]);
}

#[test]
fn witness_raises_and_never_lowers() {
    let mut c: VClock<u8> = VClock::new();
    c.witness(1, 2);
    assert_eq!(c.get(&1), 2);
    c.witness(1, 1);
    assert_eq!(c.get(&1), 2);
    c.witness(1, 2);
    assert_eq!(c.get(&1), 2);
    c.witness(1, 7);
    assert_eq!(c.get(&1), 7);
    assert_eq!(c.get(&2), 0);
    assert!(!c.is_empty());
}

#[test]
fn witness_of_zero_stores_nothing() {
    let mut c: VClock<u8> = VClock::new();
    c.witness(4, 0);
    assert!(c.is_empty());
    assert_eq!(c, VClock::new());
}

#[test]
fn inc_returns_next_dot_and_leaves_clock() {
    let mut c: VClock<u8> = VClock::new();
    let d = c.inc(5);
    assert_eq!(d, Dot { actor: 5, counter: 1 });
    assert!(c.is_empty());
    c.apply(&d);
    assert_eq!(c.get(&5), 1);
    let d2 = c.inc(5);
    assert_eq!(d2, Dot { actor: 5, counter: 2 });
    assert_eq!(c.get(&5), 1);
    c.apply(&d2);
    assert_eq!(c.get(&5), 2);
}

#[test]
fn apply_witnesses_the_dot() {
    let mut c = clock(vec![(1, 4)]);
    c.apply(&Dot { actor: 1, counter: 3 });
    assert_eq!(c, clock(vec![(1, 4)]));
    c.apply(&Dot { actor: 2, counter: 3 });
    assert_eq!(c, clock(vec![(1, 4), (2, 3)]));
}

#[test]
fn from_pairs_keeps_highest_counter() {
    let c = clock(vec![(1, 2), (2, 5), (1, 4), (1, 3), (3, 0)]);
    assert_eq!(c.get(&1), 4);
    assert_eq!(c.get(&2), 5);
    assert_eq!(c.get(&3), 0);
    assert_eq!(c.iter(), vec![(1, 4), (2, 5)]);
}

#[test]
fn from_dot_holds_the_dot() {
    let c: VClock<u8> = Dot { actor: 9, counter: 3 }.into();
    assert_eq!(c.iter(), vec![(9, 3)]);
    let zero: VClock<u8> = Dot { actor: 9, counter: 0 }.into();
    assert!(zero.is_empty());
}

#[test]
fn merge_is_componentwise_max() {
    let mut a = clock(vec![(1, 1), (2, 2), (4, 4)]);
    let b = clock(vec![(3, 3), (4, 3), (2, 5)]);
    a.merge(&b);
    assert_eq!(a, clock(vec![(1, 1), (2, 5), (3, 3), (4, 4)]));
}

#[test]
fn merge_is_commutative_associative_idempotent() {
    let a = clock(vec![(1, 1), (2, 2), (4, 4)]);
    let b = clock(vec![(3, 3), (4, 3)]);
    let c = clock(vec![(1, 9), (5, 1)]);

    let mut ab = a.clone();
    ab.merge(&b);
    let mut ba = b.clone();
    ba.merge(&a);
    assert_eq!(ab, ba);

    let mut ab_c = ab.clone();
    ab_c.merge(&c);
    let mut bc = b.clone();
    bc.merge(&c);
    let mut a_bc = a.clone();
    a_bc.merge(&bc);
    assert_eq!(ab_c, a_bc);
    assert_eq!(ab_c, clock(vec![(1, 9), (2, 2), (3, 3), (4, 4), (5, 1)]));

    let mut aa = a.clone();
    aa.merge(&a);
    assert_eq!(aa, a);
}

#[test]
fn intersection_keeps_equal_entries() {
    let a = clock(vec![(1, 1), (2, 2), (3, 3)]);
    let b = clock(vec![(1, 1), (2, 3), (4, 3)]);
    assert_eq!(a.intersection(&b), clock(vec![(1, 1)]));
    assert_eq!(b.intersection(&a), clock(vec![(1, 1)]));
    assert_eq!(a.intersection(&VClock::new()), VClock::new());
    assert_eq!(a.intersection(&a), a);
}

#[test]
fn subtract_removes_only_dominated_actors() {
    let c = clock(vec![(b'A', 5), (b'B', 3)]);

    let mut first = c.clone();
    first.subtract(&clock(vec![(b'A', 5)]));
    assert_eq!(first, clock(vec![(b'B', 3)]));

    let mut second = c.clone();
    second.subtract(&clock(vec![(b'A', 4)]));
    assert_eq!(second, clock(vec![(b'A', 5), (b'B', 3)]));

    let mut third = c.clone();
    third.subtract(&clock(vec![(b'A', 6), (b'B', 3), (b'C', 1)]));
    assert!(third.is_empty());
}

#[test]
fn subtract_of_unrelated_clock_changes_nothing() {
    let mut c = clock(vec![(1, 5), (2, 3)]);
    c.subtract(&clock(vec![(7, 9), (8, 1)]));
    assert_eq!(c, clock(vec![(1, 5), (2, 3)]));
    c.subtract(&VClock::new());
    assert_eq!(c, clock(vec![(1, 5), (2, 3)]));
}

#[test]
fn truncate_is_the_meet() {
    let u = clock(vec![(1, 5), (2, 3), (3, 7)]);
    let v = clock(vec![(2, 4), (3, 2), (4, 9)]);

    let mut uv = u.clone();
    uv.truncate(&v);
    let mut vu = v.clone();
    vu.truncate(&u);
    assert_eq!(uv, vu);
    assert_eq!(uv, clock(vec![(2, 3), (3, 2)]));
}

#[test]
fn truncate_by_superset_changes_nothing() {
    let mut c: VClock<u8> = VClock::new();
    c.witness(23, 6);
    c.witness(89, 14);
    let c2 = c.clone();

    c.truncate(&c2);
    assert_eq!(c, c2);

    c.witness(43, 1);
    assert_eq!(c.get(&43), 1);
    c.truncate(&c2);
    assert_eq!(c.get(&43), 0);
    assert_eq!(c, c2);
}

#[test]
fn truncate_by_empty_clock_empties() {
    let mut c = clock(vec![(1, 5), (2, 3)]);
    c.truncate(&VClock::new());
    assert!(c.is_empty());
}

#[test]
fn partial_cmp_orders_clocks() {
    let a = clock(vec![(1, 2)]);
    let b = clock(vec![(1, 1)]);
    let c = clock(vec![(2, 1)]);
    assert_eq!(a.partial_cmp(&a), Some(Ordering::Equal));
    assert_eq!(a.partial_cmp(&b), Some(Ordering::Greater));
    assert_eq!(b.partial_cmp(&a), Some(Ordering::Less));
    assert_eq!(a.partial_cmp(&c), None);
    assert!(a > b);
    assert!(b < a);
    assert!(b <= a);
    assert!(a >= a);
    assert!(!(a <= c));
    assert!(!(a >= c));
}

#[test]
fn comparing_with_empty_clock() {
    let empty: VClock<u8> = VClock::new();
    let a = clock(vec![(1, 2)]);
    assert_eq!(a.partial_cmp(&empty), Some(Ordering::Greater));
    assert_eq!(empty.partial_cmp(&a), Some(Ordering::Less));
    assert_eq!(empty.partial_cmp(&VClock::new()), Some(Ordering::Equal));
}

#[test]
fn concurrent_clocks_have_diverged() {
    let mut a: VClock<u8> = VClock::new();
    let mut b: VClock<u8> = VClock::new();
    let a_op = a.inc(1);
    a.apply(&a_op);
    let b_op = b.inc(2);
    b.apply(&b_op);
    assert!(a.concurrent(&b));
    assert!(b.concurrent(&a));
    assert!(!a.concurrent(&a));
    let mut both = a.clone();
    both.merge(&b);
    assert!(!both.concurrent(&a));
    assert!(!a.concurrent(&both));
}

#[test]
fn dominated_by_and_same_as() {
    let a = clock(vec![(1, 2), (2, 1)]);
    let b = clock(vec![(1, 3), (2, 1), (3, 1)]);
    assert!(a.dominated_by(&b));
    assert!(!b.dominated_by(&a));
    assert!(a.dominated_by(&a));
    assert!(VClock::<u8>::new().dominated_by(&a));
    assert!(a.same_as(&clock(vec![(2, 1), (1, 2)])));
    assert!(!a.same_as(&b));
}

#[test]
fn iter_lists_entries_in_actor_order() {
    let c = clock(vec![(9, 1), (3, 4), (5, 2)]);
    assert_eq!(c.iter(), vec![(3, 4), (5, 2), (9, 1)]);
}

#[test]
fn clock_clone_equals_original() {
    let c = clock(vec![(9, 1), (3, 4)]);
    let d = c.clone();
    assert_eq!(c, d);
}

#[test]
fn derive_add_ctx_gives_next_dot() {
    let read = ReadCtx { add_clock: clock(vec![(1, 4), (2, 1)]), rm_clock: clock(vec![(2, 1)]), val: 17u8 };
    let ctx = read.derive_add_ctx(1);
    assert_eq!(ctx, AddCtx { clock: clock(vec![(1, 4), (2, 1)]), dot: Dot { actor: 1, counter: 5 } });

    let read = ReadCtx { add_clock: clock(vec![(1, 4)]), rm_clock: clock(vec![]), val: () };
    let ctx = read.derive_add_ctx(7);
    assert_eq!(ctx.dot, Dot { actor: 7, counter: 1 });
    assert_eq!(ctx.clock, clock(vec![(1, 4)]));
}

#[test]
fn derive_rm_ctx_gives_rm_clock() {
    let read = ReadCtx { add_clock: clock(vec![(1, 4), (2, 1)]), rm_clock: clock(vec![(2, 1)]), val: 17u8 };
    let ctx = read.derive_rm_ctx();
    assert_eq!(ctx, RmCtx { clock: clock(vec![(2, 1)]) });
}

#[test]
fn clocks_compare_by_content() {
    assert_eq!(clock(vec![(1, 2), (2, 1)]), clock(vec![(2, 1), (1, 2)]));
    assert_ne!(clock(vec![(1, 2), (2, 1)]), clock(vec![(1, 2)]));
    assert_ne!(clock(vec![(1, 2)]), clock(vec![(1, 2), (2, 1)]));
    assert_ne!(clock(vec![(1, 2), (2, 1)]), clock(vec![(1, 2), (2, 2)]));
    assert_ne!(clock(vec![(1, 2), (2, 1)]), clock(vec![(1, 2), (3, 1)]));
    assert_eq!(VClock::<u8>::new(), clock(vec![]));
}
