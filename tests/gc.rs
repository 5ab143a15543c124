use dumpster::gc::Gc;
use dumpster::heap::Heap;
use dumpster::unsync::{CollectCondition, Dumpster};
use dumpster::AllocationId;

fn setup() -> (Heap, Dumpster) {
    (Heap::new(), Dumpster::new())
}

/// A two-cycle `a <-> b` with both external handles still held.
fn two_cycle(h: &mut Heap, d: &mut Dumpster) -> (Gc, Gc) {
    let a = h.new_gc(d);
    let b = h.new_gc(d);
    let a2 = h.clone_gc(d, &a);
    h.store(&b, a2);
    let b2 = h.clone_gc(d, &b);
    h.store(&a, b2);
    (a, b)
}

#[test]
fn single_alloc() {
    let (mut h, mut d) = setup();
    let gc1 = h.new_gc(&mut d);
    let id = gc1.id();
    assert_eq!(h.n_freed(), 0);
    assert!(!h.is_freed(id));
    h.drop_gc(&mut d, gc1);
    assert_eq!(h.n_freed(), 1);
    assert!(h.is_freed(id));
}

#[test]
fn ref_count() {
    let (mut h, mut d) = setup();
    let gc1 = h.new_gc(&mut d);
    let gc2 = h.clone_gc(&mut d, &gc1);
    let id = gc1.id();
    assert_eq!(h.n_freed(), 0);
    h.drop_gc(&mut d, gc1);
    assert_eq!(h.n_freed(), 0);
    assert!(!h.is_freed(id));
    h.drop_gc(&mut d, gc2);
    assert_eq!(h.n_freed(), 1);
    assert!(h.is_freed(id));
}

#[test]
fn self_cycle() {
    let (mut h, mut d) = setup();
    d.set_collect_condition(CollectCondition::Never);
    let a = h.new_gc(&mut d);
    let id = a.id();
    let a2 = h.clone_gc(&mut d, &a);
    h.store(&a, a2);
    h.drop_gc(&mut d, a);
    assert_eq!(h.n_freed(), 0);
    d.collect_all(&mut h);
    assert_eq!(h.n_freed(), 1);
    assert!(h.is_freed(id));
}

#[test]
fn two_cycle_is_reclaimed() {
    let (mut h, mut d) = setup();
    d.set_collect_condition(CollectCondition::Never);
    let (a, b) = two_cycle(&mut h, &mut d);
    let (ia, ib) = (a.id(), b.id());
    h.drop_gc(&mut d, a);
    h.drop_gc(&mut d, b);
    assert_eq!(h.n_freed(), 0);
    d.collect_all(&mut h);
    assert!(h.is_freed(ia));
    assert!(h.is_freed(ib));
    assert_eq!(h.n_freed(), 2);
}

#[test]
fn root_retaining_cycle() {
    let (mut h, mut d) = setup();
    d.set_collect_condition(CollectCondition::Never);
    let (a, b) = two_cycle(&mut h, &mut d);
    h.drop_gc(&mut d, b);
    d.collect_all(&mut h);
    assert_eq!(h.n_freed(), 0);
    h.drop_gc(&mut d, a);
    d.collect_all(&mut h);
    assert_eq!(h.n_freed(), 2);
}

/// Build a cyclic list of `len` boxes and hand back the handle to its first box.
fn cyclic_list(h: &mut Heap, d: &mut Dumpster, len: usize) -> Gc {
    let root = h.new_gc(d);
    let mut last = h.clone_gc(d, &root);
    for _ in 1..len {
        let next = h.new_gc(d);
        let link = h.clone_gc(d, &next);
        h.store(&last, link);
        h.drop_gc(d, last);
        last = next;
    }
    let back = h.clone_gc(d, &root);
    h.store(&last, back);
    h.drop_gc(d, last);
    root
}

#[test]
fn chain_of_100() {
    let (mut h, mut d) = setup();
    d.set_collect_condition(CollectCondition::Never);
    let mut roots = Vec::new();
    for _ in 0..8 {
        roots.push(cyclic_list(&mut h, &mut d, 100));
    }
    assert_eq!(h.n_freed(), 0);
    for r in roots {
        h.drop_gc(&mut d, r);
    }
    d.collect_all(&mut h);
    assert_eq!(h.n_freed(), 800);
}

#[test]
fn chain_with_default_condition_is_reclaimed() {
    let (mut h, mut d) = setup();
    let r = cyclic_list(&mut h, &mut d, 100);
    h.drop_gc(&mut d, r);
    d.collect_all(&mut h);
    assert_eq!(h.n_freed(), 100);
}

#[test]
fn cascade_frees_acyclic_children() {
    let (mut h, mut d) = setup();
    let parent = h.new_gc(&mut d);
    let child = h.new_gc(&mut d);
    let cid = child.id();
    h.store(&parent, child);
    h.drop_gc(&mut d, parent);
    assert!(h.is_freed(cid));
    assert_eq!(h.n_freed(), 2);
}

#[test]
fn shared_child_survives_parent() {
    let (mut h, mut d) = setup();
    d.set_collect_condition(CollectCondition::Never);
    let parent = h.new_gc(&mut d);
    let child = h.new_gc(&mut d);
    let c2 = h.clone_gc(&mut d, &child);
    h.store(&parent, c2);
    h.drop_gc(&mut d, parent);
    assert_eq!(h.n_freed(), 1);
    assert!(!h.is_freed(child.id()));
    d.collect_all(&mut h);
    assert!(!h.is_freed(child.id()));
    h.drop_gc(&mut d, child);
    assert_eq!(h.n_freed(), 2);
}

#[test]
fn handle_identity() {
    let (mut h, mut d) = setup();
    let a = h.new_gc(&mut d);
    let a2 = h.clone_gc(&mut d, &a);
    let a3 = h.clone_gc(&mut d, &a2);
    let b = h.new_gc(&mut d);
    assert!(a == a);
    assert!(a == a2 && a2 == a3 && a == a3);
    assert!(a != b);
    assert_eq!(a.id(), AllocationId(0));
    assert_eq!(b.id(), AllocationId(1));
}

#[test]
fn teardown_releases_cycles() {
    let (mut h, mut d) = setup();
    d.set_collect_condition(CollectCondition::Never);
    let (a, b) = two_cycle(&mut h, &mut d);
    h.drop_gc(&mut d, a);
    h.drop_gc(&mut d, b);
    d.teardown(&mut h);
    assert_eq!(h.n_freed(), 2);
}

#[test]
fn counts_follow_clones_and_drops() {
    let (mut h, mut d) = setup();
    let a = h.new_gc(&mut d);
    assert_eq!(h.ref_count(a.id()), 1);
    let a2 = h.clone_gc(&mut d, &a);
    assert_eq!(h.ref_count(a.id()), 2);
    h.drop_gc(&mut d, a2);
    assert_eq!(h.ref_count(a.id()), 1);
    assert_eq!(d.collect_info().n_refs_living, 1);
}

#[test]
fn collected_cycle_releases_its_handles() {
    let (mut h, mut d) = setup();
    d.set_collect_condition(CollectCondition::Never);
    let a = h.new_gc(&mut d);
    let x = h.new_gc(&mut d);
    let xid = x.id();
    let x2 = h.clone_gc(&mut d, &x);
    h.store(&a, x2);
    let a2 = h.clone_gc(&mut d, &a);
    h.store(&a, a2);
    assert_eq!(h.ref_count(xid), 2);
    h.drop_gc(&mut d, a);
    d.collect_all(&mut h);
    assert_eq!(h.n_freed(), 1);
    assert_eq!(h.ref_count(xid), 1);
    h.drop_gc(&mut d, x);
    assert!(h.is_freed(xid));
    assert_eq!(h.n_freed(), 2);
}

#[test]
fn clones_dropped_under_default_condition() {
    let (mut h, mut d) = setup();
    let gc1 = h.new_gc(&mut d);
    let gc2 = h.clone_gc(&mut d, &gc1);
    let id = gc1.id();
    h.drop_gc(&mut d, gc1);
    assert!(!h.is_freed(id));
    h.drop_gc(&mut d, gc2);
    assert!(h.is_freed(id));
}
