use dumpster::erased::ErasedPtr;
use dumpster::sync::{should_collect, sync_never_collect, Dumpster, TrashCan, TABLE_SIZE};
use dumpster::heap::Heap;
use dumpster::unsync::{CollectCondition, CollectInfo, Dumpster as Local};
use dumpster::AllocationId;

fn can(n: u64) -> TrashCan {
    TrashCan { ptr: ErasedPtr::new(n, 0) }
}

#[test]
fn new_table_is_empty() {
    let t = Dumpster::new();
    assert_eq!(t.len(), 0);
    assert!(!t.is_full());
    assert!(t.drain().is_empty());
}

#[test]
fn insert_then_insert_again() {
    let mut t = Dumpster::new();
    assert_eq!(t.try_insert(AllocationId(5), can(5)), Ok(true));
    assert_eq!(t.len(), 1);
    assert_eq!(t.try_insert(AllocationId(5), can(6)), Ok(false));
    assert_eq!(t.len(), 1);
    let entries = t.drain();
    assert_eq!(entries.len(), 1);
    assert_eq!(entries[0].0, AllocationId(5));
    assert!(entries[0].1 == can(5));
}

#[test]
fn remove_present_and_absent() {
    let mut t = Dumpster::new();
    assert_eq!(t.try_insert(AllocationId(1), can(1)), Ok(true));
    assert_eq!(t.try_insert(AllocationId(2), can(2)), Ok(true));
    assert!(t.remove(AllocationId(1)));
    assert_eq!(t.len(), 1);
    assert!(!t.remove(AllocationId(1)));
    assert!(!t.remove(AllocationId(99)));
    assert_eq!(t.len(), 1);
}

#[test]
fn colliding_keys_probe_on() {
    // 0 and 4096 fold to the same slot
    let mut t = Dumpster::new();
    assert_eq!(t.try_insert(AllocationId(0), can(0)), Ok(true));
    assert_eq!(t.try_insert(AllocationId(4096 * 4096), can(1)), Ok(true));
    assert_eq!(t.len(), 2);
    assert!(t.remove(AllocationId(4096 * 4096)));
    assert!(t.remove(AllocationId(0)));
    assert_eq!(t.len(), 0);
}

#[test]
fn full_table_refuses() {
    let mut t = Dumpster::new();
    for k in 0..TABLE_SIZE {
        assert_eq!(t.try_insert(AllocationId(k), can(k as u64)), Ok(true));
        if k + 1 == TABLE_SIZE / 2 {
            assert!(!t.is_full());
        }
        if k + 1 == TABLE_SIZE / 2 + 1 {
            assert!(t.is_full());
        }
    }
    assert_eq!(t.len(), TABLE_SIZE);
    assert_eq!(t.try_insert(AllocationId(TABLE_SIZE), can(0)), Err(()));
    assert_eq!(t.try_insert(AllocationId(3), can(0)), Ok(false));
    assert_eq!(t.drain().len(), TABLE_SIZE);
}

#[test]
fn half_full_is_not_yet_full() {
    let mut t = Dumpster::new();
    for k in 0..TABLE_SIZE / 2 {
        assert_eq!(t.try_insert(AllocationId(k + 1), can(0)), Ok(true));
    }
    assert_eq!(t.len(), 2048);
    assert!(!t.is_full());
    assert_eq!(t.try_insert(AllocationId(0), can(0)), Ok(true));
    assert!(t.is_full());
}

#[test]
fn drain_in_slot_order() {
    let mut t = Dumpster::new();
    assert_eq!(t.try_insert(AllocationId(9), can(9)), Ok(true));
    assert_eq!(t.try_insert(AllocationId(2), can(2)), Ok(true));
    let e = t.drain();
    assert_eq!(e.len(), 2);
    assert_eq!(e[0].0, AllocationId(2));
    assert_eq!(e[1].0, AllocationId(9));
}

#[test]
fn shared_trigger() {
    let info = CollectInfo { n_ref_drops: 1, n_refs_living: 5 };
    assert!(!sync_never_collect(&info));
    let mut t = Dumpster::new();
    assert!(!should_collect(&info, &t));
    assert!(should_collect(&CollectInfo { n_ref_drops: 3, n_refs_living: 5 }, &t));
    for k in 0..TABLE_SIZE / 2 {
        assert_eq!(t.try_insert(AllocationId(k), can(0)), Ok(true));
    }
    assert!(!should_collect(&info, &t));
    assert_eq!(t.try_insert(AllocationId(TABLE_SIZE), can(0)), Ok(true));
    assert!(should_collect(&info, &t));
}

#[test]
fn default_table_is_empty() {
    let t = Dumpster::default();
    assert_eq!(t.len(), 0);
}

#[test]
fn shared_collection_reclaims_registered_cycle() {
    let mut h = Heap::new();
    let mut local = Local::new();
    local.set_collect_condition(CollectCondition::Never);
    let a = h.new_gc(&mut local);
    let a2 = h.clone_gc(&mut local, &a);
    h.store(&a, a2);
    let kept = h.new_gc(&mut local);
    let id = a.id();
    h.drop_gc(&mut local, a);
    let mut t = Dumpster::new();
    assert_eq!(t.try_insert(id, can(0)), Ok(true));
    assert_eq!(t.try_insert(kept.id(), can(1)), Ok(true));
    t.collect_all(&mut h);
    assert_eq!(t.len(), 0);
    assert!(h.is_freed(id));
    assert!(!h.is_freed(kept.id()));
    assert_eq!(h.ref_count(kept.id()), 1);
    assert_eq!(h.ref_count(id), 0);
}

#[test]
fn register_inserts_when_room() {
    let mut h = Heap::new();
    let mut local = Local::new();
    let a = h.new_gc(&mut local);
    let mut t = Dumpster::new();
    assert!(t.register(a.id(), can(0), &mut h));
    assert!(!t.register(a.id(), can(0), &mut h));
    assert_eq!(t.len(), 1);
}

#[test]
fn register_on_full_table_collects_and_retries() {
    let mut h = Heap::new();
    let mut local = Local::new();
    local.set_collect_condition(CollectCondition::Never);
    let mut held = Vec::new();
    let mut t = Dumpster::new();
    for _ in 0..TABLE_SIZE {
        let g = h.new_gc(&mut local);
        assert_eq!(t.try_insert(g.id(), can(0)), Ok(true));
        held.push(g);
    }
    // a self-cycle registered in the full table's place of one held box
    let c = h.new_gc(&mut local);
    let cid = c.id();
    let c2 = h.clone_gc(&mut local, &c);
    h.store(&c, c2);
    assert!(t.remove(held[0].id()));
    assert_eq!(t.try_insert(cid, can(1)), Ok(true));
    h.drop_gc(&mut local, c);
    let extra = h.new_gc(&mut local);
    assert_eq!(t.len(), TABLE_SIZE);
    assert!(t.register(extra.id(), can(2), &mut h));
    assert!(h.is_freed(cid));
    assert_eq!(h.n_freed(), 1);
    assert_eq!(t.len(), 1);
}

#[test]
fn remove_before_colliding_key_keeps_it_reachable() {
    // 1 and 4096 fold to the same slot; 4096 goes one slot further along
    let mut t = Dumpster::new();
    assert_eq!(t.try_insert(AllocationId(1), can(1)), Ok(true));
    assert_eq!(t.try_insert(AllocationId(4096), can(2)), Ok(true));
    assert!(t.remove(AllocationId(1)));
    assert_eq!(t.try_insert(AllocationId(4096), can(3)), Ok(false));
    assert_eq!(t.len(), 1);
    assert!(t.remove(AllocationId(4096)));
    assert_eq!(t.len(), 0);
    assert!(!t.remove(AllocationId(4096)));
    assert!(t.drain().is_empty());
}

#[test]
fn deleted_slot_is_reused() {
    let mut t = Dumpster::new();
    assert_eq!(t.try_insert(AllocationId(1), can(1)), Ok(true));
    assert_eq!(t.try_insert(AllocationId(4096), can(2)), Ok(true));
    assert!(t.remove(AllocationId(1)));
    assert_eq!(t.try_insert(AllocationId(8195), can(3)), Ok(true));
    let e = t.drain();
    assert_eq!(e.len(), 2);
    assert_eq!(e[0].0, AllocationId(8195));
    assert_eq!(e[1].0, AllocationId(4096));
}
