use dumpster::heap::Heap;
use dumpster::unsync::{
    default_collect_condition, unsync_never_collect, CollectCondition, CollectInfo, Dumpster,
};

#[test]
fn default_condition_values() {
    assert!(default_collect_condition(&CollectInfo { n_ref_drops: 0, n_refs_living: 0 }));
    assert!(!default_collect_condition(&CollectInfo { n_ref_drops: 0, n_refs_living: 1 }));
    assert!(!default_collect_condition(&CollectInfo { n_ref_drops: 2, n_refs_living: 5 }));
    assert!(default_collect_condition(&CollectInfo { n_ref_drops: 3, n_refs_living: 6 }));
    assert!(default_collect_condition(&CollectInfo { n_ref_drops: 3, n_refs_living: 5 }));
    assert!(default_collect_condition(&CollectInfo { n_ref_drops: usize::MAX, n_refs_living: usize::MAX }));
    assert!(!default_collect_condition(&CollectInfo { n_ref_drops: usize::MAX / 2, n_refs_living: usize::MAX }));
}

#[test]
fn never_condition() {
    assert!(!unsync_never_collect(&CollectInfo { n_ref_drops: 9, n_refs_living: 0 }));
}

#[test]
fn counters_follow_creates_and_drops() {
    let mut h = Heap::new();
    let mut d = Dumpster::new();
    d.set_collect_condition(CollectCondition::Never);
    d.notify_created_gc();
    d.notify_created_gc();
    d.notify_created_gc();
    assert_eq!(d.collect_info(), CollectInfo { n_ref_drops: 0, n_refs_living: 3 });
    assert!(!d.notify_dropped_gc(&mut h));
    assert_eq!(d.collect_info(), CollectInfo { n_ref_drops: 1, n_refs_living: 2 });
}

#[test]
fn drop_triggers_collection() {
    let mut h = Heap::new();
    let mut d = Dumpster::new();
    d.notify_created_gc();
    d.notify_created_gc();
    d.notify_created_gc();
    d.notify_created_gc();
    // one drop: 2 * 1 < 3
    assert!(!d.notify_dropped_gc(&mut h));
    // two drops: 2 * 2 >= 2
    assert!(d.notify_dropped_gc(&mut h));
    assert_eq!(d.collect_info(), CollectInfo { n_ref_drops: 0, n_refs_living: 2 });
}

#[test]
fn collect_all_resets_drops() {
    let mut h = Heap::new();
    let mut d = Dumpster::new();
    d.set_collect_condition(CollectCondition::Never);
    d.notify_created_gc();
    d.notify_created_gc();
    assert!(!d.notify_dropped_gc(&mut h));
    d.collect_all(&mut h);
    assert_eq!(d.collect_info(), CollectInfo { n_ref_drops: 0, n_refs_living: 1 });
}
