use dumpster::erased::ErasedPtr;

#[test]
fn erased_align() {
    assert_eq!(std::mem::align_of::<ErasedPtr>(), 16);
}

#[test]
fn erased_alloc() {
    let erased_ptr = ErasedPtr::new(7, 0);
    assert_eq!(erased_ptr.specify(), (7, 0));
}

#[test]
fn erased_round_trip_keeps_both_words() {
    let p = ErasedPtr::new(0xdead_beef_0000_0010, u64::MAX);
    assert_eq!(p.specify(), (0xdead_beef_0000_0010, u64::MAX));
    let q = ErasedPtr::new(u64::MAX, 3);
    assert_eq!(q.specify(), (u64::MAX, 3));
    assert!(p != q);
}
