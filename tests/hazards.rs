use free_access::hazard_ptrs::{HazardPtr, HazardPtrFrame};

#[test]
fn hazard_ptrs_new() {
    let frame = HazardPtrFrame::new();
    drop(frame);
}

#[test]
fn store() {
    let mut frame = HazardPtrFrame::new();

    frame.store(123);
}

#[test]
fn store_multiple() {
    let mut frame = HazardPtrFrame::new();

    frame.store(123);
    frame.store(234);
}

#[test]
fn store_roots() {
    let mut frame = HazardPtrFrame::new();

    frame.store(123);
    frame.store(234);

    let expected = vec![123, 234];
    let result = frame.roots();
    assert_eq!(expected, result);
}

#[test]
fn clear() {
    let mut frame = HazardPtrFrame::new();

    frame.store(123);
    frame.store(234);

    let expected = vec![123, 234];
    let result = frame.roots();
    assert_eq!(expected, result);

    frame.clear();
    let expected: Vec<usize> = vec![];
    let result = frame.roots();
    assert_eq!(expected, result);
}

#[test]
fn store_after_clear_reuses_slots() {
    let mut frame = HazardPtrFrame::new();
    frame.store(1);
    frame.store(2);
    frame.store(3);
    frame.clear();
    frame.store(4);
    frame.store(5);
    assert_eq!(vec![4, 5], frame.roots());
    frame.store(6);
    frame.store(7);
    let mut roots = frame.roots();
    roots.sort();
    assert_eq!(vec![4, 5, 6, 7], roots);
}

#[test]
fn ptr_new() {
    let ptr = HazardPtr::new(0);
    drop(ptr);
}

#[test]
fn new_store() {
    let mut ptr = HazardPtr::new(0);
    assert_eq!(Ok(()), ptr.store(0x12));

    assert_eq!(0x12, ptr.load());

    assert_eq!(Err(0x23), ptr.store(0x23));
    assert_eq!(0x12, ptr.load());
}

#[test]
fn store_reset_store() {
    let mut ptr = HazardPtr::new(0);
    assert_eq!(Ok(()), ptr.store(0x12));

    assert_eq!(0x12, ptr.load());

    ptr.reset();
    assert_eq!(0, ptr.load());

    assert_eq!(Ok(()), ptr.store(0x23));
    assert_eq!(0x23, ptr.load());
}

#[test]
fn ptr() {
    let mut ptr = HazardPtr::new(0);
    assert_eq!(Ok(()), ptr.store(0x12));

    assert_eq!(0x12, ptr.load());
    assert_eq!(Some(0x12), ptr.ptr());

    ptr.reset();
    assert_eq!(0, ptr.load());
    assert_eq!(None, ptr.ptr());
}
