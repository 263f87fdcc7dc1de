use free_access::allocator::{AllocationBuffer, GlobalAllocPool, LocalAllocator, BUFFER_SIZE};
use free_access::allocator::pool::PopError;

#[test]
fn buffer_new() {
    let buffer = AllocationBuffer::new();
    drop(buffer);
}

#[test]
fn buffer_insert() {
    let mut buffer = AllocationBuffer::new();

    buffer.insert(123).unwrap();
}

#[test]
fn buffer_insert_pop() {
    let mut buffer = AllocationBuffer::new();

    buffer.insert(123).unwrap();

    let result = buffer.pop();
    assert_eq!(Some(123), result);
}

#[test]
fn buffer_pop_empty() {
    let mut buffer = AllocationBuffer::new();

    assert_eq!(None, buffer.pop());
}

#[test]
fn buffer_multiple_inserts() {
    let mut buffer = AllocationBuffer::new();

    buffer.insert(123).unwrap();
    assert_eq!(Some(123), buffer.pop());

    buffer.insert(234).unwrap();
    assert_eq!(Some(234), buffer.pop());
}

#[test]
fn buffer_is_empty() {
    let mut buffer = AllocationBuffer::new();

    assert_eq!(true, buffer.is_empty());

    buffer.insert(123).unwrap();
    assert_eq!(false, buffer.is_empty());
}

#[test]
fn buffer_full_hands_pointer_back() {
    let mut buffer = AllocationBuffer::new();
    for p in 1..=BUFFER_SIZE {
        assert_eq!(Ok(()), buffer.insert(p));
    }
    assert_eq!(128, BUFFER_SIZE);
    assert_eq!(Err(999), buffer.insert(999));
    assert_eq!(Some(BUFFER_SIZE), buffer.pop());
    assert_eq!(Ok(()), buffer.insert(999));
}

#[test]
fn buffer_pops_in_reverse() {
    let mut buffer = AllocationBuffer::new();
    buffer.insert(1).unwrap();
    buffer.insert(2).unwrap();
    buffer.insert(3).unwrap();
    assert_eq!(Some(3), buffer.pop());
    assert_eq!(Some(2), buffer.pop());
    assert_eq!(Some(1), buffer.pop());
    assert_eq!(None, buffer.pop());
}

#[test]
fn local_allocator_take_and_install() {
    let mut local = LocalAllocator::new();
    assert!(local.is_empty());
    local.insert(7).unwrap();
    local.insert(8).unwrap();
    let mut taken = local.take();
    assert!(local.is_empty());
    assert_eq!(Some(8), taken.pop());
    local.new_buffer(taken);
    assert_eq!(Some(7), local.pop());
    assert_eq!(None, local.pop());
}

#[test]
fn global_pool_phases() {
    let mut pool = GlobalAllocPool::new();
    let mut buffer = AllocationBuffer::new();
    buffer.insert(5).unwrap();
    assert_eq!(Ok(()), pool.insert(0, buffer));
    assert_eq!(Err(()), pool.clear(0));
    assert_eq!(Ok(()), pool.clear(1));
    assert!(matches!(pool.pop(0), Err(PopError::InvalidPhase)));
    assert!(matches!(pool.pop(1), Err(PopError::Empty)));

    let mut buffer = AllocationBuffer::new();
    buffer.insert(6).unwrap();
    assert_eq!(Err(()), pool.insert(0, buffer));
    let mut buffer = AllocationBuffer::new();
    buffer.insert(9).unwrap();
    assert_eq!(Ok(()), pool.insert(1, buffer));
    let mut got = match pool.pop(1) {
        Ok(b) => b,
        Err(_) => panic!("a buffer was inserted in this phase"),
    };
    assert_eq!(Some(9), got.pop());
}
