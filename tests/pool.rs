use free_access::allocator::pool::{Node, Pool, PopError, State};

#[test]
fn pool_new() {
    let pool = Pool::<usize>::new();
    drop(pool);
}

#[test]
fn pool_insert() {
    let mut pool = Pool::<usize>::new();

    assert_eq!(Ok(()), pool.insert(13, 0));
}

#[test]
fn pool_insert_wrong_phase() {
    let mut pool = Pool::<usize>::new();

    assert_eq!(Ok(()), pool.insert(13, 0));

    let _ = pool.update_phase(1);
    assert_eq!(Err(()), pool.insert(13, 0));
}

#[test]
fn pool_insert_multiple() {
    let mut pool = Pool::<usize>::new();

    assert_eq!(Ok(()), pool.insert(13, 0));
    assert_eq!(Ok(()), pool.insert(14, 0));
    assert_eq!(Ok(()), pool.insert(15, 0));
}

#[test]
fn pool_insert_pop() {
    let mut pool = Pool::<usize>::new();

    assert_eq!(Ok(()), pool.insert(13, 0));

    assert_eq!(Ok(13), pool.pop(0));
}

#[test]
fn insert_new_pop() {
    let mut pool = Pool::<usize>::new();

    assert_eq!(Ok(()), pool.insert(13, 0));

    pool.update_phase(1).unwrap();
    assert_eq!(Err(PopError::InvalidPhase), pool.pop(0));
    assert_eq!(Err(PopError::Empty), pool.pop(1));
}

#[test]
fn update_phase_needs_a_later_phase() {
    let mut pool = Pool::<usize>::new();
    assert_eq!(Err(()), pool.update_phase(0));
    assert_eq!(Ok(()), pool.update_phase(3));
    assert_eq!(Err(()), pool.update_phase(3));
    assert_eq!(Err(()), pool.update_phase(2));
    assert_eq!(Err(()), pool.insert(1, 2));
    assert_eq!(Err(PopError::InvalidPhase), pool.pop(2));
    assert_eq!(Ok(()), pool.insert(1, 3));
}

#[test]
fn pool_returns_each_value_once() {
    let mut pool = Pool::<usize>::new();
    for v in [13, 14, 15, 14] {
        assert_eq!(Ok(()), pool.insert(v, 0));
    }
    let mut popped = Vec::new();
    loop {
        match pool.pop(0) {
            Ok(v) => popped.push(v),
            Err(e) => {
                assert_eq!(PopError::Empty, e);
                break;
            }
        }
    }
    popped.sort();
    assert_eq!(vec![13, 14, 14, 15], popped);
}

#[test]
fn pool_reuses_stale_cells() {
    let mut pool = Pool::<usize>::new();
    assert_eq!(Ok(()), pool.insert(1, 0));
    assert_eq!(Ok(()), pool.insert(2, 0));
    pool.update_phase(1).unwrap();
    assert_eq!(Ok(()), pool.insert(3, 1));
    assert_eq!(Ok(3), pool.pop(1));
    assert_eq!(Err(PopError::Empty), pool.pop(1));
}

#[test]
fn state_codes() {
    assert_eq!(0, State::Empty.to_u8());
    assert_eq!(1, State::Accessed.to_u8());
    assert_eq!(2, State::Filled.to_u8());
    assert_eq!(Some(State::Filled), State::from_u8(2));
    assert_eq!(Some(State::Empty), State::from_u8(0));
    assert_eq!(None, State::from_u8(3));
}

#[test]
fn node_starts_empty() {
    let node = Node::<u8>::new();
    assert_eq!(State::Empty, node.load_state());
}
