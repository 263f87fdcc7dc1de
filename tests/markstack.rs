use free_access::markstack::{MarkStack, StackNode};

#[test]
fn markstack_new() {
    let stack = MarkStack::new();
    drop(stack);
}

#[test]
fn is_empty() {
    let mut stack = MarkStack::new();

    assert_eq!(true, stack.is_empty());

    stack.push(0x12);
    assert_eq!(false, stack.is_empty());

    stack.pop().unwrap();
    assert_eq!(true, stack.is_empty());
}

#[test]
fn pop_empty() {
    let mut stack = MarkStack::new();

    assert_eq!(None, stack.pop());
}

#[test]
fn push_pop() {
    let mut stack = MarkStack::new();

    stack.push(0x12);
    assert_eq!(Some(0x12), stack.pop());
}

#[test]
fn push_multiple() {
    let mut stack = MarkStack::new();

    for tmp in 0..10 {
        stack.push(tmp);
    }
    for tmp in 10..0 {
        assert_eq!(Some(tmp), stack.pop());
    }
}

#[test]
fn peek() {
    let mut stack = MarkStack::new();

    assert_eq!(None, stack.peek());

    stack.push(0x12);
    assert_eq!(Some(0x12), stack.peek());
    assert_eq!(Some(0x12), stack.peek());

    assert_eq!(Some(0x12), stack.pop());
    assert_eq!(None, stack.peek());
}

#[test]
fn iterator() {
    let mut stack = MarkStack::new();

    stack.push(0x12);
    stack.push(0x23);

    let mut iter = stack.iter();

    assert_eq!(Some(0x12), iter.next());
    assert_eq!(Some(0x23), iter.next());
    assert_eq!(None, iter.next());
}

#[test]
fn pushes_come_back_reversed() {
    let mut stack = MarkStack::new();
    for v in 1..=10 {
        stack.push(v);
    }
    for v in (1..=10).rev() {
        assert_eq!(Some(v), stack.pop());
    }
    assert_eq!(None, stack.pop());
    for v in 20..=25 {
        stack.push(v);
    }
    for v in (20..=25).rev() {
        assert_eq!(Some(v), stack.pop());
    }
    assert!(stack.is_empty());
}

#[test]
fn push_into_emptied_cell_keeps_it_on_top() {
    let mut stack = MarkStack::new();
    stack.push(1);
    stack.push(2);
    assert_eq!(Some(2), stack.pop());
    stack.push(3);
    assert_eq!(Some(3), stack.pop());
    assert_eq!(Some(1), stack.pop());
    assert_eq!(None, stack.pop());
}

#[test]
fn stack_node_cells() {
    let _ = StackNode::new(5);
    let _ = StackNode::empty();
}
