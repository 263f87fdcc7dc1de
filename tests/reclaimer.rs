use std::cell::Cell;
use std::rc::Rc;

use free_access::{Allocator, Arbiter, DataStructureGlobals, DataStructureNode};

#[derive(Clone, Debug, PartialEq)]
struct ListNode {
    data: u64,
    next: usize,
}

impl DataStructureNode for ListNode {
    fn pointer_count() -> usize {
        1
    }

    fn pointers(&self) -> Vec<usize> {
        vec![self.next]
    }

    fn untag_ptr(ptr: usize) -> usize {
        ptr
    }
}

struct ListGlobals {
    head: Rc<Cell<usize>>,
}

impl DataStructureGlobals<ListNode> for ListGlobals {
    fn get_globals(&self) -> Vec<usize> {
        vec![self.head.get()]
    }
}

struct LinkedList {
    allocator: Allocator<ListNode, ListGlobals>,
    head: Rc<Cell<usize>>,
}

impl LinkedList {
    fn new() -> Self {
        let head = Rc::new(Cell::new(0));
        let allocator = Allocator::new(ListGlobals { head: head.clone() });
        LinkedList { allocator, head }
    }

    fn append(&mut self, data: u64) {
        let node = ListNode { data, next: 0 };
        let allocated = match self.allocator.allocate(0, node) {
            Ok(b) => b,
            Err(_) => panic!("arena exhausted"),
        };
        if self.head.get() == 0 {
            self.head.set(allocated.ptr());
            return;
        }
        let mut current = self.head.get();
        loop {
            let node = self.allocator.read(current).unwrap().clone();
            if node.next == 0 {
                let updated = ListNode { data: node.data, next: allocated.ptr() };
                assert!(self.allocator.write(current, updated).is_ok());
                return;
            }
            current = node.next;
        }
    }

    fn values(&self) -> Vec<u64> {
        let mut result = Vec::new();
        let mut current = self.head.get();
        while current != 0 {
            let node = self.allocator.read(current).unwrap();
            result.push(node.data);
            current = node.next;
        }
        result
    }
}

struct NoGlobals;

impl DataStructureGlobals<ListNode> for NoGlobals {
    fn get_globals(&self) -> Vec<usize> {
        Vec::new()
    }
}

#[test]
fn allocate_reads_back() {
    let mut allocator = Allocator::new(NoGlobals);
    let b = allocator.allocate(0, ListNode { data: 42, next: 0 }).ok().unwrap();
    assert_eq!(42, allocator.read(b.ptr()).unwrap().data);
    assert_eq!(1, allocator.page_count());
}

#[test]
fn linked_list_append_and_gc() {
    let mut list = LinkedList::new();
    list.append(13);
    list.append(14);
    assert_eq!(vec![13, 14], list.values());
    list.allocator.force_gc(0);
    assert_eq!(vec![13, 14], list.values());
    assert_eq!(1, list.allocator.get_phase());
}

#[test]
fn garbage_is_reused_without_new_pages() {
    let mut list = LinkedList::new();
    for v in 0..500 {
        list.append(v);
    }
    assert_eq!(500, list.values().len());
    let pages = list.allocator.page_count();
    list.head.set(0);
    list.allocator.force_gc(0);
    for v in 0..500 {
        list.append(v + 1000);
    }
    assert_eq!(pages, list.allocator.page_count());
    let values = list.values();
    assert_eq!(500, values.len());
    assert_eq!(1000, values[0]);
    assert_eq!(1499, values[499]);
}

#[test]
fn reachable_nodes_survive_gc() {
    let mut list = LinkedList::new();
    for v in 0..300 {
        list.append(v);
    }
    let before = list.values();
    list.allocator.force_gc(0);
    list.allocator.force_gc(0);
    assert_eq!(before, list.values());
    // fresh allocations never land on a reachable node
    let mut fresh = Vec::new();
    for v in 0..200 {
        let b = list.allocator.allocate(0, ListNode { data: 9000 + v, next: 0 }).ok().unwrap();
        fresh.push(b.ptr());
    }
    assert_eq!(before, list.values());
    fresh.sort();
    fresh.dedup();
    assert_eq!(200, fresh.len());
}

#[test]
fn hazard_pointers_protect_nodes() {
    let mut allocator = Allocator::new(NoGlobals);
    let kept = allocator.allocate(0, ListNode { data: 7, next: 0 }).ok().unwrap().ptr();
    assert_eq!(Ok(()), allocator.begin_write_only(0, &[kept]));
    allocator.force_gc(0);
    for v in 0..600 {
        let b = allocator.allocate(0, ListNode { data: v, next: 0 }).ok().unwrap();
        assert_ne!(kept, b.ptr());
    }
    assert_eq!(7, allocator.read(kept).unwrap().data);
}

#[test]
fn dirty_threads_restart() {
    let mut allocator = Allocator::new(NoGlobals);
    let t = allocator.register_thread();
    assert_eq!(1, t);
    assert_eq!(2, allocator.get_thread_count());
    assert_eq!(Ok(()), allocator.validate_read(t));
    allocator.force_gc(0);
    assert_eq!(Ok(()), allocator.validate_read(t));
    allocator.force_gc(0);
    assert_eq!(Err(()), allocator.validate_read(t));
    assert_eq!(Err(()), allocator.begin_write_only(t, &[]));
    allocator.restart(t);
    assert_eq!(Ok(()), allocator.validate_read(t));
    assert_eq!(Ok(()), allocator.begin_write_only(t, &[]));
}

#[test]
fn second_thread_allocates() {
    let mut allocator = Allocator::new(NoGlobals);
    let t = allocator.register_thread();
    let b = allocator.allocate(t, ListNode { data: 5, next: 0 }).ok().unwrap();
    assert_eq!(5, allocator.read(b.ptr()).unwrap().data);
    assert!(allocator.read(0).is_none());
}

#[test]
fn write_to_unknown_pointer_is_refused() {
    let mut allocator = Allocator::new(NoGlobals);
    let refused = allocator.write(1 << 40, ListNode { data: 1, next: 0 });
    assert_eq!(Err(ListNode { data: 1, next: 0 }), refused);
}

#[test]
fn arbiter_values() {
    let mut a = Arbiter::new();
    assert_eq!(0, a.get());
    assert_eq!(0, a.next());
    a.store(1);
    assert_eq!(1, a.get());
    assert_eq!(1, a.next());
    a.store(3);
    assert_eq!(1, a.next());
}

#[test]
fn unreachable_nodes_are_reused() {
    let mut allocator = Allocator::new(NoGlobals);
    for v in 0..256 {
        allocator.allocate(0, ListNode { data: v, next: 0 }).ok().unwrap();
    }
    assert_eq!(1, allocator.page_count());
    assert_eq!(0, allocator.get_phase());
    for v in 0..256 {
        allocator.allocate(0, ListNode { data: v, next: 0 }).ok().unwrap();
    }
    assert_eq!(1, allocator.page_count());
    assert_eq!(1, allocator.get_phase());
}

#[test]
fn reachable_nodes_force_a_new_page() {
    let mut list = LinkedList::new();
    for v in 0..257 {
        list.append(v);
    }
    assert_eq!(2, list.allocator.page_count());
    assert_eq!(257, list.values().len());
}
