use free_access::allocator::page::{NodeMarks, PageList, PageNode};
use free_access::dirty::{DirtyValue, Udirty};

#[test]
fn dirty_value_from_u64() {
    let raw: u64 = 0x1201;
    assert_eq!(DirtyValue { phase: 0x12, dirty: true }, DirtyValue::from_u64(raw));

    let raw: u64 = 0x2100;
    assert_eq!(DirtyValue { phase: 0x21, dirty: false }, DirtyValue::from_u64(raw));
}

#[test]
fn dirty_value_to_u64() {
    let dirty = DirtyValue { dirty: true, phase: 0x12 };
    assert_eq!(0x1201, dirty.to_u64());

    let dirty = DirtyValue { dirty: false, phase: 0x21 };
    assert_eq!(0x2100, dirty.to_u64());
}

#[test]
fn dirty_round_trip_largest_phase() {
    let v = DirtyValue { dirty: true, phase: (1u64 << 56) - 1 };
    assert_eq!(v, DirtyValue::from_u64(v.to_u64()));
    let v = DirtyValue { dirty: false, phase: 0 };
    assert_eq!(0, v.to_u64());
    assert_eq!(v, DirtyValue::from_u64(v.to_u64()));
}

#[test]
fn udirty_compare_and_set() {
    let mut d = Udirty::new();
    assert_eq!(DirtyValue { dirty: false, phase: 0 }, d.get());
    assert!(!d.update(5, DirtyValue { dirty: true, phase: 3 }));
    assert_eq!(DirtyValue { dirty: false, phase: 0 }, d.get());
    assert!(d.update(0, DirtyValue { dirty: true, phase: 3 }));
    assert_eq!(DirtyValue { dirty: true, phase: 3 }, d.get());
    assert!(d.update(0x301, DirtyValue { dirty: false, phase: 3 }));
    assert_eq!(DirtyValue { dirty: false, phase: 3 }, d.get());
}

#[test]
fn marks_unmarked() {
    let marked = NodeMarks { marked: false, phase: 13 };

    let serialized: u64 = marked.clone().into();

    assert_eq!(marked, NodeMarks::from(serialized));
}

#[test]
fn marks_marked() {
    let marked = NodeMarks { marked: true, phase: 13 };

    let serialized: u64 = marked.clone().into();

    assert_eq!(marked, NodeMarks::from(serialized));
}

#[test]
fn marks_packed_form() {
    let marked = NodeMarks { marked: true, phase: 13 };
    let serialized: u64 = marked.into();
    assert_eq!(0x0D01, serialized);
    assert_eq!(marked, NodeMarks::from(0x0D01u64));
}

#[test]
fn ptr_stuff() {
    let pages: PageList<usize> = PageList::new(16);

    let data_ptr = pages.get_data_ptr(0, 3);

    let loaded = pages.from_data_ptr(data_ptr);

    assert_eq!(Some((0, 3)), loaded);

    assert_eq!(NodeMarks { marked: false, phase: 0 }, pages.load_marks(data_ptr));
}

#[test]
fn data_pointers_of_second_page() {
    let mut pages: PageList<usize> = PageList::new(4);
    assert!(pages.add_page());
    assert_eq!(2, pages.get_page_count());
    let p = pages.get_data_ptr(1, 2);
    assert_eq!(7, p);
    assert_eq!(Some((1, 2)), pages.from_data_ptr(p));
    assert_eq!(None, pages.from_data_ptr(0));
    assert_eq!(None, pages.from_data_ptr(9));
}

#[test]
fn page_node_marks() {
    let mut node = PageNode::<u8>::new();
    assert_eq!(NodeMarks { marked: false, phase: 0 }, node.load_marks());
    node.clear_marks(4);
    assert_eq!(NodeMarks { marked: false, phase: 4 }, node.load_marks());
    node.clear_marks(2);
    assert_eq!(NodeMarks { marked: false, phase: 4 }, node.load_marks());
    let unmarked = NodeMarks { marked: false, phase: 4 };
    let marked = NodeMarks { marked: true, phase: 4 };
    assert_eq!(Ok(()), node.update_marks(unmarked, marked));
    assert_eq!(Err(()), node.update_marks(unmarked, marked));
    assert_eq!(marked, node.load_marks());
    node.write(9);
    assert_eq!(Some(&9), node.data());
}

#[test]
fn sweep_cursor() {
    let pages: PageList<u8> = PageList::new(8);
    assert_eq!((3, 5), PageList::<u8>::index_data((3 << 32) | 5));
    let mut cursor: u64 = 2 << 32;
    assert_eq!(None, pages.get_page(&mut cursor, 1));
    assert_eq!(2 << 32, cursor);
    assert_eq!(Some(0), pages.get_page(&mut cursor, 2));
    assert_eq!((2 << 32) | 1, cursor);
    assert_eq!(None, pages.get_page(&mut cursor, 2));
}

#[test]
fn update_marks_refreshes_older_phases() {
    let mut pages: PageList<u8> = PageList::new(2);
    let p = pages.get_data_ptr(0, 1);
    pages.update_marks(3);
    assert_eq!(NodeMarks { marked: false, phase: 3 }, pages.load_marks(p));
    let unmarked = NodeMarks { marked: false, phase: 3 };
    let marked = NodeMarks { marked: true, phase: 3 };
    assert_eq!(Ok(()), pages.update_marks_at(p, unmarked, marked));
    pages.update_marks(3);
    assert_eq!(marked, pages.load_marks(p));
    pages.update_marks(4);
    assert_eq!(NodeMarks { marked: false, phase: 4 }, pages.load_marks(p));
}
