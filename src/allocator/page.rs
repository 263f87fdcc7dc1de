//! The node arena: pages of fixed-layout slots, each a marker and a payload.
use vstd::prelude::*;

use crate::dirty::{pack_word, word_flag, word_phase};

verus! {

/// Most slots a page may hold. Together with `MAX_PAGES` it keeps every
/// data pointer (`page * page_size + index + 1`) below 2^28, so that it
/// fits a `usize` on any target and its arithmetic cannot overflow.
pub const MAX_PAGE_SIZE: usize = 0x1_0000;

/// Most pages a page list may hold; see `MAX_PAGE_SIZE`. It also keeps a
/// page index within the lower 32 bits of the sweep cursor.
pub const MAX_PAGES: usize = 0x1000;

/// The mark of a slot: whether it was reached, and in which phase.
#[derive(Debug, Clone, Copy, PartialEq, Eq, Structural)]
pub struct NodeMarks {
    pub marked: bool,
    pub phase: u64,
}

/// The packed marker word of `m`; the layout is that of the dirty word.
pub open spec fn marks_word(m: NodeMarks) -> u64 {
    pack_word(m.phase, m.marked)
}

/// The marks that a marker word holds.
pub open spec fn word_marks(raw: u64) -> NodeMarks {
    NodeMarks { marked: word_flag(raw), phase: word_phase(raw) }
}

impl From<u64> for NodeMarks {
    fn from(raw: u64) -> (r: Self) {
        let marked = raw & 0x01 == 0x01;
        let phase = raw >> 8;
        Self { marked, phase }
    }
}

impl vstd::std_specs::convert::FromSpecImpl<u64> for NodeMarks {
    open spec fn obeys_from_spec() -> bool {
        true
    }

    open spec fn from_spec(v: u64) -> NodeMarks {
        word_marks(v)
    }
}

impl From<NodeMarks> for u64 {
    fn from(m: NodeMarks) -> (r: u64) {
        let marked_mask: u64 = if m.marked { 0x01 } else { 0x00 };
        let phase = m.phase;
        let shifted = phase << 8;
        assert((shifted & 0xffffffffffffff00u64) == shifted) by (bit_vector)
            requires
                shifted == phase << 8u64,
        ;
        (shifted & 0xffffffffffffff00) | marked_mask
    }
}

impl vstd::std_specs::convert::FromSpecImpl<NodeMarks> for u64 {
    open spec fn obeys_from_spec() -> bool {
        true
    }

    open spec fn from_spec(m: NodeMarks) -> u64 {
        marks_word(m)
    }
}

/// A word whose reserved bits are zero: it is the packed form of what it holds.
pub open spec fn canonical(raw: u64) -> bool {
    raw == pack_word(word_phase(raw), word_flag(raw))
}

/// Every packed word is canonical.
pub proof fn lemma_pack_canonical(phase: u64, flag: bool)
    ensures
        canonical(pack_word(phase, flag)),
{
    let f: u64 = if flag { 1 } else { 0 };
    assert((((((phase << 8u64) | f) >> 8u64) << 8u64) | (if (((phase << 8u64) | f) & 1u64) == 1u64 {
        1u64
    } else {
        0u64
    })) == ((phase << 8u64) | f)) by (bit_vector)
        requires
            f == 0u64 || f == 1u64,
    ;
}

/// Decoding the packed marks gives back the marks, for every phase that
/// fits in 56 bits.
pub proof fn lemma_marks_round_trip(m: NodeMarks)
    requires
        m.phase < crate::dirty::PHASE_LIMIT,
    ensures
        word_marks(marks_word(m)) == m,
{
    crate::dirty::lemma_dirty_round_trip(m.phase, m.marked);
}

/// The marker a slot holds after a clear to phase `n_phase`: refreshed to
/// `{ marked: false, phase: n_phase }` when older, else kept.
pub open spec fn cleared_word(raw: u64, n_phase: u64) -> u64 {
    if word_phase(raw) >= n_phase {
        raw
    } else {
        pack_word(n_phase, false)
    }
}

/// Clearing to a phase that fits in 56 bits never moves a marker's phase
/// back.
pub proof fn lemma_cleared_phase_grows(raw: u64, n_phase: u64)
    requires
        n_phase < crate::dirty::PHASE_LIMIT,
    ensures
        word_phase(cleared_word(raw, n_phase)) >= word_phase(raw),
{
    crate::dirty::lemma_dirty_round_trip(n_phase, false);
}

/// One slot of a page: a marker word, then the payload once written.
pub struct PageNode<T> {
    marker: u64,
    data: Option<T>,
}

impl<T> PageNode<T> {
    /// The slot's marker word.
    pub closed spec fn marker(&self) -> u64 {
        self.marker
    }

    /// The slot's payload, if one was written.
    pub closed spec fn payload(&self) -> Option<T> {
        self.data
    }

    pub fn new() -> (r: Self)
        ensures
            r.marker() == 0,
            r.payload() is None,
    {
        let marks = NodeMarks { phase: 0, marked: false };
        let mark_value: u64 = u64::from(marks);
        assert(pack_word(0, false) == 0) by (bit_vector);
        Self { marker: mark_value, data: None }
    }

    pub fn load_marks(&self) -> (r: NodeMarks)
        ensures
            r == word_marks(self.marker()),
    {
        NodeMarks::from(self.marker)
    }

    /// Sets the marks to `n_marks` if they are exactly `expected`.
    pub fn update_marks(&mut self, expected: NodeMarks, n_marks: NodeMarks) -> (r: Result<(), ()>)
        ensures
            r is Ok <==> old(self).marker() == marks_word(expected),
            r is Ok ==> final(self).marker() == marks_word(n_marks),
            r is Err ==> final(self).marker() == old(self).marker(),
            final(self).payload() == old(self).payload(),
    {
        let current: u64 = u64::from(expected);
        let new: u64 = u64::from(n_marks);
        if self.marker == current {
            self.marker = new;
            Ok(())
        } else {
            Err(())
        }
    }

    /// Refreshes the marks to `{ marked: false, phase: n_phase }` unless they
    /// already belong to `n_phase` or a later phase.
    pub fn clear_marks(&mut self, n_phase: u64)
        requires
            n_phase < crate::dirty::PHASE_LIMIT,
        ensures
            final(self).marker() == cleared_word(old(self).marker(), n_phase),
            word_phase(final(self).marker()) >= word_phase(old(self).marker()),
            final(self).payload() == old(self).payload(),
    {
        proof {
            lemma_cleared_phase_grows(old(self).marker(), n_phase);
        }
        let previous_marks = NodeMarks::from(self.marker);
        if previous_marks.phase >= n_phase {
            return ;
        }
        let new_marks = NodeMarks { phase: n_phase, marked: false };
        self.marker = u64::from(new_marks);
    }

    /// Stores `data` as the payload.
    pub fn write(&mut self, data: T)
        ensures
            final(self).marker() == old(self).marker(),
            final(self).payload() == Some(data),
    {
        self.data = Some(data);
    }

    /// The payload, if one was written.
    pub fn data(&self) -> (r: Option<&T>)
        ensures
            r is Some <==> self.payload() is Some,
            r is Some ==> *r.unwrap() == self.payload().unwrap(),
    {
        self.data.as_ref()
    }
}

/// A fixed run of slots.
pub struct Page<T> {
    pub nodes: Vec<PageNode<T>>,
}

impl<T> Page<T> {
    pub fn new(size: usize) -> (r: Self)
        ensures
            r.nodes.len() == size,
            forall|i: int|
                0 <= i < size ==> r.nodes[i].marker() == 0 && (#[trigger] r.nodes[i]).payload() is None,
    {
        let mut nodes: Vec<PageNode<T>> = Vec::with_capacity(size);
        let mut k: usize = 0;
        while k < size
            invariant
                k <= size,
                nodes.len() == k,
                forall|i: int|
                    0 <= i < k ==> nodes[i].marker() == 0 && (#[trigger] nodes[i]).payload() is None,
            decreases size - k,
        {
            nodes.push(PageNode::new());
            k = k + 1;
        }
        Self { nodes }
    }

    /// Clears the marks of every slot to phase `n_phase` (see `PageNode::clear_marks`).
    pub fn update_marks(&mut self, n_phase: u64)
        requires
            n_phase < crate::dirty::PHASE_LIMIT,
        ensures
            final(self).nodes.len() == old(self).nodes.len(),
            forall|i: int|
                0 <= i < old(self).nodes.len() ==> (#[trigger] final(self).nodes[i]).marker()
                    == cleared_word(old(self).nodes[i].marker(), n_phase) && final(self).nodes[i].payload()
                    == old(self).nodes[i].payload(),
    {
        let mut k: usize = 0;
        while k < self.nodes.len()
            invariant
                n_phase < crate::dirty::PHASE_LIMIT,
                k <= self.nodes.len(),
                self.nodes.len() == old(self).nodes.len(),
                forall|i: int|
                    0 <= i < k ==> (#[trigger] self.nodes[i]).marker() == cleared_word(
                        old(self).nodes[i].marker(),
                        n_phase,
                    ) && self.nodes[i].payload() == old(self).nodes[i].payload(),
                forall|i: int| k <= i < self.nodes.len() ==> #[trigger] self.nodes[i] == old(self).nodes[i],
            decreases self.nodes.len() - k,
        {
            self.nodes[k].clear_marks(n_phase);
            k = k + 1;
        }
    }
}

/// The data pointer of slot `index` of page `page`, with pages of `ps` slots.
/// Pointer 0 is null; no slot has it.
pub open spec fn data_ptr(ps: int, page: int, index: int) -> int {
    page * ps + index + 1
}

/// The page that data pointer `ptr` lies in.
pub open spec fn ptr_page(ps: int, ptr: int) -> int {
    (ptr - 1) / ps
}

/// The slot within its page that data pointer `ptr` names.
pub open spec fn ptr_index(ps: int, ptr: int) -> int {
    (ptr - 1) % ps
}

/// The page of a sweep cursor `(phase << 32) | index`.
pub open spec fn cursor_phase(c: u64) -> u64 {
    c >> 32u64
}

/// The page index of a sweep cursor `(phase << 32) | index`.
pub open spec fn cursor_index(c: u64) -> u64 {
    c & 0xffff_ffffu64
}

/// Going from a slot to its data pointer and back gives the same slot.
pub proof fn lemma_payload_offset_identity(ps: int, page: int, index: int)
    requires
        ps > 0,
        page >= 0,
        0 <= index < ps,
    ensures
        data_ptr(ps, page, index) >= 1,
        ptr_page(ps, data_ptr(ps, page, index)) == page,
        ptr_index(ps, data_ptr(ps, page, index)) == index,
{
    assert(page * ps >= 0) by (nonlinear_arith)
        requires
            page >= 0,
            ps > 0,
    ;
    vstd::arithmetic::div_mod::lemma_fundamental_div_mod_converse(page * ps + index, ps, page, index);
}

/// The slots of a page list hold data pointers `1 ..= page_count * page_size`.
pub proof fn lemma_ptr_in_range(ps: int, count: int, ptr: int)
    requires
        ps > 0,
        1 <= ptr <= count * ps,
    ensures
        0 <= ptr_page(ps, ptr) < count,
        0 <= ptr_index(ps, ptr) < ps,
        data_ptr(ps, ptr_page(ps, ptr), ptr_index(ps, ptr)) == ptr,
{
    vstd::arithmetic::div_mod::lemma_fundamental_div_mod(ptr - 1, ps);
    vstd::arithmetic::div_mod::lemma_div_pos_is_pos(ptr - 1, ps);
    vstd::arithmetic::div_mod::lemma_mod_bound(ptr - 1, ps);
    let q = ptr_page(ps, ptr);
    let r = ptr_index(ps, ptr);
    assert(q < count) by (nonlinear_arith)
        requires
            ptr - 1 == ps * q + r,
            0 <= r,
            ptr - 1 < count * ps,
            ps > 0,
    ;
    assert(ps * q == q * ps) by (nonlinear_arith);
}

/// A list of pages that only grows. Slots are named by data pointers.
pub struct PageList<T> {
    page_size: usize,
    pages: Vec<Page<T>>,
}

impl<T> PageList<T> {
    pub closed spec fn page_size(&self) -> int {
        self.page_size as int
    }

    pub closed spec fn page_count(&self) -> int {
        self.pages.len() as int
    }

    /// Every page has `page_size` slots; sizes stay within the arena's limits.
    pub closed spec fn wf(&self) -> bool {
        &&& 0 < self.page_size <= MAX_PAGE_SIZE
        &&& 1 <= self.pages.len() <= MAX_PAGES
        &&& forall|p: int| 0 <= p < self.pages.len() ==> (#[trigger] self.pages[p]).nodes.len() == self.page_size
        &&& forall|p: int, i: int|
            0 <= p < self.pages.len() && 0 <= i < self.page_size ==> canonical(
                (#[trigger] self.pages[p].nodes[i]).marker(),
            )
    }

    /// The slots that are unmarked in phase `ph`.
    pub open spec fn unmarked(&self, ph: u64) -> Set<int> {
        Set::new(|q: int| self.valid_ptr(q) && self.node_at(q).marker() == pack_word(ph, false))
    }

    pub proof fn lemma_unmarked_finite(&self, ph: u64)
        ensures
            self.unmarked(ph).finite(),
    {
        let r = vstd::set_lib::set_int_range(1, self.capacity() + 1);
        vstd::set_lib::lemma_int_range(1, self.capacity() + 1);
        assert(self.unmarked(ph).subset_of(r));
        vstd::set_lib::lemma_len_subset(self.unmarked(ph), r);
    }

    /// Every slot's marker is canonical.
    pub proof fn lemma_markers_canonical(&self, ptr: int)
        requires
            self.wf(),
            self.valid_ptr(ptr),
        ensures
            canonical(self.node_at(ptr).marker()),
    {
        lemma_ptr_in_range(self.page_size(), self.page_count(), ptr);
    }

    /// The number of slots.
    pub open spec fn capacity(&self) -> int {
        self.page_count() * self.page_size()
    }

    /// Whether `ptr` is the data pointer of a slot of this list.
    pub open spec fn valid_ptr(&self, ptr: int) -> bool {
        1 <= ptr <= self.capacity()
    }

    /// The slot that data pointer `ptr` names.
    pub closed spec fn node_at(&self, ptr: int) -> PageNode<T> {
        self.pages[ptr_page(self.page_size(), ptr)].nodes[ptr_index(self.page_size(), ptr)]
    }

    pub proof fn lemma_capacity_bound(&self)
        requires
            self.wf(),
        ensures
            self.page_size() > 0,
            1 <= self.page_count() <= MAX_PAGES,
            self.page_size() <= self.capacity() <= MAX_PAGES * MAX_PAGE_SIZE,
    {
        assert(self.page_size() <= self.capacity() <= MAX_PAGES * MAX_PAGE_SIZE) by (nonlinear_arith)
            requires
                0 < self.page_size() <= MAX_PAGE_SIZE,
                1 <= self.page_count() <= MAX_PAGES,
                self.capacity() == self.page_count() * self.page_size(),
        ;
    }

    /// A list holding one fresh page of `page_size` slots.
    pub fn new(page_size: usize) -> (r: Self)
        requires
            0 < page_size <= MAX_PAGE_SIZE,
        ensures
            r.wf(),
            r.page_size() == page_size,
            r.page_count() == 1,
            forall|q: int| r.valid_ptr(q) ==> (#[trigger] r.node_at(q)).marker() == 0 && r.node_at(q).payload() is None,
    {
        let initial_page = Page::new(page_size);
        let mut pages: Vec<Page<T>> = Vec::new();
        pages.push(initial_page);
        let r = Self { page_size, pages };
        proof {
            lemma_pack_canonical(0, false);
            assert(pack_word(0, false) == 0) by (bit_vector);
        }
        assert forall|q: int| r.valid_ptr(q) implies (#[trigger] r.node_at(q)).marker() == 0 && r.node_at(q).payload() is None by {
            lemma_ptr_in_range(page_size as int, 1, q);
        }
        r
    }

    pub fn get_page_size(&self) -> (r: usize)
        ensures
            r == self.page_size(),
    {
        self.page_size
    }

    pub fn get_page_count(&self) -> (r: usize)
        ensures
            r == self.page_count(),
    {
        self.pages.len()
    }

    /// Splits a sweep cursor into `(phase, index)`.
    pub fn index_data(index: u64) -> (r: (u64, u64))
        ensures
            r == (cursor_phase(index), cursor_index(index)),
    {
        ((index >> 32), (index & 0x0000_0000_ffff_ffff))
    }

    /// Claims the next page of the sweep: the page that `cursor` names, if
    /// the cursor belongs to `local_phase` and the page exists; the cursor then
    /// moves one page on.
    pub fn get_page(&self, cursor: &mut u64, local_phase: u64) -> (r: Option<usize>)
        requires
            self.wf(),
        ensures
            cursor_index(*old(cursor)) < self.page_count() && cursor_phase(*old(cursor)) == local_phase
                ==> r == Some(cursor_index(*old(cursor)) as usize) && *final(cursor) == *old(cursor) + 1
                && cursor_index(*final(cursor)) == cursor_index(*old(cursor)) + 1 && cursor_phase(*final(cursor))
                == local_phase,
            !(cursor_index(*old(cursor)) < self.page_count() && cursor_phase(*old(cursor)) == local_phase)
                ==> r is None && *final(cursor) == *old(cursor),
    {
        let num_sweep_pages = self.pages.len() as u64;
        let old = *cursor;
        let (phase, index) = Self::index_data(old);
        if index >= num_sweep_pages {
            return None;
        }
        if phase != local_phase {
            return None;
        }
        assert(old < 0xffff_ffff_ffff_ffffu64) by (bit_vector)
            requires
                (old & 0xffff_ffffu64) < 0x1000u64,
        ;
        let next: u64 = old + 1;
        let low: u64 = index + 1;
        assert((next & 0xffff_ffffu64) == low && (next >> 32u64) == (old >> 32u64)) by (bit_vector)
            requires
                index == old & 0xffff_ffffu64,
                index < 0x1000u64,
                next == old + 1,
                low == index + 1,
        ;
        *cursor = next;
        Some(index as usize)
    }

    /// The data pointer of slot `index` of page `page`.
    pub fn get_data_ptr(&self, page: usize, index: usize) -> (r: usize)
        requires
            self.wf(),
            page < self.page_count(),
            index < self.page_size(),
        ensures
            r == data_ptr(self.page_size(), page as int, index as int),
            self.valid_ptr(r as int),
    {
        proof {
            assert(page * self.page_size() + index + 1 <= self.capacity()) by (nonlinear_arith)
                requires
                    page < self.page_count(),
                    index < self.page_size(),
                    self.capacity() == self.page_count() * self.page_size(),
            ;
            self.lemma_capacity_bound();
            lemma_payload_offset_identity(self.page_size(), page as int, index as int);
        }
        page * self.page_size + index + 1
    }

    /// The slot, as `(page, index)`, whose data pointer is `ptr`.
    pub fn from_data_ptr(&self, ptr: usize) -> (r: Option<(usize, usize)>)
        requires
            self.wf(),
        ensures
            r is Some <==> self.valid_ptr(ptr as int),
            r is Some ==> r.unwrap().0 == ptr_page(self.page_size(), ptr as int) && r.unwrap().1
                == ptr_index(self.page_size(), ptr as int) && r.unwrap().0 < self.page_count() && r.unwrap().1
                < self.page_size(),
    {
        proof {
            self.lemma_capacity_bound();
        }
        let cap = self.pages.len() * self.page_size;
        if ptr == 0 || ptr > cap {
            return None;
        }
        proof {
            lemma_ptr_in_range(self.page_size(), self.page_count(), ptr as int);
        }
        Some(((ptr - 1) / self.page_size, (ptr - 1) % self.page_size))
    }

    /// Clears the marks of every slot of every page to phase `n_phase`.
    pub fn update_marks(&mut self, n_phase: u64)
        requires
            old(self).wf(),
            n_phase < crate::dirty::PHASE_LIMIT,
        ensures
            final(self).wf(),
            final(self).page_size() == old(self).page_size(),
            final(self).page_count() == old(self).page_count(),
            forall|q: int|
                old(self).valid_ptr(q) ==> word_phase(#[trigger] final(self).node_at(q).marker()) >= word_phase(
                    old(self).node_at(q).marker(),
                ),
            forall|q: int|
                old(self).valid_ptr(q) ==> (#[trigger] final(self).node_at(q)).marker() == cleared_word(
                    old(self).node_at(q).marker(),
                    n_phase,
                ) && final(self).node_at(q).payload() == old(self).node_at(q).payload(),
    {
        let mut k: usize = 0;
        while k < self.pages.len()
            invariant
                n_phase < crate::dirty::PHASE_LIMIT,
                k <= self.pages.len(),
                self.page_size == old(self).page_size,
                self.pages.len() == old(self).pages.len(),
                forall|p: int|
                    0 <= p < self.pages.len() ==> (#[trigger] self.pages[p]).nodes.len() == self.page_size,
                forall|p: int, i: int|
                    0 <= p < k && 0 <= i < self.page_size ==> (#[trigger] self.pages[p].nodes[i]).marker()
                        == cleared_word(old(self).pages[p].nodes[i].marker(), n_phase)
                        && self.pages[p].nodes[i].payload() == old(self).pages[p].nodes[i].payload(),
                forall|p: int| k <= p < self.pages.len() ==> #[trigger] self.pages[p] == old(self).pages[p],
            decreases self.pages.len() - k,
        {
            self.pages[k].update_marks(n_phase);
            k = k + 1;
        }
        proof {
            lemma_pack_canonical(n_phase, false);
            assert forall|p: int, i: int|
                0 <= p < self.pages.len() && 0 <= i < self.page_size implies canonical(
                (#[trigger] self.pages[p].nodes[i]).marker(),
            ) by {
                assert(canonical(old(self).pages[p].nodes[i].marker()));
            }
            assert forall|q: int| old(self).valid_ptr(q) implies word_phase(#[trigger] self.node_at(q).marker())
                >= word_phase(old(self).node_at(q).marker()) by {
                lemma_ptr_in_range(self.page_size(), self.page_count(), q);
                lemma_cleared_phase_grows(old(self).node_at(q).marker(), n_phase);
            }
            assert forall|q: int| old(self).valid_ptr(q) implies (#[trigger] self.node_at(q)).marker()
                == cleared_word(old(self).node_at(q).marker(), n_phase) && self.node_at(q).payload()
                == old(self).node_at(q).payload() by {
                lemma_ptr_in_range(self.page_size(), self.page_count(), q);
            }
        }
    }

    /// Appends a fresh page, unless the list already holds `MAX_PAGES` pages.
    pub fn add_page(&mut self) -> (r: bool)
        requires
            old(self).wf(),
        ensures
            final(self).wf(),
            r == (old(self).page_count() < MAX_PAGES),
            final(self).page_size() == old(self).page_size(),
            final(self).page_count() == old(self).page_count() + if r { 1int } else { 0int },
            forall|q: int| old(self).valid_ptr(q) ==> #[trigger] final(self).node_at(q) == old(self).node_at(q),
            forall|q: int|
                final(self).valid_ptr(q) && !old(self).valid_ptr(q) ==> (#[trigger] final(self).node_at(q)).marker()
                    == 0 && final(self).node_at(q).payload() is None,
    {
        if self.pages.len() >= MAX_PAGES {
            return false;
        }
        let page = Page::new(self.page_size);
        self.pages.push(page);
        proof {
            lemma_pack_canonical(0, false);
            assert(pack_word(0, false) == 0) by (bit_vector);
            assert forall|p: int, i: int|
                0 <= p < self.pages.len() && 0 <= i < self.page_size implies canonical(
                (#[trigger] self.pages[p].nodes[i]).marker(),
            ) by {
                if p < old(self).pages.len() {
                    assert(self.pages[p] == old(self).pages[p]);
                }
            }
            assert forall|q: int| old(self).valid_ptr(q) implies #[trigger] self.node_at(q) == old(self).node_at(q) by {
                lemma_ptr_in_range(self.page_size(), old(self).page_count(), q);
            }
            assert forall|q: int| self.valid_ptr(q) && !old(self).valid_ptr(q) implies (#[trigger] self.node_at(
                q,
            )).marker() == 0 && self.node_at(q).payload() is None by {
                lemma_ptr_in_range(self.page_size(), self.page_count(), q);
                let pg = ptr_page(self.page_size(), q);
                let ps = self.page_size();
                let oc = old(self).page_count();
                let ix = ptr_index(ps, q);
                if pg < oc {
                    assert((pg + 1) * ps <= oc * ps) by (nonlinear_arith)
                        requires
                            pg + 1 <= oc,
                            ps > 0,
                    ;
                    assert((pg + 1) * ps == pg * ps + ps) by (nonlinear_arith);
                }
            }
        }
        true
    }

    /// The marks of the slot that `ptr` names.
    pub fn load_marks(&self, ptr: usize) -> (r: NodeMarks)
        requires
            self.wf(),
            self.valid_ptr(ptr as int),
        ensures
            r == word_marks(self.node_at(ptr as int).marker()),
    {
        proof {
            lemma_ptr_in_range(self.page_size(), self.page_count(), ptr as int);
        }
        let p = (ptr - 1) / self.page_size;
        let i = (ptr - 1) % self.page_size;
        self.pages[p].nodes[i].load_marks()
    }

    /// Sets the marks of the slot that `ptr` names to `n_marks` if they are
    /// exactly `expected`; every other slot stays as it is.
    pub fn update_marks_at(&mut self, ptr: usize, expected: NodeMarks, n_marks: NodeMarks) -> (r: Result<(), ()>)
        requires
            old(self).wf(),
            old(self).valid_ptr(ptr as int),
        ensures
            final(self).wf(),
            final(self).page_size() == old(self).page_size(),
            final(self).page_count() == old(self).page_count(),
            r is Ok <==> old(self).node_at(ptr as int).marker() == marks_word(expected),
            r is Ok ==> final(self).node_at(ptr as int).marker() == marks_word(n_marks),
            r is Err ==> final(self).node_at(ptr as int).marker() == old(self).node_at(ptr as int).marker(),
            final(self).node_at(ptr as int).payload() == old(self).node_at(ptr as int).payload(),
            forall|q: int|
                old(self).valid_ptr(q) && q != ptr ==> #[trigger] final(self).node_at(q) == old(self).node_at(q),
    {
        proof {
            lemma_ptr_in_range(self.page_size(), self.page_count(), ptr as int);
        }
        let p = (ptr - 1) / self.page_size;
        let i = (ptr - 1) % self.page_size;
        let r = self.pages[p].nodes[i].update_marks(expected, n_marks);
        proof {
            lemma_pack_canonical(n_marks.phase, n_marks.marked);
            assert forall|pp: int, ii: int|
                0 <= pp < self.pages.len() && 0 <= ii < self.page_size implies canonical(
                (#[trigger] self.pages[pp].nodes[ii]).marker(),
            ) by {
                assert(canonical(old(self).pages[pp].nodes[ii].marker()));
            }
            assert forall|q: int| old(self).valid_ptr(q) && q != ptr implies #[trigger] self.node_at(q)
                == old(self).node_at(q) by {
                lemma_ptr_in_range(self.page_size(), self.page_count(), q);
            }
        }
        r
    }

    /// Stores `data` as the payload of the slot that `ptr` names; every other
    /// slot, and every marker, stays as it is.
    pub fn write(&mut self, ptr: usize, data: T)
        requires
            old(self).wf(),
            old(self).valid_ptr(ptr as int),
        ensures
            final(self).wf(),
            final(self).page_size() == old(self).page_size(),
            final(self).page_count() == old(self).page_count(),
            final(self).node_at(ptr as int).payload() == Some(data),
            final(self).node_at(ptr as int).marker() == old(self).node_at(ptr as int).marker(),
            forall|q: int|
                old(self).valid_ptr(q) && q != ptr ==> #[trigger] final(self).node_at(q) == old(self).node_at(q),
    {
        proof {
            lemma_ptr_in_range(self.page_size(), self.page_count(), ptr as int);
        }
        let p = (ptr - 1) / self.page_size;
        let i = (ptr - 1) % self.page_size;
        self.pages[p].nodes[i].write(data);
        proof {
            assert forall|pp: int, ii: int|
                0 <= pp < self.pages.len() && 0 <= ii < self.page_size implies canonical(
                (#[trigger] self.pages[pp].nodes[ii]).marker(),
            ) by {
                assert(canonical(old(self).pages[pp].nodes[ii].marker()));
            }
            assert forall|q: int| old(self).valid_ptr(q) && q != ptr implies #[trigger] self.node_at(q)
                == old(self).node_at(q) by {
                lemma_ptr_in_range(self.page_size(), self.page_count(), q);
            }
        }
    }

    /// The payload of the slot that `ptr` names, if `ptr` names a slot that
    /// holds one.
    pub fn read(&self, ptr: usize) -> (r: Option<&T>)
        requires
            self.wf(),
        ensures
            r is Some <==> self.valid_ptr(ptr as int) && self.node_at(ptr as int).payload() is Some,
            r is Some ==> *r.unwrap() == self.node_at(ptr as int).payload().unwrap(),
    {
        match self.from_data_ptr(ptr) {
            Some((p, i)) => self.pages[p].nodes[i].data(),
            None => None,
        }
    }
}

} // verus!
