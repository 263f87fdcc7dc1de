//! A thread's own part of the reclaimer: its phase, dirty word, hazard
//! frames, allocation buffer and mark stack.
use vstd::prelude::*;

use crate::allocator::page::{data_ptr, NodeMarks, PageList};
use crate::allocator::{GlobalAllocPool, LocalAllocator, BUFFER_SIZE};
use crate::dirty::{pack_word, word_flag, Udirty, PHASE_LIMIT};
use crate::hazard_ptrs::HazardPtrFrame;
use crate::markstack::{pop_model, push_all, MarkStack};
use crate::{Arbiter, DataStructureNode};

verus! {

/// Whether every pointer of `ptrs` names a slot of `pages`.
pub open spec fn all_valid<N>(pages: &PageList<N>, ptrs: Seq<usize>) -> bool {
    forall|k: int| 0 <= k < ptrs.len() ==> pages.valid_ptr(#[trigger] ptrs[k] as int)
}

/// Whether every buffer the pool holds names slots of `pages` only.
pub open spec fn pool_valid<N>(pages: &PageList<N>, g: &GlobalAllocPool) -> bool {
    forall|k: int|
        0 <= k < g.cells().len() && (#[trigger] g.cells()[k]) is Some ==> all_valid(pages, g.cells()[k].unwrap().1@)
}

/// Whether no pointer of `ptrs` names a slot marked in phase `ph`.
pub open spec fn none_marked<N>(pages: &PageList<N>, ph: u64, ptrs: Seq<usize>) -> bool {
    forall|k: int| 0 <= k < ptrs.len() ==> !crate::marked_in(pages, ph, #[trigger] ptrs[k] as int)
}

/// Whether no buffer that the pool can still hand out (one tagged with the
/// pool's phase) holds a slot marked in phase `ph`.
pub open spec fn pool_none_marked<N>(pages: &PageList<N>, ph: u64, g: &GlobalAllocPool) -> bool {
    forall|k: int|
        0 <= k < g.cells().len() && (#[trigger] g.cells()[k]) is Some && g.cells()[k].unwrap().0 == g.phase()
            ==> none_marked(pages, ph, g.cells()[k].unwrap().1@)
}

/// Whether pool `n` differs from pool `m` only by cells that hold a full
/// buffer: the pool receives a buffer only once a thread's buffer is full.
pub open spec fn gains_full_buffers(m: &GlobalAllocPool, n: &GlobalAllocPool) -> bool {
    &&& m.cells().len() <= n.cells().len()
    &&& forall|k: int|
        0 <= k < n.cells().len() && !(k < m.cells().len() && n.cells()[k] == m.cells()[k]) ==> (#[trigger] n.cells()[k])
            is Some && n.cells()[k].unwrap().1@.len() == BUFFER_SIZE
}

/// Whether slot `q` waits in `alloc`, or in a buffer that the pool can
/// still hand out.
pub open spec fn in_free_buffers(alloc: Seq<usize>, g: &GlobalAllocPool, q: int) -> bool {
    alloc.contains(q as usize) || exists|k: int|
        0 <= k < g.cells().len() && (#[trigger] g.cells()[k]) is Some && g.cells()[k].unwrap().0 == g.phase()
            && g.cells()[k].unwrap().1@.contains(q as usize)
}

/// Whether `m` and `n` mark the same slots in phase `ph`, but for slots that
/// `n` marked anew.
pub open spec fn marks_grow<N>(m: &PageList<N>, n: &PageList<N>, ph: u64) -> bool {
    &&& n.wf()
    &&& n.page_size() == m.page_size()
    &&& n.page_count() == m.page_count()
    &&& forall|q: int|
        m.valid_ptr(q) ==> {
            &&& (#[trigger] n.node_at(q)).payload() == m.node_at(q).payload()
            &&& n.node_at(q).marker() == m.node_at(q).marker() || (m.node_at(q).marker() == pack_word(ph, false)
                && n.node_at(q).marker() == pack_word(ph, true))
        }
}

/// Whether a step of marking in phase `ph` went from `(m, s)` to `(n, t)`
/// making progress: fewer unmarked slots, or as many and fewer pointers to visit.
pub open spec fn marking_progress<N>(m: &PageList<N>, s: &MarkStack, n: &PageList<N>, t: &MarkStack, ph: u64) -> bool {
    n.unmarked(ph).len() < m.unmarked(ph).len() || (n.unmarked(ph) == m.unmarked(ph) && t.items().len()
        < s.items().len())
}

/// Whether marking in phase `ph` visits pointer `p`: it names a slot that is
/// unmarked in `ph`.
pub open spec fn visits<N>(pages: &PageList<N>, ph: u64, p: usize) -> bool {
    pages.valid_ptr(p as int) && pages.node_at(p as int).marker() == pack_word(ph, false)
}

/// Whether marking one node is done: the stack was empty.
#[derive(Debug, Clone, Copy, PartialEq, Eq, Structural)]
pub enum MarkNodeState {
    Done,
    NotDone,
}

/// A thread's reclamation context.
pub struct Local {
    pub phase_index: u64,
    pub dirty: Udirty,
    pub hazard_ptr_frames: [HazardPtrFrame; 2],
    pub arbiter: Arbiter,
    pub alloc: LocalAllocator,
    /// The node this thread is tracing; 0 before the first.
    pub cur_traced: usize,
    pub mark_stack: MarkStack,
    /// For each slot this thread marked, the pointers its payload gave.
    pub traced: Ghost<Map<int, Seq<usize>>>,
}

impl Default for Local {
    fn default() -> (r: Self)
        ensures
            r.wf(),
            r.phase_index == 0,
            r.alloc@ == Seq::<usize>::empty(),
            r.mark_stack.items() == Set::<int>::empty(),
    {
        Self::new()
    }
}

impl Local {
    pub open spec fn wf(&self) -> bool {
        &&& self.alloc.wf()
        &&& self.mark_stack.wf()
    }

    pub fn new() -> (r: Self)
        ensures
            r.wf(),
            r.phase_index == 0,
            r.dirty@ == 0,
            r.arbiter@ == 0,
            r.alloc@ == Seq::<usize>::empty(),
            r.cur_traced == 0,
            r.mark_stack.items() == Set::<int>::empty(),
            r.hazard_ptr_frames[0]@ == seq![0usize],
            r.hazard_ptr_frames[1]@ == seq![0usize],
            r.traced@ == Map::<int, Seq<usize>>::empty(),
    {
        let r = Self {
            phase_index: 0,
            dirty: Udirty::new(),
            hazard_ptr_frames: [HazardPtrFrame::new(), HazardPtrFrame::new()],
            arbiter: Arbiter::new(),
            alloc: LocalAllocator::new(),
            cur_traced: 0,
            mark_stack: MarkStack::new(),
            traced: Ghost(Map::empty()),
        };
        assert(r.mark_stack.items() =~= Set::<int>::empty()) by {
            assert(r.mark_stack.cells()[0] == 0);
        }
        r
    }

    /// Visits the pointer on top of the mark stack, for phase `local_phase`.
    /// A pointer that names no slot, or a slot already marked or of another
    /// phase, is dropped. Otherwise the node's children go onto the stack
    /// and its slot is marked.
    pub fn mark_node<N: DataStructureNode>(&mut self, pages: &mut PageList<N>, local_phase: u64) -> (r:
        MarkNodeState)
        requires
            old(self).wf(),
            old(pages).wf(),
            local_phase < PHASE_LIMIT,
            forall|q: int|
                #[trigger] old(self).traced@.dom().contains(q) ==> !old(pages).unmarked(local_phase).contains(q),
        ensures
            forall|q: int|
                #[trigger] final(self).traced@.dom().contains(q) ==> !final(pages).unmarked(local_phase).contains(q),
            final(self).wf(),
            marks_grow(old(pages), final(pages), local_phase),
            final(pages).unmarked(local_phase).subset_of(old(pages).unmarked(local_phase)),
            r == MarkNodeState::Done <==> old(self).mark_stack.items() == Set::<int>::empty(),
            r == MarkNodeState::Done ==> *final(self) == *old(self) && *final(pages) == *old(pages),
            r == MarkNodeState::NotDone ==> marking_progress(
                old(pages),
                &old(self).mark_stack,
                final(pages),
                &final(self).mark_stack,
                local_phase,
            ),
            forall|p: usize|
                old(self).mark_stack.contains(p) ==> #[trigger] final(self).mark_stack.contains(p)
                    || !final(pages).unmarked(local_phase).contains(p as int),
            final(self).phase_index == old(self).phase_index,
            final(self).dirty == old(self).dirty,
            final(self).hazard_ptr_frames == old(self).hazard_ptr_frames,
            final(self).arbiter == old(self).arbiter,
            final(self).alloc == old(self).alloc,
            forall|q: int|
                old(self).traced@.dom().contains(q) ==> #[trigger] final(self).traced@.dom().contains(q) && final(self).traced@[q] == old(self).traced@[q],
            forall|q: int|
                old(pages).valid_ptr(q) && old(pages).node_at(q).marker() == pack_word(local_phase, false)
                    && #[trigger] final(pages).node_at(q).marker() == pack_word(local_phase, true)
                    ==> final(self).traced@.dom().contains(q),
            pop_model(old(self).mark_stack.cells(), old(self).mark_stack.head()).2 is Some && visits(
                old(pages),
                local_phase,
                pop_model(old(self).mark_stack.cells(), old(self).mark_stack.head()).2.unwrap(),
            ) ==> {
                let (popped, popped_head, top_ptr) = pop_model(old(self).mark_stack.cells(), old(self).mark_stack.head());
                let top = top_ptr.unwrap();
                &&& r == MarkNodeState::NotDone
                &&& final(self).cur_traced == top
                &&& final(pages).node_at(top as int).marker() == pack_word(local_phase, true)
                &&& forall|q: int|
                    old(pages).valid_ptr(q) && q != top ==> #[trigger] final(pages).node_at(q) == old(pages).node_at(q)
                &&& final(self).traced@ == old(self).traced@.insert(top as int, final(self).traced@[top as int])
                &&& (final(self).mark_stack.cells(), final(self).mark_stack.head()) == push_all(
                    popped,
                    popped_head,
                    final(self).traced@[top as int],
                )
            },
            pop_model(old(self).mark_stack.cells(), old(self).mark_stack.head()).2 is Some && !visits(
                old(pages),
                local_phase,
                pop_model(old(self).mark_stack.cells(), old(self).mark_stack.head()).2.unwrap(),
            ) ==> {
                let (popped, popped_head, top_ptr) = pop_model(old(self).mark_stack.cells(), old(self).mark_stack.head());
                let top = top_ptr.unwrap();
                &&& r == MarkNodeState::NotDone
                &&& final(self).cur_traced == old(self).cur_traced
                &&& *final(pages) == *old(pages)
                &&& final(self).traced == old(self).traced
                &&& final(self).mark_stack.cells() == popped
                &&& final(self).mark_stack.head() == popped_head
            },
            forall|q: int|
                #[trigger] final(self).traced@.dom().contains(q) && !old(self).traced@.dom().contains(q) ==> {
                    &&& old(pages).valid_ptr(q)
                    &&& old(pages).node_at(q).marker() == pack_word(local_phase, false)
                    &&& final(pages).node_at(q).marker() == pack_word(local_phase, true)
                    &&& forall|i: int|
                        0 <= i < final(self).traced@[q].len() && final(self).traced@[q][i] != 0
                            ==> final(self).mark_stack.contains(#[trigger] final(self).traced@[q][i])
                },
    {
        proof {
            old(pages).lemma_unmarked_finite(local_phase);
            old(self).mark_stack.lemma_items_finite();
            crate::dirty::lemma_dirty_round_trip(local_phase, false);
            crate::dirty::lemma_dirty_round_trip(local_phase, true);
        }
        let obj_ptr = match self.mark_stack.peek() {
            Some(o) => o,
            None => {
                return MarkNodeState::Done;
            },
        };
        if pages.from_data_ptr(obj_ptr).is_none() {
            let _ = self.mark_stack.pop();
            return MarkNodeState::NotDone;
        }
        let marks = pages.load_marks(obj_ptr);
        if marks.marked || marks.phase != local_phase {
            let _ = self.mark_stack.pop();
            return MarkNodeState::NotDone;
        }
        proof {
            pages.lemma_markers_canonical(obj_ptr as int);
        }
        self.cur_traced = obj_ptr;
        let _ = self.mark_stack.pop();
        let ghost stack_after_pop = self.mark_stack;
        let child_ptrs = match pages.read(obj_ptr) {
            Some(obj) => obj.pointers(),
            None => Vec::new(),
        };
        let mut pushed_children: usize = 0;
        let mut k: usize = 0;
        while k < child_ptrs.len()
            invariant
                self.wf(),
                pushed_children <= k <= child_ptrs.len(),
                forall|p: usize| stack_after_pop.contains(p) ==> #[trigger] self.mark_stack.contains(p),
                forall|j: int|
                    0 <= j < k && child_ptrs@[j] != 0 ==> self.mark_stack.contains(#[trigger] child_ptrs@[j]),
                (self.mark_stack.cells(), self.mark_stack.head()) == push_all(
                    stack_after_pop.cells(),
                    stack_after_pop.head(),
                    child_ptrs@.subrange(0, k as int),
                ),
                self.cur_traced == obj_ptr,
                self.traced == old(self).traced,
                self.phase_index == old(self).phase_index,
                self.dirty == old(self).dirty,
                self.hazard_ptr_frames == old(self).hazard_ptr_frames,
                self.arbiter == old(self).arbiter,
                self.alloc == old(self).alloc,
            decreases child_ptrs.len() - k,
        {
            let c_ptr = child_ptrs[k];
            proof {
                assert(child_ptrs@.subrange(0, k + 1).drop_last() =~= child_ptrs@.subrange(0, k as int));
                assert(child_ptrs@.subrange(0, k + 1).last() == c_ptr);
            }
            if c_ptr != 0 {
                self.mark_stack.push(c_ptr);
                pushed_children = pushed_children + 1;
            }
            k = k + 1;
        }
        assert(child_ptrs@.subrange(0, child_ptrs@.len() as int) =~= child_ptrs@);
        let expected_marks = NodeMarks { phase: local_phase, marked: false };
        let new_marks = NodeMarks { phase: local_phase, marked: true };
        let ghost before = *pages;
        match pages.update_marks_at(obj_ptr, expected_marks, new_marks) {
            Ok(_) => {
                proof {
                    assert(!old(self).traced@.dom().contains(obj_ptr as int));
                    self.traced@ = self.traced@.insert(obj_ptr as int, child_ptrs@);
                    assert(pages.unmarked(local_phase) =~= before.unmarked(local_phase).remove(obj_ptr as int));
                    assert(before.unmarked(local_phase).contains(obj_ptr as int));
                    pages.lemma_unmarked_finite(local_phase);
                }
                MarkNodeState::NotDone
            },
            Err(_) => {
                let mut j: usize = 0;
                while j < pushed_children
                    invariant
                        self.wf(),
                    decreases pushed_children - j,
                {
                    let _ = self.mark_stack.pop();
                    j = j + 1;
                }
                MarkNodeState::NotDone
            },
        }
    }

    /// Puts every unmarked slot of page `page` into this thread's buffer;
    /// each time the buffer is full it goes to the global pool, tagged with
    /// this thread's phase, and an empty one takes its place.
    pub fn sweep_page<N>(&mut self, pages: &PageList<N>, page: usize, global_alloc: &mut GlobalAllocPool)
        requires
            old(self).wf(),
            pages.wf(),
            page < pages.page_count(),
            all_valid(pages, old(self).alloc@),
            old(global_alloc).wf(),
            pool_valid(pages, old(global_alloc)),
        ensures
            final(self).wf(),
            all_valid(pages, final(self).alloc@),
            final(global_alloc).wf(),
            pool_valid(pages, final(global_alloc)),
            final(global_alloc).phase() == old(global_alloc).phase(),
            final(self).phase_index == old(self).phase_index,
            final(self).dirty == old(self).dirty,
            final(self).hazard_ptr_frames == old(self).hazard_ptr_frames,
            final(self).arbiter == old(self).arbiter,
            final(self).cur_traced == old(self).cur_traced,
            final(self).mark_stack == old(self).mark_stack,
            final(self).traced == old(self).traced,
            none_marked(pages, old(self).phase_index, old(self).alloc@) ==> none_marked(
                pages,
                old(self).phase_index,
                final(self).alloc@,
            ),
            none_marked(pages, old(self).phase_index, old(self).alloc@) && pool_none_marked(
                pages,
                old(self).phase_index,
                old(global_alloc),
            ) ==> pool_none_marked(pages, old(self).phase_index, final(global_alloc)),
            (exists|i: int|
                0 <= i < pages.page_size() && !word_flag(
                    #[trigger] pages.node_at(data_ptr(pages.page_size(), page as int, i)).marker(),
                )) ==> final(self).alloc@.len() > 0,
            old(self).alloc@.len() > 0 ==> final(self).alloc@.len() > 0,
            gains_full_buffers(old(global_alloc), final(global_alloc)),
            old(global_alloc).phase() == old(self).phase_index ==> forall|q: int|
                #[trigger] in_free_buffers(old(self).alloc@, old(global_alloc), q) ==> in_free_buffers(
                    final(self).alloc@,
                    final(global_alloc),
                    q,
                ),
            old(global_alloc).phase() == old(self).phase_index ==> forall|i: int|
                0 <= i < pages.page_size() && !word_flag(
                    #[trigger] pages.node_at(data_ptr(pages.page_size(), page as int, i)).marker(),
                ) ==> in_free_buffers(final(self).alloc@, final(global_alloc), data_ptr(pages.page_size(), page as int, i)),
    {
        let local_phase = self.phase_index;
        let page_size = pages.get_page_size();
        let mut i: usize = 0;
        while i < page_size
            invariant
                self.wf(),
                pages.wf(),
                page < pages.page_count(),
                page_size == pages.page_size(),
                all_valid(pages, self.alloc@),
                global_alloc.wf(),
                pool_valid(pages, global_alloc),
                global_alloc.phase() == old(global_alloc).phase(),
                self.phase_index == old(self).phase_index,
                self.dirty == old(self).dirty,
                self.hazard_ptr_frames == old(self).hazard_ptr_frames,
                self.arbiter == old(self).arbiter,
                self.cur_traced == old(self).cur_traced,
                self.mark_stack == old(self).mark_stack,
                self.traced == old(self).traced,
                local_phase == self.phase_index,
                none_marked(pages, local_phase, old(self).alloc@) ==> none_marked(pages, local_phase, self.alloc@),
                none_marked(pages, local_phase, old(self).alloc@) && pool_none_marked(
                    pages,
                    local_phase,
                    old(global_alloc),
                ) ==> pool_none_marked(pages, local_phase, global_alloc),
                (exists|k: int|
                    0 <= k < i && !word_flag(
                        #[trigger] pages.node_at(data_ptr(pages.page_size(), page as int, k)).marker(),
                    )) ==> self.alloc@.len() > 0,
                old(self).alloc@.len() > 0 ==> self.alloc@.len() > 0,
                gains_full_buffers(old(global_alloc), global_alloc),
                old(global_alloc).phase() == local_phase ==> forall|q: int|
                    #[trigger] in_free_buffers(old(self).alloc@, old(global_alloc), q) ==> in_free_buffers(
                        self.alloc@,
                        global_alloc,
                        q,
                    ),
                old(global_alloc).phase() == local_phase ==> forall|k: int|
                    0 <= k < i && !word_flag(
                        #[trigger] pages.node_at(data_ptr(pages.page_size(), page as int, k)).marker(),
                    ) ==> in_free_buffers(self.alloc@, global_alloc, data_ptr(pages.page_size(), page as int, k)),
            decreases page_size - i,
        {
            let data_ptr = pages.get_data_ptr(page, i);
            let marks = pages.load_marks(data_ptr);
            if !marks.marked {
                let ghost before = self.alloc@;
                proof {
                    assert(word_flag(pack_word(local_phase, true))) by (bit_vector);
                    assert(!crate::marked_in(pages, local_phase, data_ptr as int));
                }
                let ghost g_before = *global_alloc;
                match self.alloc.insert(data_ptr) {
                    Ok(_) => {
                        proof {
                            assert(self.alloc@ == before.push(data_ptr));
                            assert(self.alloc@[before.len() as int] == data_ptr);
                            assert forall|q: int| #[trigger] in_free_buffers(before, global_alloc, q) implies in_free_buffers(
                                self.alloc@,
                                global_alloc,
                                q,
                            ) by {
                                if before.contains(q as usize) {
                                    let k = choose|k: int| 0 <= k < before.len() && before[k] == q as usize;
                                    assert(self.alloc@[k] == q as usize);
                                }
                            }
                            assert(in_free_buffers(self.alloc@, global_alloc, data_ptr as int));
                        }
                        assert(all_valid(pages, self.alloc@)) by {
                            assert forall|k: int| 0 <= k < self.alloc@.len() implies pages.valid_ptr(
                                #[trigger] self.alloc@[k] as int,
                            ) by {
                                if k < before.len() {
                                    assert(self.alloc@[k] == before[k]);
                                }
                            }
                        }
                    },
                    Err(data_ptr) => {
                        let old_buffer = self.alloc.take();
                        let ghost g0 = *global_alloc;
                        let ghost b = old_buffer;
                        let _ = global_alloc.insert(local_phase, old_buffer);
                        proof {
                            let cells = g0.cells();
                            let j = crate::allocator::pool::insert_index(cells, local_phase, 0);
                            crate::allocator::pool::lemma_index_bounds(cells, local_phase, 0);
                            assert forall|k: int|
                                0 <= k < global_alloc.cells().len() && (#[trigger] global_alloc.cells()[k]) is Some implies all_valid(
                                pages,
                                global_alloc.cells()[k].unwrap().1@,
                            ) by {
                                if global_alloc.cells() != cells {
                                    if j < cells.len() {
                                        assert(global_alloc.cells() == cells.update(j, Some((local_phase, b))));
                                    } else {
                                        assert(global_alloc.cells() == cells.push(Some((local_phase, b))));
                                    }
                                    if k != j && k < cells.len() {
                                        assert(global_alloc.cells()[k] == cells[k]);
                                    }
                                }
                            }
                        }
                        let _ = self.alloc.insert(data_ptr);
                        proof {
                            let cells0 = g0.cells();
                            let j0 = crate::allocator::pool::insert_index(cells0, local_phase, 0);
                            crate::allocator::pool::lemma_index_bounds(cells0, local_phase, 0);
                            assert(b@.len() == BUFFER_SIZE);
                            assert forall|k: int|
                                0 <= k < global_alloc.cells().len() && !(k < old(global_alloc).cells().len()
                                    && global_alloc.cells()[k] == old(global_alloc).cells()[k]) implies (#[trigger] global_alloc.cells()[k]) is Some
                                && global_alloc.cells()[k].unwrap().1@.len() == BUFFER_SIZE by {
                                if global_alloc.cells() != cells0 {
                                    if j0 < cells0.len() {
                                        assert(global_alloc.cells() == cells0.update(j0, Some((local_phase, b))));
                                    } else {
                                        assert(global_alloc.cells() == cells0.push(Some((local_phase, b))));
                                    }
                                    if k != j0 && k < cells0.len() {
                                        assert(global_alloc.cells()[k] == cells0[k]);
                                    }
                                }
                            }
                            if g0.phase() == local_phase {
                                let cells = g0.cells();
                                let j = crate::allocator::pool::insert_index(cells, local_phase, 0);
                                crate::allocator::pool::lemma_index_bounds(cells, local_phase, 0);
                                let nc = global_alloc.cells();
                                let jj = if j < cells.len() { j } else { cells.len() as int };
                                assert(nc[jj] == Some((local_phase, b)));
                                assert(self.alloc@ =~= seq![data_ptr]);
                                assert(self.alloc@[0] == data_ptr);
                                assert forall|q: int| #[trigger] in_free_buffers(before, &g0, q) implies in_free_buffers(
                                    self.alloc@,
                                    global_alloc,
                                    q,
                                ) by {
                                    if before.contains(q as usize) {
                                        assert(b@.contains(q as usize));
                                        assert(0 <= jj < nc.len() && nc[jj] is Some && nc[jj].unwrap().0 == global_alloc.phase()
                                            && nc[jj].unwrap().1@.contains(q as usize));
                                    } else {
                                        let k = choose|k: int|
                                            0 <= k < cells.len() && (#[trigger] cells[k]) is Some && cells[k].unwrap().0
                                                == g0.phase() && cells[k].unwrap().1@.contains(q as usize);
                                        assert(k != j);
                                        assert(nc[k] == cells[k]);
                                    }
                                }
                                assert(in_free_buffers(self.alloc@, global_alloc, data_ptr as int));
                            }
                        }
                        assert(all_valid(pages, self.alloc@)) by {
                            assert forall|k: int| 0 <= k < self.alloc@.len() implies pages.valid_ptr(
                                #[trigger] self.alloc@[k] as int,
                            ) by {
                                assert(self.alloc@ =~= seq![data_ptr]);
                            }
                        }
                    },
                }
            }
            i = i + 1;
        }
    }
}

} // verus!
