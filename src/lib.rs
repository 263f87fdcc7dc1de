//! A memory-reclamation substrate for linked data structures.
use vstd::prelude::*;

use allocator::page::{canonical, cursor_index, cursor_phase, data_ptr, lemma_pack_canonical, PageList, MAX_PAGES};
use allocator::GlobalAllocPool;
use dirty::{pack_word, word_flag, word_phase, DirtyValue};
use local::{all_valid, in_free_buffers, marking_progress, marks_grow, none_marked, pool_none_marked, pool_valid, Local, MarkNodeState};
use markstack::{leading, push_model, MarkStack};

pub mod allocator;
pub mod dirty;
pub mod hazard_ptrs;
pub mod local;
pub mod markstack;

verus! {

/// The first empty slot from `i` on; the number of slots where none is.
pub open spec fn first_free(slots: Seq<usize>, i: int) -> int
    decreases slots.len() - i,
{
    if i >= slots.len() {
        slots.len() as int
    } else if slots[i] == 0 {
        i
    } else {
        first_free(slots, i + 1)
    }
}

/// The first empty slot from `i` on is empty and lies in `i ..= len`.
pub proof fn lemma_first_free_bounds(slots: Seq<usize>, i: int)
    requires
        0 <= i <= slots.len(),
    ensures
        i <= first_free(slots, i) <= slots.len(),
        first_free(slots, i) < slots.len() ==> slots[first_free(slots, i)] == 0,
    decreases slots.len() - i,
{
    if i < slots.len() {
        lemma_first_free_bounds(slots, i + 1);
    }
}

/// Selects which of a thread's two hazard frames is current.
pub struct Arbiter(u8);

impl View for Arbiter {
    type V = u8;

    closed spec fn view(&self) -> u8 {
        self.0
    }
}

impl Arbiter {
    pub fn new() -> (r: Self)
        ensures
            r@ == 0,
    {
        Self(0)
    }

    pub fn get(&self) -> (r: u8)
        ensures
            r == self@,
    {
        self.0
    }

    /// The frame to stage pointers in: the current value modulo 2.
    pub fn next(&self) -> (r: u8)
        ensures
            r == self@ % 2,
            r < 2,
    {
        self.0 % 2
    }

    pub fn store(&mut self, n_val: u8)
        ensures
            final(self)@ == n_val,
    {
        self.0 = n_val;
    }
}

/// A handle to a node the allocator handed out: the node's data pointer.
/// Dropping it frees nothing; only a sweep recycles the node.
pub struct AoaBox {
    inner: usize,
}

impl View for AoaBox {
    type V = usize;

    closed spec fn view(&self) -> usize {
        self.inner
    }
}

impl AoaBox {
    pub fn ptr(&self) -> (r: usize)
        ensures
            r == self@,
    {
        self.inner
    }
}

/// What a node type tells the reclaimer about its edges.
pub trait DataStructureNode: Sized {
    /// The most pointers to other nodes that one node holds.
    fn pointer_count() -> usize;

    /// The data pointers this node holds; 0 stands for null.
    fn pointers(&self) -> Vec<usize>;

    /// Strips the tag bits the structure keeps in a pointer.
    fn untag_ptr(ptr: usize) -> usize;
}

/// What a data structure tells the reclaimer about its roots.
pub trait DataStructureGlobals<N> {
    /// The data pointers the structure holds outside its nodes.
    fn get_globals(&self) -> Vec<usize>;
}

/// Slots per page of an allocator.
pub const PAGE_SIZE: usize = 256;

/// Phases stay below this bound, so that a phase fills only the upper half
/// of the sweep cursor.
pub const PHASE_CAP: u64 = 0xffff_ffff;

/// The allocator: node arena, global pool of free buffers, per-thread
/// contexts, and the phased mark-and-sweep reclaimer over them.
///
/// Threads are named by the index `register_thread` gave them.
pub struct Allocator<N, G> {
    phase_index: u64,
    locals: Vec<Local>,
    allocation_pool: GlobalAllocPool,
    pages: PageList<N>,
    sweep_chunk_index: u64,
    globals: G,
    /// The roots the last round of reclamation traced from.
    last_roots: Ghost<Seq<usize>>,
}

impl<N, G> Allocator<N, G> {
    /// The global phase.
    pub closed spec fn phase(&self) -> u64 {
        self.phase_index
    }

    pub closed spec fn thread_count(&self) -> int {
        self.locals.len() as int
    }

    /// Every thread's context, by index.
    pub closed spec fn contexts(&self) -> Seq<Local> {
        self.locals@
    }

    /// The context of thread `t`.
    pub closed spec fn local(&self, t: int) -> Local {
        self.locals[t]
    }

    /// The node arena.
    pub closed spec fn pages(&self) -> PageList<N> {
        self.pages
    }

    /// The global pool of free buffers.
    pub closed spec fn pool(&self) -> GlobalAllocPool {
        self.allocation_pool
    }

    /// The roots the last round of reclamation traced from.
    pub closed spec fn roots(&self) -> Seq<usize> {
        self.last_roots@
    }

    pub closed spec fn wf(&self) -> bool {
        &&& self.pages.wf()
        &&& self.locals.len() >= 1
        &&& self.phase_index <= PHASE_CAP
        &&& forall|t: int|
            0 <= t < self.locals.len() ==> (#[trigger] self.locals[t]).wf() && all_valid(
                &self.pages,
                self.locals[t].alloc@,
            ) && self.locals[t].phase_index <= self.phase_index && canonical(self.locals[t].dirty@)
        &&& self.allocation_pool.wf()
        &&& pool_valid(&self.pages, &self.allocation_pool)
        &&& self.allocation_pool.phase() <= self.phase_index
        &&& forall|k: int|
            0 <= k < self.allocation_pool.cells().len() && (#[trigger] self.allocation_pool.cells()[k]) is Some
                ==> self.allocation_pool.cells()[k].unwrap().1@.len() > 0
        &&& cursor_phase(self.sweep_chunk_index) <= self.phase_index
        &&& forall|q: int|
            self.pages.valid_ptr(q) ==> word_phase(#[trigger] self.pages.node_at(q).marker()) <= self.phase_index
    }

    pub fn get_thread_count(&self) -> (r: usize)
        ensures
            r == self.thread_count(),
    {
        self.locals.len()
    }

    pub fn page_count(&self) -> (r: usize)
        ensures
            r == self.pages().page_count(),
    {
        self.pages.get_page_count()
    }

    pub fn get_phase(&self) -> (r: u64)
        ensures
            r == self.phase(),
    {
        self.phase_index
    }

    /// Adds a thread context and returns its index.
    pub fn register_thread(&mut self) -> (r: usize)
        requires
            old(self).wf(),
        ensures
            final(self).wf(),
            r == old(self).thread_count(),
            final(self).thread_count() == old(self).thread_count() + 1,
            final(self).pages() == old(self).pages(),
            final(self).phase() == old(self).phase(),
    {
        self.locals.push(Local::new());
        proof {
            lemma_pack_canonical(0, false);
            assert(pack_word(0, false) == 0) by (bit_vector);
        }
        assert(forall|t: int| 0 <= t < old(self).locals.len() ==> self.locals[t] == old(self).locals[t]);
        self.locals.len() - 1
    }

    /// The payload at data pointer `ptr`, if `ptr` names a slot that holds one.
    pub fn read(&self, ptr: usize) -> (r: Option<&N>)
        requires
            self.wf(),
        ensures
            r is Some <==> self.pages().valid_ptr(ptr as int) && self.pages().node_at(ptr as int).payload() is Some,
            r is Some ==> *r.unwrap() == self.pages().node_at(ptr as int).payload().unwrap(),
    {
        self.pages.read(ptr)
    }

    /// Replaces the payload at data pointer `ptr`; hands `data` back where
    /// `ptr` names no slot.
    pub fn write(&mut self, ptr: usize, data: N) -> (r: Result<(), N>)
        requires
            old(self).wf(),
        ensures
            final(self).wf(),
            r is Ok <==> old(self).pages().valid_ptr(ptr as int),
            r is Ok ==> final(self).pages().node_at(ptr as int).payload() == Some(data),
            r is Err ==> r == Err::<(), N>(data) && *final(self) == *old(self),
            final(self).pages().page_count() == old(self).pages().page_count(),
            forall|q: int|
                old(self).pages().valid_ptr(q) && q != ptr ==> #[trigger] final(self).pages().node_at(q)
                    == old(self).pages().node_at(q),
    {
        if self.pages.from_data_ptr(ptr).is_none() {
            return Err(data);
        }
        self.pages.write(ptr, data);
        proof {
            assert forall|q: int| self.pages.valid_ptr(q) implies word_phase(
                #[trigger] self.pages.node_at(q).marker(),
            ) <= self.phase_index by {
                assert(old(self).pages.valid_ptr(q));
            }
            self.lemma_keep_valid(old(self));
        }
        Ok(())
    }

    /// Thread `thread`'s reads are still valid: its dirty flag is clear.
    pub fn validate_read(&self, thread: usize) -> (r: Result<(), ()>)
        requires
            self.wf(),
            thread < self.thread_count(),
        ensures
            r is Err <==> word_flag(self.local(thread as int).dirty@),
    {
        let dirty = self.locals[thread].dirty.get();
        if dirty.dirty {
            Err(())
        } else {
            Ok(())
        }
    }

    /// Moves from reading to writing: stages `local_ptrs` in the frame that
    /// `Arbiter::next` selects, then, unless the thread is dirty, makes that
    /// frame current.
    pub fn begin_write_only(&mut self, thread: usize, local_ptrs: &[usize]) -> (r: Result<(), ()>)
        requires
            old(self).wf(),
            thread < old(self).thread_count(),
        ensures
            final(self).wf(),
            final(self).thread_count() == old(self).thread_count(),
            final(self).pages() == old(self).pages(),
            r is Err <==> word_flag(old(self).local(thread as int).dirty@),
            final(self).local(thread as int).hazard_ptr_frames[(old(self).local(thread as int).arbiter@ % 2) as int]@
                == hazard_ptrs::store_all(
                old(self).local(thread as int).hazard_ptr_frames[(old(self).local(thread as int).arbiter@ % 2) as int]@,
                local_ptrs@,
            ),
            r is Ok ==> final(self).local(thread as int).arbiter@ == old(self).local(thread as int).arbiter@ % 2,
            r is Err ==> final(self).local(thread as int).arbiter@ == old(self).local(thread as int).arbiter@,
            final(self).local(thread as int).dirty == old(self).local(thread as int).dirty,
    {
        let next_arbiter = self.locals[thread].arbiter.next();
        let ghost frame0 = self.locals[thread as int].hazard_ptr_frames[next_arbiter as int]@;
        let mut i: usize = 0;
        while i < local_ptrs.len()
            invariant
                self.wf(),
                i <= local_ptrs.len(),
                next_arbiter < 2,
                next_arbiter == old(self).locals[thread as int].arbiter@ % 2,
                thread < self.locals.len(),
                self.locals.len() == old(self).locals.len(),
                self.pages == old(self).pages,
                self.phase_index == old(self).phase_index,
                self.allocation_pool == old(self).allocation_pool,
                self.locals[thread as int].hazard_ptr_frames[next_arbiter as int]@ == hazard_ptrs::store_all(
                    frame0,
                    local_ptrs@.subrange(0, i as int),
                ),
                self.locals[thread as int].arbiter == old(self).locals[thread as int].arbiter,
                self.locals[thread as int].dirty == old(self).locals[thread as int].dirty,
                forall|t: int| 0 <= t < self.locals.len() && t != thread ==> self.locals[t] == old(self).locals[t],
                self.locals[thread as int].wf() == old(self).locals[thread as int].wf(),
                self.locals[thread as int].alloc == old(self).locals[thread as int].alloc,
                self.locals[thread as int].phase_index == old(self).locals[thread as int].phase_index,
            decreases local_ptrs.len() - i,
        {
            let p = local_ptrs[i];
            self.locals[thread].hazard_ptr_frames[next_arbiter as usize].store(p);
            assert(local_ptrs@.subrange(0, i + 1).drop_last() =~= local_ptrs@.subrange(0, i as int));
            i = i + 1;
        }
        assert(local_ptrs@.subrange(0, local_ptrs.len() as int) =~= local_ptrs@);
        let dirty = self.locals[thread].dirty.get();
        if dirty.dirty {
            return Err(());
        }
        self.locals[thread].arbiter.store(next_arbiter);
        Ok(())
    }

    /// Whether the sweep cursor belongs to the global phase.
    pub closed spec fn cursor_current(&self) -> bool {
        cursor_phase(self.sweep_chunk_index) == self.phase_index
    }

    /// Pointers that stay valid for an arena stay valid once the arena has
    /// kept its size or grown.
    proof fn lemma_keep_valid(&self, before: &Self)
        requires
            before.wf(),
            self.pages.wf(),
            self.pages.page_size() == before.pages.page_size(),
            self.pages.page_count() >= before.pages.page_count(),
            self.locals == before.locals,
            self.allocation_pool == before.allocation_pool,
            self.phase_index == before.phase_index,
            self.sweep_chunk_index == before.sweep_chunk_index,
            forall|q: int|
                self.pages.valid_ptr(q) ==> word_phase(#[trigger] self.pages.node_at(q).marker()) <= self.phase_index,
        ensures
            self.wf(),
    {
        before.pages.lemma_capacity_bound();
        assert(self.pages.capacity() >= before.pages.capacity()) by (nonlinear_arith)
            requires
                self.pages.page_count() >= before.pages.page_count(),
                self.pages.page_size() == before.pages.page_size(),
                before.pages.page_size() > 0,
                self.pages.capacity() == self.pages.page_count() * self.pages.page_size(),
                before.pages.capacity() == before.pages.page_count() * before.pages.page_size(),
        ;
        assert forall|t: int| 0 <= t < self.locals.len() implies all_valid(&self.pages, (#[trigger] self.locals[t]).alloc@) by {
            assert(all_valid(&before.pages, before.locals[t].alloc@));
        }
        assert forall|k: int|
            0 <= k < self.allocation_pool.cells().len() && (#[trigger] self.allocation_pool.cells()[k]) is Some implies all_valid(
            &self.pages,
            self.allocation_pool.cells()[k].unwrap().1@,
        ) by {
            assert(all_valid(&before.pages, before.allocation_pool.cells()[k].unwrap().1@));
        }
    }
}

/// Whether slot `q` is marked in phase `ph`.
pub open spec fn marked_in<N>(pages: &PageList<N>, ph: u64, q: int) -> bool {
    pages.valid_ptr(q) && pages.node_at(q).marker() == pack_word(ph, true)
}

/// Whether thread context `l`, if it is in phase `ph` and has published a
/// traced node, has that node marked in `ph` where it names a slot.
pub open spec fn cur_traced_marked<N>(pages: &PageList<N>, ph: u64, l: Local) -> bool {
    l.phase_index == ph && l.cur_traced != 0 && pages.valid_ptr(l.cur_traced as int) ==> marked_in(
        pages,
        ph,
        l.cur_traced as int,
    )
}

/// Whether thread context `l`, if it is in phase `ph` and has published a
/// traced node, has every pointer that its mark stack shows to other
/// threads marked in `ph` where the pointer names a slot.
pub open spec fn stack_marked<N>(pages: &PageList<N>, ph: u64, l: Local) -> bool {
    l.phase_index == ph && l.cur_traced != 0 ==> forall|j: int|
        0 <= j < leading(l.mark_stack.cells()).len() && pages.valid_ptr(
            #[trigger] leading(l.mark_stack.cells())[j] as int,
        ) ==> marked_in(pages, ph, leading(l.mark_stack.cells())[j] as int)
}

/// How many pointers thread context `l` protects in its two hazard frames.
pub open spec fn frame_roots_len(l: Local) -> int {
    (hazard_ptrs::roots_of(l.hazard_ptr_frames[0]@).len() + hazard_ptrs::roots_of(l.hazard_ptr_frames[1]@).len()) as int
}

/// How many pointers the thread contexts `locals` protect in all.
pub open spec fn hazard_count(locals: Seq<Local>) -> int
    decreases locals.len(),
{
    if locals.len() == 0 {
        0
    } else {
        hazard_count(locals.drop_last()) + frame_roots_len(locals.last())
    }
}

/// Thread contexts with the same hazard frames protect as many pointers.
proof fn lemma_hazard_count_frames(a: Seq<Local>, b: Seq<Local>)
    requires
        a.len() == b.len(),
        forall|t: int| 0 <= t < a.len() ==> (#[trigger] a[t]).hazard_ptr_frames == b[t].hazard_ptr_frames,
    ensures
        hazard_count(a) == hazard_count(b),
    decreases a.len(),
{
    if a.len() > 0 {
        lemma_hazard_count_frames(a.drop_last(), b.drop_last());
        assert(a.last().hazard_ptr_frames == b.last().hazard_ptr_frames);
    }
}

/// Whether `u` is published by some thread in phase `ph` that has a traced
/// node: it is that node, or a pointer its mark stack shows to others.
pub open spec fn helped(locals: Seq<Local>, ph: u64, u: usize) -> bool {
    exists|t: int|
        0 <= t < locals.len() && locals[t].phase_index == ph && locals[t].cur_traced != 0 && (
        locals[t].cur_traced == u || leading(locals[t].mark_stack.cells()).contains(u))
}

/// A slot that is not unmarked in phase `ph` is marked in it, where every
/// slot is one or the other.
proof fn lemma_not_unmarked_is_marked<N>(pages: &PageList<N>, ph: u64, q: int)
    requires
        all_in_phase(pages, ph),
        pages.valid_ptr(q),
        ph < dirty::PHASE_LIMIT,
        !(word_phase(pages.node_at(q).marker()) == ph && !word_flag(pages.node_at(q).marker())),
    ensures
        marked_in(pages, ph, q),
{
    dirty::lemma_dirty_round_trip(ph, false);
}

/// Whether every slot is either unmarked or marked in phase `ph`.
pub open spec fn all_in_phase<N>(pages: &PageList<N>, ph: u64) -> bool {
    forall|q: int|
        pages.valid_ptr(q) ==> #[trigger] pages.node_at(q).marker() == pack_word(ph, false)
            || pages.node_at(q).marker() == pack_word(ph, true)
}

/// Marking in progress: every slot that `traced` records is marked, and
/// every pointer it recorded and every root, where it names a slot, is
/// marked or still waits on `stack`.
pub open spec fn trace_frontier<N>(
    pages: &PageList<N>,
    ph: u64,
    stack: &MarkStack,
    traced: Map<int, Seq<usize>>,
    roots: Seq<usize>,
) -> bool {
    &&& forall|q: int| #[trigger] traced.dom().contains(q) ==> marked_in(pages, ph, q)
    &&& forall|q: int, i: int|
        traced.dom().contains(q) && 0 <= i < traced[q].len() && #[trigger] traced[q][i] != 0 && pages.valid_ptr(
            traced[q][i] as int,
        ) ==> marked_in(pages, ph, traced[q][i] as int) || stack.contains(traced[q][i])
    &&& forall|i: int|
        0 <= i < roots.len() && #[trigger] roots[i] != 0 && pages.valid_ptr(roots[i] as int) ==> marked_in(
            pages,
            ph,
            roots[i] as int,
        ) || stack.contains(roots[i])
}

/// Marking is complete: every slot that `traced` records is marked, and
/// so is every pointer it recorded and every root, where it names a slot.
pub open spec fn trace_closed<N>(pages: &PageList<N>, ph: u64, traced: Map<int, Seq<usize>>, roots: Seq<usize>) -> bool {
    &&& forall|q: int| #[trigger] traced.dom().contains(q) ==> marked_in(pages, ph, q)
    &&& forall|q: int, i: int|
        traced.dom().contains(q) && 0 <= i < traced[q].len() && #[trigger] traced[q][i] != 0 && pages.valid_ptr(
            traced[q][i] as int,
        ) ==> marked_in(pages, ph, traced[q][i] as int)
    &&& forall|i: int|
        0 <= i < roots.len() && #[trigger] roots[i] != 0 && pages.valid_ptr(roots[i] as int) ==> marked_in(
            pages,
            ph,
            roots[i] as int,
        )
}

/// Whether `a` is as a round of reclamation on thread `thread` that began a
/// new phase leaves it: marking is complete, every marked slot was traced,
/// and no buffer that can still hand slots out holds a marked slot.
pub open spec fn reclaimed<N, G>(a: &Allocator<N, G>, thread: int) -> bool {
    &&& 0 <= thread < a.thread_count()
    &&& a.pool().phase() == a.phase()
    &&& forall|t: int|
        0 <= t < a.thread_count() ==> none_marked(&a.pages(), a.phase(), (#[trigger] a.local(t)).alloc@)
    &&& pool_none_marked(&a.pages(), a.phase(), &a.pool())
    &&& trace_closed(&a.pages(), a.phase(), a.local(thread).traced@, a.roots())
    &&& forall|q: int| marked_in(&a.pages(), a.phase(), q) ==> #[trigger] a.local(thread).traced@.dom().contains(q)
    &&& forall|q: int|
        a.pages().valid_ptr(q) && !marked_in(&a.pages(), a.phase(), q) ==> #[trigger] in_free_buffers(
            a.local(thread).alloc@,
            &a.pool(),
            q,
        )
}

proof fn lemma_path_marked<N, G>(a: &Allocator<N, G>, thread: int, path: Seq<usize>)
    requires
        reclaimed(a, thread),
        path.len() >= 1,
        a.roots().contains(path[0]),
        forall|i: int| 0 <= i < path.len() ==> #[trigger] path[i] != 0 && a.pages().valid_ptr(path[i] as int),
        forall|i: int|
            0 <= i < path.len() - 1 ==> a.local(thread).traced@[#[trigger] path[i] as int].contains(path[i + 1]),
    ensures
        marked_in(&a.pages(), a.phase(), path.last() as int),
    decreases path.len(),
{
    let pages = a.pages();
    let tr = a.local(thread).traced@;
    if path.len() == 1 {
        let i = choose|i: int| 0 <= i < a.roots().len() && a.roots()[i] == path[0];
        assert(a.roots()[i] != 0);
    } else {
        let prefix = path.drop_last();
        assert forall|i: int| 0 <= i < prefix.len() implies #[trigger] prefix[i] != 0 && pages.valid_ptr(
            prefix[i] as int,
        ) by {
            assert(path[i] != 0);
        }
        assert forall|i: int| 0 <= i < prefix.len() - 1 implies tr[#[trigger] prefix[i] as int].contains(
            prefix[i + 1],
        ) by {
            assert(tr[path[i] as int].contains(path[i + 1]));
        }
        lemma_path_marked(a, thread, prefix);
        let q = prefix.last() as int;
        let n = path.len() - 2;
        assert(path[n] == prefix.last());
        assert(tr.dom().contains(q));
        assert(tr[path[n] as int].contains(path[n + 1]));
        let k = choose|k: int| 0 <= k < tr[q].len() && tr[q][k] == path[n + 1];
        assert(path[n + 1] != 0);
        assert(tr[q][k] != 0);
    }
}

/// A slot that a round of reclamation reaches survives it: after a round
/// that began a new phase, a slot reached from one of its roots, where each
/// step follows a pointer that the trace read from the slot before, is
/// marked, and no thread's buffer, nor any buffer the pool can still hand
/// out, holds it.
pub proof fn lemma_reachable_survives<N, G>(a: &Allocator<N, G>, thread: int, path: Seq<usize>)
    requires
        reclaimed(a, thread),
        path.len() >= 1,
        a.roots().contains(path[0]),
        forall|i: int| 0 <= i < path.len() ==> #[trigger] path[i] != 0 && a.pages().valid_ptr(path[i] as int),
        forall|i: int|
            0 <= i < path.len() - 1 ==> a.local(thread).traced@[#[trigger] path[i] as int].contains(path[i + 1]),
    ensures
        marked_in(&a.pages(), a.phase(), path.last() as int),
        forall|t: int| 0 <= t < a.thread_count() ==> !(#[trigger] a.local(t)).alloc@.contains(path.last()),
        forall|k: int|
            0 <= k < a.pool().cells().len() && (#[trigger] a.pool().cells()[k]) is Some && a.pool().cells()[k].unwrap().0
                == a.pool().phase() ==> !a.pool().cells()[k].unwrap().1@.contains(path.last()),
{
    lemma_path_marked(a, thread, path);
    let p = path.last();
    assert forall|t: int| 0 <= t < a.thread_count() implies !(#[trigger] a.local(t)).alloc@.contains(p) by {
        if a.local(t).alloc@.contains(p) {
            let k = choose|k: int| 0 <= k < a.local(t).alloc@.len() && a.local(t).alloc@[k] == p;
            assert(!marked_in(&a.pages(), a.phase(), a.local(t).alloc@[k] as int));
        }
    }
    assert forall|k: int|
        0 <= k < a.pool().cells().len() && (#[trigger] a.pool().cells()[k]) is Some && a.pool().cells()[k].unwrap().0
            == a.pool().phase() implies !a.pool().cells()[k].unwrap().1@.contains(p) by {
        let b = a.pool().cells()[k].unwrap().1@;
        if b.contains(p) {
            let j = choose|j: int| 0 <= j < b.len() && b[j] == p;
            assert(!marked_in(&a.pages(), a.phase(), b[j] as int));
        }
    }
}

/// One marking step keeps the frontier: what it drops from the stack is
/// marked, and what it marks has its pointers on the stack.
proof fn lemma_frontier_step<N>(
    m: &PageList<N>,
    n: &PageList<N>,
    ph: u64,
    s: &MarkStack,
    t: &MarkStack,
    tm: Map<int, Seq<usize>>,
    tn: Map<int, Seq<usize>>,
    roots: Seq<usize>,
)
    requires
        all_in_phase(m, ph),
        marks_grow(m, n, ph),
        trace_frontier(m, ph, s, tm, roots),
        forall|p: usize| s.contains(p) ==> #[trigger] t.contains(p) || !n.unmarked(ph).contains(p as int),
        forall|q: int| tm.dom().contains(q) ==> #[trigger] tn.dom().contains(q) && tn[q] == tm[q],
        forall|q: int|
            #[trigger] tn.dom().contains(q) && !tm.dom().contains(q) ==> {
                &&& m.valid_ptr(q)
                &&& m.node_at(q).marker() == pack_word(ph, false)
                &&& n.node_at(q).marker() == pack_word(ph, true)
                &&& forall|i: int| 0 <= i < tn[q].len() && tn[q][i] != 0 ==> t.contains(#[trigger] tn[q][i])
            },
    ensures
        all_in_phase(n, ph),
        trace_frontier(n, ph, t, tn, roots),
{
    assert(pack_word(ph, true) != pack_word(ph, false)) by (bit_vector);
    assert forall|q: int| n.valid_ptr(q) implies #[trigger] n.node_at(q).marker() == pack_word(ph, false)
        || n.node_at(q).marker() == pack_word(ph, true) by {
        assert(m.valid_ptr(q));
    }
    assert forall|q: int| #[trigger] tn.dom().contains(q) implies marked_in(n, ph, q) by {
        if tm.dom().contains(q) {
            assert(marked_in(m, ph, q));
        }
    }
    assert forall|q: int, i: int|
        tn.dom().contains(q) && 0 <= i < tn[q].len() && #[trigger] tn[q][i] != 0 && n.valid_ptr(
            tn[q][i] as int,
        ) implies marked_in(n, ph, tn[q][i] as int) || t.contains(tn[q][i]) by {
        let e = tn[q][i];
        if tm.dom().contains(q) {
            assert(tm[q][i] == e);
            assert(m.valid_ptr(e as int));
            if marked_in(m, ph, e as int) {
            } else {
                assert(s.contains(e));
                if !t.contains(e) {
                    assert(!n.unmarked(ph).contains(e as int));
                }
            }
        }
    }
    assert forall|i: int|
        0 <= i < roots.len() && #[trigger] roots[i] != 0 && n.valid_ptr(roots[i] as int) implies marked_in(
        n,
        ph,
        roots[i] as int,
    ) || t.contains(roots[i]) by {
        let e = roots[i];
        assert(m.valid_ptr(e as int));
        if !marked_in(m, ph, e as int) {
            assert(s.contains(e));
            if !t.contains(e) {
                assert(!n.unmarked(ph).contains(e as int));
            }
        }
    }
}

/// Marking in phase `ph` only ever marks slots anew; two such steps make one.
proof fn lemma_marks_grow_trans<N>(m: &PageList<N>, n: &PageList<N>, o: &PageList<N>, ph: u64)
    requires
        marks_grow(m, n, ph),
        marks_grow(n, o, ph),
    ensures
        marks_grow(m, o, ph),
{
    assert(pack_word(ph, true) != pack_word(ph, false)) by (bit_vector);
    assert forall|q: int| m.valid_ptr(q) implies {
        &&& (#[trigger] o.node_at(q)).payload() == m.node_at(q).payload()
        &&& o.node_at(q).marker() == m.node_at(q).marker() || (m.node_at(q).marker() == pack_word(ph, false)
            && o.node_at(q).marker() == pack_word(ph, true))
    } by {
        assert(n.valid_ptr(q));
    }
}

proof fn lemma_marks_grow_refl<N>(m: &PageList<N>, ph: u64)
    requires
        m.wf(),
    ensures
        marks_grow(m, m, ph),
{
}

impl<N: DataStructureNode, G: DataStructureGlobals<N>> Allocator<N, G> {
    /// Starts a phase: moves the global phase one on if it still is the
    /// caller's, takes the caller to the global phase, points the sweep
    /// cursor at the phase's first page, and signals every thread whose dirty
    /// word is older than the caller's former phase: its word becomes dirty,
    /// tagged with that phase.
    ///
    /// It also drops every thread's buffer. The sweep of the new phase hands
    /// out every unmarked slot, and a slot still waiting in a buffer is
    /// unmarked; keeping the buffers would hand such a slot out twice.
    fn init_reclamation(&mut self, thread: usize)
        requires
            old(self).wf(),
            thread < old(self).thread_count(),
        ensures
            final(self).wf(),
            final(self).thread_count() == old(self).thread_count(),
            final(self).pages() == old(self).pages(),
            final(self).local(thread as int).phase_index == final(self).phase(),
            final(self).phase() >= old(self).phase(),
            final(self).cursor_current(),
            old(self).local(thread as int).phase_index == old(self).phase() && old(self).phase() < PHASE_CAP
                ==> final(self).phase() == old(self).phase() + 1,
            forall|t: int| 0 <= t < final(self).thread_count() ==> (#[trigger] final(self).local(t)).alloc@
                == Seq::<usize>::empty(),
            final(self).allocation_pool == old(self).allocation_pool,
            old(self).local(thread as int).phase_index == old(self).phase() && old(self).phase() < PHASE_CAP
                ==> cursor_index(final(self).sweep_chunk_index) == 0,
            final(self).last_roots == old(self).last_roots,
            !(old(self).local(thread as int).phase_index == old(self).phase() && old(self).phase() < PHASE_CAP)
                ==> final(self).phase() == old(self).phase(),
            forall|t: int|
                0 <= t < final(self).thread_count() && word_phase(old(self).local(t).dirty@) < old(self).local(
                    thread as int,
                ).phase_index ==> (#[trigger] final(self).local(t)).dirty@ == pack_word(
                    old(self).local(thread as int).phase_index,
                    true,
                ),
            forall|t: int|
                0 <= t < final(self).thread_count() && !(word_phase(old(self).local(t).dirty@) < old(self).local(
                    thread as int,
                ).phase_index) ==> (#[trigger] final(self).local(t)).dirty == old(self).local(t).dirty,
            forall|t: int|
                0 <= t < final(self).thread_count() && t != thread ==> (#[trigger] final(self).local(t)).phase_index
                    == old(self).local(t).phase_index,
            forall|t: int|
                0 <= t < final(self).thread_count() ==> (#[trigger] final(self).local(t)).hazard_ptr_frames
                    == old(self).local(t).hazard_ptr_frames,
    {
        let lphase_index = self.locals[thread].phase_index;
        if self.phase_index == lphase_index && lphase_index < PHASE_CAP {
            self.phase_index = lphase_index + 1;
        }
        let nphase_index = self.phase_index;
        self.locals[thread].phase_index = nphase_index;
        let (cursor_phase_now, _) = PageList::<N>::index_data(self.sweep_chunk_index);
        if cursor_phase_now != nphase_index {
            let c: u64 = nphase_index << 32;
            assert((c >> 32u64) == nphase_index && (c & 0xffff_ffffu64) == 0) by (bit_vector)
                requires
                    c == nphase_index << 32u64,
                    nphase_index <= 0xffff_ffffu64,
            ;
            self.sweep_chunk_index = c;
        }
        let mut t: usize = 0;
        while t < self.locals.len()
            invariant
                self.wf(),
                thread < self.locals.len(),
                self.locals.len() == old(self).locals.len(),
                self.pages == old(self).pages,
                self.phase_index == nphase_index,
                self.phase_index >= old(self).phase_index,
                self.locals[thread as int].phase_index == nphase_index,
                cursor_phase(self.sweep_chunk_index) == nphase_index,
                lphase_index <= nphase_index,
                old(self).locals[thread as int].phase_index == old(self).phase_index && old(self).phase_index
                    < PHASE_CAP ==> nphase_index == old(self).phase_index + 1,
                forall|u: int| 0 <= u < t ==> (#[trigger] self.locals[u]).alloc@ == Seq::<usize>::empty(),
                old(self).locals[thread as int].phase_index == old(self).phase_index && old(self).phase_index
                    < PHASE_CAP ==> cursor_index(self.sweep_chunk_index) == 0,
                self.allocation_pool == old(self).allocation_pool,
                self.last_roots == old(self).last_roots,
                lphase_index == old(self).locals[thread as int].phase_index,
                !(old(self).locals[thread as int].phase_index == old(self).phase_index && old(self).phase_index
                    < PHASE_CAP) ==> nphase_index == old(self).phase_index,
                forall|u: int|
                    0 <= u < t && word_phase(old(self).locals[u].dirty@) < lphase_index ==> (#[trigger] self.locals[u]).dirty@
                        == pack_word(lphase_index, true),
                forall|u: int|
                    0 <= u < t && !(word_phase(old(self).locals[u].dirty@) < lphase_index) ==> (#[trigger] self.locals[u]).dirty
                        == old(self).locals[u].dirty,
                forall|u: int| t <= u < self.locals.len() ==> (#[trigger] self.locals[u]).dirty == old(self).locals[u].dirty,
                forall|u: int|
                    0 <= u < self.locals.len() && u != thread ==> (#[trigger] self.locals[u]).phase_index
                        == old(self).locals[u].phase_index,
                forall|u: int|
                    0 <= u < self.locals.len() ==> (#[trigger] self.locals[u]).hazard_ptr_frames
                        == old(self).locals[u].hazard_ptr_frames,
            decreases self.locals.len() - t,
        {
            let t_dirty = self.locals[t].dirty.get();
            if t_dirty.phase < lphase_index {
                let expected = t_dirty.to_u64();
                let ok = self.locals[t].dirty.update(expected, DirtyValue { dirty: true, phase: lphase_index });
                proof {
                    lemma_pack_canonical(lphase_index, true);
                    assert(ok);
                }
            }
            let _ = self.locals[t].alloc.take();
            proof {
                assert forall|u: int| 0 <= u < self.locals.len() implies (#[trigger] self.locals[u]).wf() && all_valid(
                    &self.pages,
                    self.locals[u].alloc@,
                ) && self.locals[u].phase_index <= self.phase_index && canonical(self.locals[u].dirty@) by {
                    if u == t {
                        assert(self.locals[u].alloc@ == Seq::<usize>::empty());
                    }
                }
            }
            t = t + 1;
        }
    }

    /// Refreshes every slot's marks to the caller's phase, unmarked.
    fn update_marks(&mut self, thread: usize)
        requires
            old(self).wf(),
            thread < old(self).thread_count(),
        ensures
            final(self).wf(),
            final(self).thread_count() == old(self).thread_count(),
            final(self).locals == old(self).locals,
            final(self).phase() == old(self).phase(),
            final(self).sweep_chunk_index == old(self).sweep_chunk_index,
            final(self).pages().page_count() == old(self).pages().page_count(),
            final(self).pages().page_size() == old(self).pages().page_size(),
            forall|q: int|
                old(self).pages().valid_ptr(q) ==> (#[trigger] final(self).pages().node_at(q)).payload() == old(self).pages().node_at(q).payload(),
            old(self).locals[thread as int].phase_index == old(self).phase_index ==> all_in_phase(
                &final(self).pages,
                final(self).phase_index,
            ),
            final(self).allocation_pool == old(self).allocation_pool,
            final(self).last_roots == old(self).last_roots,
            (forall|q: int|
                old(self).pages.valid_ptr(q) ==> word_phase(#[trigger] old(self).pages.node_at(q).marker())
                    < old(self).locals[thread as int].phase_index) ==> forall|q: int|
                final(self).pages.valid_ptr(q) ==> !marked_in(&final(self).pages, final(self).locals[thread as int].phase_index, q),
    {
        let local_phase = self.locals[thread].phase_index;
        self.pages.update_marks(local_phase);
        proof {
            assert(local_phase <= self.phase_index);
            dirty::lemma_dirty_round_trip(local_phase, false);
            assert(pack_word(local_phase, true) != pack_word(local_phase, false)) by (bit_vector);
            if forall|q: int|
                old(self).pages.valid_ptr(q) ==> word_phase(#[trigger] old(self).pages.node_at(q).marker()) < local_phase {
                assert forall|q: int| self.pages.valid_ptr(q) implies !marked_in(&self.pages, local_phase, q) by {
                    assert(old(self).pages.valid_ptr(q));
                }
            }
            if local_phase == self.phase_index {
                assert forall|q: int| self.pages.valid_ptr(q) implies #[trigger] self.pages.node_at(q).marker()
                    == pack_word(local_phase, false) || self.pages.node_at(q).marker() == pack_word(local_phase, true) by {
                    assert(old(self).pages.valid_ptr(q));
                    old(self).pages.lemma_markers_canonical(q);
                }
            }
            assert forall|q: int| self.pages.valid_ptr(q) implies word_phase(
                #[trigger] self.pages.node_at(q).marker(),
            ) <= self.phase_index by {
                assert(old(self).pages.valid_ptr(q));
            }
            self.lemma_keep_valid(old(self));
        }
    }

    /// Moves the global pool to the caller's phase: every buffer it holds
    /// becomes stale.
    fn clear_alloc_pools(&mut self, thread: usize)
        requires
            old(self).wf(),
            thread < old(self).thread_count(),
        ensures
            final(self).wf(),
            final(self).thread_count() == old(self).thread_count(),
            final(self).locals == old(self).locals,
            final(self).phase() == old(self).phase(),
            final(self).sweep_chunk_index == old(self).sweep_chunk_index,
            final(self).pages() == old(self).pages(),
            final(self).last_roots == old(self).last_roots,
            old(self).pool().phase() < old(self).local(thread as int).phase_index ==> {
                &&& final(self).pool().phase() == old(self).local(thread as int).phase_index
                &&& forall|k: int|
                    0 <= k < final(self).pool().cells().len() && (#[trigger] final(self).pool().cells()[k]) is Some
                        ==> final(self).pool().cells()[k].unwrap().0 < final(self).pool().phase()
            },
    {
        let local_phase = self.locals[thread].phase_index;
        proof {
            self.allocation_pool.lemma_phases_bounded();
        }
        let _ = self.allocation_pool.clear(local_phase);
    }

    /// Sweeps the pages that the cursor still names for the caller's phase,
    /// one claimed page at a time.
    fn sweep(&mut self, thread: usize)
        requires
            old(self).wf(),
            thread < old(self).thread_count(),
        ensures
            final(self).wf(),
            final(self).thread_count() == old(self).thread_count(),
            final(self).phase() == old(self).phase(),
            final(self).pages() == old(self).pages(),
            forall|t: int| 0 <= t < final(self).thread_count() ==> (#[trigger] final(self).local(t)).phase_index
                == old(self).local(t).phase_index,
            forall|t: int| 0 <= t < final(self).thread_count() ==> (#[trigger] final(self).local(t)).traced
                == old(self).local(t).traced,
            final(self).last_roots == old(self).last_roots,
            forall|t: int| 0 <= t < final(self).thread_count() ==> (#[trigger] final(self).local(t)).dirty
                == old(self).local(t).dirty,
            final(self).pool().phase() == old(self).pool().phase(),
            (forall|t: int|
                0 <= t < old(self).thread_count() ==> none_marked(
                    &old(self).pages,
                    old(self).locals[thread as int].phase_index,
                    (#[trigger] old(self).locals[t]).alloc@,
                )) && pool_none_marked(&old(self).pages, old(self).locals[thread as int].phase_index, &old(self).allocation_pool)
                ==> (forall|t: int|
                0 <= t < final(self).thread_count() ==> none_marked(
                    &final(self).pages,
                    old(self).locals[thread as int].phase_index,
                    (#[trigger] final(self).locals[t]).alloc@,
                )) && pool_none_marked(&final(self).pages, old(self).locals[thread as int].phase_index, &final(self).allocation_pool),
            old(self).allocation_pool.phase() == old(self).locals[thread as int].phase_index && cursor_phase(
                old(self).sweep_chunk_index,
            ) == old(self).locals[thread as int].phase_index && cursor_index(old(self).sweep_chunk_index) == 0
                ==> forall|q: int|
                final(self).pages.valid_ptr(q) && !word_flag(#[trigger] final(self).pages.node_at(q).marker())
                    ==> in_free_buffers(final(self).locals[thread as int].alloc@, &final(self).allocation_pool, q),
            (exists|q: int|
                final(self).pages.valid_ptr(q) && !word_flag(#[trigger] final(self).pages.node_at(q).marker())) && cursor_phase(
                old(self).sweep_chunk_index,
            ) == old(self).locals[thread as int].phase_index && cursor_index(old(self).sweep_chunk_index) == 0
                ==> final(self).locals[thread as int].alloc@.len() > 0,
    {
        let local_phase = self.locals[thread].phase_index;
        let ghost start = cursor_index(self.sweep_chunk_index) as int;
        let ghost ps = self.pages.page_size();
        loop
            invariant
                self.wf(),
                thread < self.locals.len(),
                self.locals.len() == old(self).locals.len(),
                self.phase_index == old(self).phase_index,
                self.pages == old(self).pages,
                forall|t: int| 0 <= t < self.locals.len() ==> (#[trigger] self.locals[t]).phase_index
                    == old(self).locals[t].phase_index,
                forall|t: int| 0 <= t < self.locals.len() ==> (#[trigger] self.locals[t]).traced
                    == old(self).locals[t].traced,
                self.last_roots == old(self).last_roots,
                forall|t: int| 0 <= t < self.locals.len() ==> (#[trigger] self.locals[t]).dirty == old(self).locals[t].dirty,
                local_phase == old(self).locals[thread as int].phase_index,
                self.allocation_pool.phase() == old(self).allocation_pool.phase(),
                (forall|t: int|
                    0 <= t < old(self).locals.len() ==> none_marked(
                        &old(self).pages,
                        local_phase,
                        (#[trigger] old(self).locals[t]).alloc@,
                    )) && pool_none_marked(&old(self).pages, local_phase, &old(self).allocation_pool) ==> (forall|t: int|
                    0 <= t < self.locals.len() ==> none_marked(&self.pages, local_phase, (#[trigger] self.locals[t]).alloc@))
                    && pool_none_marked(&self.pages, local_phase, &self.allocation_pool),
                start == cursor_index(old(self).sweep_chunk_index),
                ps == self.pages.page_size(),
                cursor_phase(old(self).sweep_chunk_index) == local_phase ==> cursor_phase(self.sweep_chunk_index)
                    == local_phase && start <= cursor_index(self.sweep_chunk_index),
                old(self).allocation_pool.phase() == local_phase && cursor_phase(old(self).sweep_chunk_index)
                    == local_phase ==> forall|p: int, i: int|
                    start <= p < cursor_index(self.sweep_chunk_index) && 0 <= i < ps && !word_flag(
                        #[trigger] self.pages.node_at(data_ptr(ps, p, i)).marker(),
                    ) ==> in_free_buffers(self.locals[thread as int].alloc@, &self.allocation_pool, data_ptr(ps, p, i)),
                (exists|p: int, i: int|
                    start <= p < cursor_index(self.sweep_chunk_index) && 0 <= i < ps && !word_flag(
                        #[trigger] self.pages.node_at(data_ptr(ps, p, i)).marker(),
                    )) ==> self.locals[thread as int].alloc@.len() > 0,
            decreases self.pages.page_count() - cursor_index(self.sweep_chunk_index),
        {
            let ghost before = *self;
            let claimed = self.pages.get_page(&mut self.sweep_chunk_index, local_phase);
            proof {
                if claimed is Some {
                    before.pages.lemma_capacity_bound();
                    assert(cursor_index(before.sweep_chunk_index) < before.pages.page_count());
                    assert(cursor_phase(before.sweep_chunk_index) == local_phase);
                    assert(claimed.unwrap() as int == cursor_index(before.sweep_chunk_index) as int);
                }
            }
            match claimed {
                Some(page) => {
                    self.locals[thread].sweep_page(&self.pages, page, &mut self.allocation_pool);
                    proof {
                        assert forall|k: int|
                            0 <= k < self.allocation_pool.cells().len() && (#[trigger] self.allocation_pool.cells()[k]) is Some
                                implies self.allocation_pool.cells()[k].unwrap().1@.len() > 0 by {
                            if k < before.allocation_pool.cells().len() && self.allocation_pool.cells()[k]
                                == before.allocation_pool.cells()[k] {
                                assert(before.allocation_pool.cells()[k] is Some);
                            }
                        }
                        if exists|p: int, i: int|
                            start <= p < cursor_index(self.sweep_chunk_index) && 0 <= i < ps && !word_flag(
                                #[trigger] self.pages.node_at(data_ptr(ps, p, i)).marker(),
                            ) {
                            let (p, i) = choose|p: int, i: int|
                                start <= p < cursor_index(self.sweep_chunk_index) && 0 <= i < ps && !word_flag(
                                    #[trigger] self.pages.node_at(data_ptr(ps, p, i)).marker(),
                                );
                            if p >= cursor_index(before.sweep_chunk_index) {
                                assert(p == page);
                            } else {
                                assert(before.locals[thread as int].alloc@.len() > 0);
                            }
                        }
                        if old(self).allocation_pool.phase() == local_phase && cursor_phase(old(self).sweep_chunk_index)
                            == local_phase {
                            assert(before.allocation_pool.phase() == local_phase);
                            assert(cursor_phase(before.sweep_chunk_index) == local_phase);
                            assert(page as int == cursor_index(before.sweep_chunk_index) as int);
                            assert(cursor_index(self.sweep_chunk_index) == cursor_index(before.sweep_chunk_index) + 1);
                            assert forall|p: int, i: int|
                                start <= p < cursor_index(self.sweep_chunk_index) && 0 <= i < ps && !word_flag(
                                    #[trigger] self.pages.node_at(data_ptr(ps, p, i)).marker(),
                                ) implies in_free_buffers(
                                self.locals[thread as int].alloc@,
                                &self.allocation_pool,
                                data_ptr(ps, p, i),
                            ) by {
                                if p < cursor_index(before.sweep_chunk_index) {
                                    assert(in_free_buffers(
                                        before.locals[thread as int].alloc@,
                                        &before.allocation_pool,
                                        data_ptr(ps, p, i),
                                    ));
                                } else {
                                    assert(p == page);
                                }
                            }
                        }
                    }
                },
                None => {
                    proof {
                        if (exists|q: int|
                            self.pages.valid_ptr(q) && !word_flag(#[trigger] self.pages.node_at(q).marker()))
                            && cursor_phase(old(self).sweep_chunk_index) == local_phase && start == 0 {
                            let q = choose|q: int|
                                self.pages.valid_ptr(q) && !word_flag(#[trigger] self.pages.node_at(q).marker());
                            self.pages.lemma_capacity_bound();
                            allocator::page::lemma_ptr_in_range(ps, self.pages.page_count(), q);
                            let p = allocator::page::ptr_page(ps, q);
                            let i = allocator::page::ptr_index(ps, q);
                            assert(data_ptr(ps, p, i) == q);
                            assert(!word_flag(self.pages.node_at(data_ptr(ps, p, i)).marker()));
                        }
                        if old(self).allocation_pool.phase() == local_phase && cursor_phase(old(self).sweep_chunk_index)
                            == local_phase && start == 0 {
                            assert forall|q: int|
                                self.pages.valid_ptr(q) && !word_flag(#[trigger] self.pages.node_at(q).marker()) implies in_free_buffers(
                                self.locals[thread as int].alloc@,
                                &self.allocation_pool,
                                q,
                            ) by {
                                self.pages.lemma_capacity_bound();
                                allocator::page::lemma_ptr_in_range(ps, self.pages.page_count(), q);
                                let p = allocator::page::ptr_page(ps, q);
                                let i = allocator::page::ptr_index(ps, q);
                                assert(data_ptr(ps, p, i) == q);
                            }
                        }
                    }
                    return ;
                },
            }
        }
    }

    /// Brings thread `thread` back to a clean point: clears its dirty flag
    /// and takes it to the global phase.
    ///
    /// This hook has no fixed meaning beyond taking part in reclamation. It
    /// is the safe point at which a thread clears its dirty word by a
    /// compare-and-set on the exact word it read; nothing else clears it,
    /// so without this `validate_read` would refuse forever after a thread
    /// was signalled.
    pub fn restart(&mut self, thread: usize)
        requires
            old(self).wf(),
            thread < old(self).thread_count(),
        ensures
            final(self).wf(),
            final(self).thread_count() == old(self).thread_count(),
            final(self).pages() == old(self).pages(),
            final(self).phase() == old(self).phase(),
            !word_flag(final(self).local(thread as int).dirty@),
            word_phase(final(self).local(thread as int).dirty@) == word_phase(old(self).local(thread as int).dirty@),
            final(self).local(thread as int).phase_index == final(self).phase(),
    {
        let d = self.locals[thread].dirty.get();
        let ghost w = self.locals[thread as int].dirty@;
        if d.dirty {
            let raw = d.to_u64();
            let _ = self.locals[thread].dirty.update(raw, DirtyValue { dirty: false, phase: d.phase });
            proof {
                let dp = d.phase;
                assert(dp < 0x0100_0000_0000_0000u64) by (bit_vector)
                    requires
                        dp == w >> 8u64,
                ;
                lemma_pack_canonical(d.phase, false);
                dirty::lemma_dirty_round_trip(d.phase, false);
            }
        }
        self.locals[thread].phase_index = self.phase_index;
    }

    /// An allocator over one page of `PAGE_SIZE` slots, with one thread
    /// context (index 0) for the caller. It sweeps that page at once, which
    /// fills the caller's buffer and the global pool.
    pub fn new(globals: G) -> (r: Self)
        ensures
            r.wf(),
            r.thread_count() == 1,
            r.pages().page_count() == 1,
            r.pages().page_size() == PAGE_SIZE,
            r.phase() == 0,
            forall|q: int| r.pages().valid_ptr(q) ==> #[trigger] in_free_buffers(r.local(0).alloc@, &r.pool(), q),
            r.local(0).alloc@.len() > 0,
    {
        let mut locals: Vec<Local> = Vec::new();
        locals.push(Local::new());
        let mut result = Self {
            phase_index: 0,
            locals,
            allocation_pool: GlobalAllocPool::new(),
            pages: PageList::new(PAGE_SIZE),
            sweep_chunk_index: 0,
            globals,
            last_roots: Ghost(Seq::empty()),
        };
        proof {
            lemma_pack_canonical(0, false);
            assert(pack_word(0, false) == 0) by (bit_vector);
            assert(result.locals[0].alloc@ == Seq::<usize>::empty());
            assert(word_phase(0u64) == 0) by (bit_vector);
            assert(cursor_phase(0u64) == 0) by (bit_vector);
            assert(cursor_index(0u64) == 0) by (bit_vector);
            assert(word_flag(0u64) == false) by (bit_vector);
        }
        let ghost fresh = result.pages;
        result.sweep(0);
        proof {
            assert forall|q: int| result.pages().valid_ptr(q) implies #[trigger] in_free_buffers(
                result.local(0).alloc@,
                &result.pool(),
                q,
            ) by {
                assert(fresh.node_at(q).marker() == 0);
                assert(!word_flag(result.pages.node_at(q).marker()));
            }
            assert(result.pages.valid_ptr(1));
            assert(fresh.node_at(1).marker() == 0);
            assert(!word_flag(result.pages.node_at(1).marker()));
        }
        result
    }

    /// Pushes `node` onto thread `thread`'s mark stack, where that thread is
    /// in the global phase.
    fn help(&mut self, thread: usize, node: usize)
        requires
            old(self).wf(),
            thread < old(self).thread_count(),
        ensures
            final(self).wf(),
            final(self).pages == old(self).pages,
            final(self).phase_index == old(self).phase_index,
            final(self).sweep_chunk_index == old(self).sweep_chunk_index,
            final(self).last_roots == old(self).last_roots,
            final(self).allocation_pool == old(self).allocation_pool,
            final(self).locals.len() == old(self).locals.len(),
            forall|t: int|
                0 <= t < final(self).locals.len() && t != thread ==> #[trigger] final(self).locals[t] == old(self).locals[t],
            final(self).locals[thread as int].phase_index == old(self).locals[thread as int].phase_index,
            final(self).locals[thread as int].alloc == old(self).locals[thread as int].alloc,
            final(self).locals[thread as int].cur_traced == old(self).locals[thread as int].cur_traced,
            final(self).locals[thread as int].dirty == old(self).locals[thread as int].dirty,
            final(self).locals[thread as int].traced == old(self).locals[thread as int].traced,
            forall|p: usize|
                old(self).locals[thread as int].mark_stack.contains(p) ==> #[trigger] final(self).locals[thread as int].mark_stack.contains(p),
            old(self).locals[thread as int].phase_index == old(self).phase_index && node != 0 ==> final(self).locals[thread as int].mark_stack.contains(node),
            old(self).locals[thread as int].phase_index == old(self).phase_index ==> (
                final(self).locals[thread as int].mark_stack.cells(),
                final(self).locals[thread as int].mark_stack.head(),
            ) == push_model(
                old(self).locals[thread as int].mark_stack.cells(),
                old(self).locals[thread as int].mark_stack.head(),
                node,
            ),
    {
        if self.locals[thread].phase_index == self.phase_index {
            self.locals[thread].mark_stack.push(node);
        }
    }

    /// Looks for marking left to do in any thread's published state: a node
    /// being traced, or a pointer on a mark stack, that is unmarked in this
    /// phase. It goes onto thread `thread`'s own stack, and the answer is
    /// `false`. The answer is also `false` where a thread's traced node or
    /// phase changed between the first and the last look; else it is `true`.
    fn finish_or_progress(&mut self, thread: usize) -> (r: bool)
        requires
            old(self).wf(),
            thread < old(self).thread_count(),
            old(self).locals[thread as int].phase_index == old(self).phase_index,
            all_in_phase(&old(self).pages, old(self).phase_index),
        ensures
            final(self).wf(),
            final(self).pages == old(self).pages,
            final(self).phase_index == old(self).phase_index,
            final(self).sweep_chunk_index == old(self).sweep_chunk_index,
            final(self).last_roots == old(self).last_roots,
            final(self).allocation_pool == old(self).allocation_pool,
            final(self).locals.len() == old(self).locals.len(),
            r ==> forall|t: int|
                0 <= t < old(self).locals.len() ==> cur_traced_marked(
                    &old(self).pages,
                    old(self).phase_index,
                    #[trigger] old(self).locals[t],
                ) && stack_marked(&old(self).pages, old(self).phase_index, old(self).locals[t]),
            forall|t: int|
                0 <= t < final(self).locals.len() && t != thread ==> #[trigger] final(self).locals[t] == old(self).locals[t],
            final(self).locals[thread as int].phase_index == old(self).locals[thread as int].phase_index,
            final(self).locals[thread as int].alloc == old(self).locals[thread as int].alloc,
            final(self).locals[thread as int].dirty == old(self).locals[thread as int].dirty,
            final(self).locals[thread as int].traced == old(self).locals[thread as int].traced,
            r ==> *final(self) == *old(self),
            forall|p: usize|
                old(self).locals[thread as int].mark_stack.contains(p) ==> #[trigger] final(self).locals[thread as int].mark_stack.contains(p),
            !r ==> exists|u: usize|
                #[trigger] final(self).locals[thread as int].mark_stack.contains(u) && final(self).pages.unmarked(
                    final(self).phase_index,
                ).contains(u as int),
            !r ==> exists|u: usize|
                #[trigger] helped(old(self).locals@, old(self).phase_index, u) && old(self).pages.unmarked(
                    old(self).phase_index,
                ).contains(u as int) && (
                    final(self).locals[thread as int].mark_stack.cells(),
                    final(self).locals[thread as int].mark_stack.head(),
                ) == push_model(
                    old(self).locals[thread as int].mark_stack.cells(),
                    old(self).locals[thread as int].mark_stack.head(),
                    u,
                ),
    {
        let local_phase = self.locals[thread].phase_index;
        let n = self.locals.len();
        let mut threads: Vec<bool> = Vec::new();
        let mut cur_phase: Vec<u64> = Vec::new();
        let mut cur_traces: Vec<usize> = Vec::new();
        let mut t: usize = 0;
        while t < n
            invariant
                *self == *old(self),
                all_in_phase(&self.pages, self.phase_index),
                self.wf(),
                thread < n,
                self.locals[thread as int].phase_index == self.phase_index,
                n == self.locals.len(),
                local_phase == self.phase_index,
                t <= n,
                threads.len() == t,
                cur_phase.len() == t,
                cur_traces.len() == t,
                forall|u: int|
                    0 <= u < t && #[trigger] threads[u] ==> cur_phase[u] == self.locals[u].phase_index
                        && cur_traces[u] == self.locals[u].cur_traced,
                forall|u: int| 0 <= u < t ==> (#[trigger] threads[u] <==> self.locals[u].cur_traced != 0),
                forall|u: int| 0 <= u < t ==> cur_traced_marked(&self.pages, local_phase, #[trigger] self.locals[u]),
            decreases n - t,
        {
            let tmp_phase = self.locals[t].phase_index;
            let tmp_cur_traced = self.locals[t].cur_traced;
            if tmp_cur_traced == 0 {
                threads.push(false);
                cur_phase.push(0);
                cur_traces.push(0);
            } else {
                threads.push(true);
                cur_phase.push(tmp_phase);
                cur_traces.push(tmp_cur_traced);
                if tmp_phase == local_phase && self.pages.from_data_ptr(tmp_cur_traced).is_some() {
                    let marks = self.pages.load_marks(tmp_cur_traced);
                    if marks.phase == local_phase && !marks.marked {
                        proof {
                            self.pages.lemma_markers_canonical(tmp_cur_traced as int);
                        }
                        self.help(thread, tmp_cur_traced);
                        assert(helped(old(self).locals@, old(self).phase_index, tmp_cur_traced));
                        return false;
                    }
                    proof {
                        lemma_not_unmarked_is_marked(&self.pages, local_phase, tmp_cur_traced as int);
                    }
                }
            }
            t = t + 1;
        }
        let mut t: usize = 0;
        while t < n
            invariant
                *self == *old(self),
                all_in_phase(&self.pages, self.phase_index),
                self.wf(),
                thread < n,
                self.locals[thread as int].phase_index == self.phase_index,
                n == self.locals.len(),
                local_phase == self.phase_index,
                threads.len() == n,
                cur_phase.len() == n,
                cur_traces.len() == n,
                forall|u: int|
                    0 <= u < n && #[trigger] threads[u] ==> cur_phase[u] == self.locals[u].phase_index
                        && cur_traces[u] == self.locals[u].cur_traced,
                forall|u: int| 0 <= u < n ==> (#[trigger] threads[u] <==> self.locals[u].cur_traced != 0),
                forall|u: int| 0 <= u < n ==> cur_traced_marked(&self.pages, local_phase, #[trigger] self.locals[u]),
                t <= n,
                forall|u: int| 0 <= u < t ==> stack_marked(&self.pages, local_phase, #[trigger] self.locals[u]),
            decreases n - t,
        {
            if threads[t] && cur_phase[t] == local_phase {
                let mut it = self.locals[t].mark_stack.iter();
                let ghost lead = leading(self.locals[t as int].mark_stack.cells());
                loop
                    invariant
                        *self == *old(self),
                        all_in_phase(&self.pages, self.phase_index),
                        self.wf(),
                        thread < n,
                        t < n,
                        self.locals[thread as int].phase_index == self.phase_index,
                        n == self.locals.len(),
                        local_phase == self.phase_index,
                        it.wf(),
                        lead == leading(self.locals[t as int].mark_stack.cells()),
                        threads.len() == n,
                        cur_phase.len() == n,
                        threads[t as int],
                        cur_phase[t as int] == local_phase,
                        cur_phase[t as int] == self.locals[t as int].phase_index,
                        self.locals[t as int].cur_traced != 0,
                        it.rest().len() <= lead.len(),
                        it.rest() == lead.subrange(lead.len() - it.rest().len(), lead.len() as int),
                        forall|j: int|
                            0 <= j < lead.len() - it.rest().len() && self.pages.valid_ptr(#[trigger] lead[j] as int)
                                ==> marked_in(&self.pages, local_phase, lead[j] as int),
                    ensures
                        forall|j: int|
                            0 <= j < lead.len() && self.pages.valid_ptr(#[trigger] lead[j] as int) ==> marked_in(
                                &self.pages,
                                local_phase,
                                lead[j] as int,
                            ),
                    decreases it.rest().len(),
                {
                    let ghost before_rest = it.rest();
                    match it.next() {
                        None => {
                            break ;
                        },
                        Some(node) => {
                            proof {
                                let m = lead.len() - before_rest.len();
                                assert(node == lead[m]);
                                assert(it.rest() =~= lead.subrange(lead.len() - it.rest().len(), lead.len() as int));
                            }
                            if self.pages.from_data_ptr(node).is_some() {
                                let marks = self.pages.load_marks(node);
                                if marks.phase == local_phase && !marks.marked {
                                    proof {
                                        self.pages.lemma_markers_canonical(node as int);
                                    }
                                    proof {
                                        assert(threads[t as int]);
                                        assert(old(self).locals[t as int].phase_index == old(self).phase_index);
                                        assert(old(self).locals[t as int].cur_traced != 0);
                                        assert(lead == leading(old(self).locals[t as int].mark_stack.cells()));
                                    }
                                    self.help(thread, node);
                                    proof {
                                        let m = lead.len() - before_rest.len();
                                        assert(lead[m] == node);
                                        assert(lead.contains(node));
                                        assert(helped(old(self).locals@, old(self).phase_index, node));
                                    }
                                    return false;
                                }
                                proof {
                                    lemma_not_unmarked_is_marked(&self.pages, local_phase, node as int);
                                }
                            }
                        },
                    }
                }
            }
            t = t + 1;
        }
        let mut t: usize = 0;
        while t < n
            invariant
                *self == *old(self),
                all_in_phase(&self.pages, self.phase_index),
                self.wf(),
                thread < n,
                self.locals[thread as int].phase_index == self.phase_index,
                n == self.locals.len(),
                forall|u: int|
                    0 <= u < n ==> cur_traced_marked(&self.pages, self.phase_index, #[trigger] self.locals[u])
                        && stack_marked(&self.pages, self.phase_index, self.locals[u]),
                threads.len() == n,
                cur_phase.len() == n,
                cur_traces.len() == n,
                forall|u: int|
                    0 <= u < n && #[trigger] threads[u] ==> cur_phase[u] == self.locals[u].phase_index
                        && cur_traces[u] == self.locals[u].cur_traced,
            decreases n - t,
        {
            if threads[t] {
                if cur_traces[t] != self.locals[t].cur_traced {
                    return false;
                }
                if cur_phase[t] != self.locals[t].phase_index {
                    return false;
                }
            }
            t = t + 1;
        }
        true
    }

    /// Traces from `roots` in thread `thread`'s phase until no thread has
    /// marking left to do: every node that is reached gets marked.
    fn trace(&mut self, thread: usize, roots: Vec<usize>)
        requires
            old(self).wf(),
            thread < old(self).thread_count(),
            old(self).locals[thread as int].phase_index == old(self).phase_index,
            all_in_phase(&old(self).pages, old(self).phase_index),
        ensures
            final(self).wf(),
            final(self).phase_index == old(self).phase_index,
            final(self).locals.len() == old(self).locals.len(),
            marks_grow(&old(self).pages, &final(self).pages, old(self).phase_index),
            all_in_phase(&final(self).pages, old(self).phase_index),
            trace_closed(&final(self).pages, old(self).phase_index, final(self).locals[thread as int].traced@, roots@),
            forall|q: int|
                marked_in(&final(self).pages, old(self).phase_index, q) ==> marked_in(&old(self).pages, old(self).phase_index, q)
                    || final(self).locals[thread as int].traced@.dom().contains(q),
            forall|t: int| 0 <= t < final(self).locals.len() ==> (#[trigger] final(self).locals[t]).phase_index
                == old(self).locals[t].phase_index,
            final(self).sweep_chunk_index == old(self).sweep_chunk_index,
            final(self).last_roots == old(self).last_roots,
            final(self).allocation_pool == old(self).allocation_pool,
            forall|t: int| 0 <= t < final(self).locals.len() ==> (#[trigger] final(self).locals[t]).alloc
                == old(self).locals[t].alloc,
            forall|t: int| 0 <= t < final(self).locals.len() ==> (#[trigger] final(self).locals[t]).dirty
                == old(self).locals[t].dirty,
            final(self).locals[thread as int].mark_stack.items() == Set::<int>::empty(),
    {
        let local_phase = self.locals[thread].phase_index;
        self.locals[thread].traced = Ghost(Map::empty());
        let mut k: usize = 0;
        while k < roots.len()
            invariant
                self.wf(),
                self.locals[thread as int].traced@ == Map::<int, Seq<usize>>::empty(),
                forall|j: int| 0 <= j < k && roots@[j] != 0 ==> self.locals[thread as int].mark_stack.contains(#[trigger] roots@[j]),
                thread < self.locals.len(),
                self.locals.len() == old(self).locals.len(),
                self.pages == old(self).pages,
                self.phase_index == old(self).phase_index,
                self.sweep_chunk_index == old(self).sweep_chunk_index,
                self.last_roots == old(self).last_roots,
                forall|t: int| 0 <= t < self.locals.len() ==> (#[trigger] self.locals[t]).dirty == old(self).locals[t].dirty,
                self.allocation_pool == old(self).allocation_pool,
                forall|t: int| 0 <= t < self.locals.len() ==> (#[trigger] self.locals[t]).alloc == old(self).locals[t].alloc,
                forall|t: int| 0 <= t < self.locals.len() ==> (#[trigger] self.locals[t]).phase_index
                    == old(self).locals[t].phase_index,
            decreases roots.len() - k,
        {
            self.locals[thread].mark_stack.push(roots[k]);
            k = k + 1;
        }
        assert(trace_frontier(&self.pages, local_phase, &self.locals[thread as int].mark_stack, self.locals[thread as int].traced@, roots@));
        proof {
            lemma_marks_grow_refl(&self.pages, local_phase);
        }
        let ghost mut first: bool = true;
        loop
            invariant_except_break
                !first ==> exists|u: usize|
                    #[trigger] self.locals[thread as int].mark_stack.contains(u) && self.pages.unmarked(
                        local_phase,
                    ).contains(u as int),
            invariant
                self.wf(),
                thread < self.locals.len(),
                self.locals.len() == old(self).locals.len(),
                self.phase_index == old(self).phase_index,
                local_phase == self.phase_index,
                old(self).locals[thread as int].phase_index == old(self).phase_index,
                self.sweep_chunk_index == old(self).sweep_chunk_index,
                self.last_roots == old(self).last_roots,
                forall|t: int| 0 <= t < self.locals.len() ==> (#[trigger] self.locals[t]).dirty == old(self).locals[t].dirty,
                self.allocation_pool == old(self).allocation_pool,
                forall|t: int| 0 <= t < self.locals.len() ==> (#[trigger] self.locals[t]).alloc == old(self).locals[t].alloc,
                forall|t: int| 0 <= t < self.locals.len() ==> (#[trigger] self.locals[t]).phase_index
                    == old(self).locals[t].phase_index,
                marks_grow(&old(self).pages, &self.pages, local_phase),
                all_in_phase(&self.pages, local_phase),
                trace_frontier(&self.pages, local_phase, &self.locals[thread as int].mark_stack, self.locals[thread as int].traced@, roots@),
                forall|q: int| marked_in(&self.pages, local_phase, q) ==> marked_in(&old(self).pages, local_phase, q) || self.locals[thread as int].traced@.dom().contains(q),
            ensures
                trace_closed(&self.pages, local_phase, self.locals[thread as int].traced@, roots@),
                self.locals[thread as int].mark_stack.items() == Set::<int>::empty(),
            decreases self.pages.unmarked(local_phase).len(), if first {
                1int
            } else {
                0int
            },
        {
            let ghost start = self.pages;
            let ghost pending: Option<usize> = if first {
                None
            } else {
                Some(
                    choose|u: usize|
                        #[trigger] self.locals[thread as int].mark_stack.contains(u) && self.pages.unmarked(
                            local_phase,
                        ).contains(u as int),
                )
            };
            proof {
                start.lemma_unmarked_finite(local_phase);
            }
            loop
                invariant
                    self.wf(),
                    thread < self.locals.len(),
                    self.locals.len() == old(self).locals.len(),
                    self.phase_index == old(self).phase_index,
                    local_phase == self.phase_index,
                    old(self).locals[thread as int].phase_index == old(self).phase_index,
                    self.sweep_chunk_index == old(self).sweep_chunk_index,
                    self.last_roots == old(self).last_roots,
                    forall|t: int| 0 <= t < self.locals.len() ==> (#[trigger] self.locals[t]).dirty == old(self).locals[t].dirty,
                    self.allocation_pool == old(self).allocation_pool,
                    forall|t: int| 0 <= t < self.locals.len() ==> (#[trigger] self.locals[t]).alloc == old(self).locals[t].alloc,
                    forall|t: int| 0 <= t < self.locals.len() ==> (#[trigger] self.locals[t]).phase_index
                        == old(self).locals[t].phase_index,
                    marks_grow(&old(self).pages, &self.pages, local_phase),
                    marks_grow(&start, &self.pages, local_phase),
                    self.pages.unmarked(local_phase).subset_of(start.unmarked(local_phase)),
                    pending is Some ==> start.unmarked(local_phase).contains(pending.unwrap() as int),
                    all_in_phase(&self.pages, local_phase),
                    trace_frontier(&self.pages, local_phase, &self.locals[thread as int].mark_stack, self.locals[thread as int].traced@, roots@),
                    forall|q: int| marked_in(&self.pages, local_phase, q) ==> marked_in(&old(self).pages, local_phase, q) || self.locals[thread as int].traced@.dom().contains(q),
                    pending is Some ==> self.locals[thread as int].mark_stack.contains(pending.unwrap())
                        || !self.pages.unmarked(local_phase).contains(pending.unwrap() as int),
                ensures
                    self.locals[thread as int].mark_stack.items() == Set::<int>::empty(),
                decreases self.pages.unmarked(local_phase).len(), self.locals[thread as int].mark_stack.items().len(),
            {
                let ghost before_pages = self.pages;
                let ghost before_stack = self.locals[thread as int].mark_stack;
                let ghost before_traced = self.locals[thread as int].traced@;
                proof {
                    assert forall|q: int| #[trigger] before_traced.dom().contains(q) implies !before_pages.unmarked(local_phase).contains(q) by {
                        assert(marked_in(&before_pages, local_phase, q));
                        assert(pack_word(local_phase, true) != pack_word(local_phase, false)) by (bit_vector);
                    }
                    before_pages.lemma_unmarked_finite(local_phase);
                    before_stack.lemma_items_finite();
                }
                let state = self.locals[thread].mark_node(&mut self.pages, local_phase);
                proof {
                    lemma_marks_grow_trans(&old(self).pages, &before_pages, &self.pages, local_phase);
                    lemma_marks_grow_trans(&start, &before_pages, &self.pages, local_phase);
                    lemma_frontier_step(
                        &before_pages,
                        &self.pages,
                        local_phase,
                        &before_stack,
                        &self.locals[thread as int].mark_stack,
                        before_traced,
                        self.locals[thread as int].traced@,
                        roots@,
                    );
                    dirty::lemma_dirty_round_trip(local_phase, true);
                    assert forall|q: int| self.pages.valid_ptr(q) implies word_phase(
                        #[trigger] self.pages.node_at(q).marker(),
                    ) <= self.phase_index by {
                        assert(before_pages.valid_ptr(q));
                    }
                    self.lemma_keep_valid_marks(&before_pages);
                }
                match state {
                    MarkNodeState::Done => {
                        break ;
                    },
                    MarkNodeState::NotDone => {},
                }
            }
            proof {
                self.pages.lemma_unmarked_finite(local_phase);
                vstd::set_lib::lemma_len_subset(self.pages.unmarked(local_phase), start.unmarked(local_phase));
                if pending is Some {
                    let u = pending.unwrap();
                    assert(!self.locals[thread as int].mark_stack.contains(u)) by {
                        if self.locals[thread as int].mark_stack.contains(u) {
                            let k = choose|k: int|
                                0 <= k < self.locals[thread as int].mark_stack.cells().len()
                                    && self.locals[thread as int].mark_stack.cells()[k] == u;
                            assert(self.locals[thread as int].mark_stack.items().contains(k));
                        }
                    }
                    assert(self.pages.unmarked(local_phase).subset_of(
                        start.unmarked(local_phase).remove(u as int),
                    ));
                    vstd::set_lib::lemma_len_subset(
                        self.pages.unmarked(local_phase),
                        start.unmarked(local_phase).remove(u as int),
                    );
                }
            }
            if self.finish_or_progress(thread) {
                proof {
                    let st = self.locals[thread as int].mark_stack;
                    assert forall|p: usize| !st.contains(p) by {
                        if st.contains(p) {
                            let k = choose|k: int| 0 <= k < st.cells().len() && st.cells()[k] == p;
                            assert(st.items().contains(k));
                        }
                    }
                    let tr = self.locals[thread as int].traced@;
                    assert forall|q: int, i: int|
                        tr.dom().contains(q) && 0 <= i < tr[q].len() && #[trigger] tr[q][i] != 0 && self.pages.valid_ptr(
                            tr[q][i] as int,
                        ) implies marked_in(&self.pages, local_phase, tr[q][i] as int) by {
                        assert(!st.contains(tr[q][i]));
                    }
                    assert forall|i: int|
                        0 <= i < roots@.len() && #[trigger] roots@[i] != 0 && self.pages.valid_ptr(roots@[i] as int) implies marked_in(
                        &self.pages,
                        local_phase,
                        roots@[i] as int,
                    ) by {
                        assert(!st.contains(roots@[i]));
                    }
                }
                break ;
            }
            proof {
                first = false;
            }
        }
    }

    /// The pointers in every thread's two hazard frames, untagged.
    fn local_roots(&self) -> (r: Vec<usize>)
        requires
            self.wf(),
        ensures
            r@.len() == hazard_count(self.locals@),
    {
        let mut result: Vec<usize> = Vec::new();
        let mut t: usize = 0;
        while t < self.locals.len()
            invariant
                t <= self.locals.len(),
                result@.len() == hazard_count(self.locals@.subrange(0, t as int)),
            decreases self.locals.len() - t,
        {
            let ghost base = result@.len();
            let ghost l = self.locals[t as int];
            let mut f: usize = 0;
            while f < 2
                invariant
                    t < self.locals.len(),
                    f <= 2,
                    l == self.locals[t as int],
                    result@.len() == base + if f == 0 {
                        0
                    } else if f == 1 {
                        hazard_ptrs::roots_of(l.hazard_ptr_frames[0]@).len() as int
                    } else {
                        frame_roots_len(l)
                    },
                decreases 2 - f,
            {
                let roots = self.locals[t].hazard_ptr_frames[f].roots();
                let ghost start = result@.len();
                let mut k: usize = 0;
                while k < roots.len()
                    invariant
                        k <= roots.len(),
                        result@.len() == start + k,
                    decreases roots.len() - k,
                {
                    result.push(N::untag_ptr(roots[k]));
                    k = k + 1;
                }
                f = f + 1;
            }
            assert(self.locals@.subrange(0, t + 1).drop_last() =~= self.locals@.subrange(0, t as int));
            t = t + 1;
        }
        assert(self.locals@.subrange(0, self.locals.len() as int) =~= self.locals@);
        result
    }

    /// The data structure's own roots.
    fn global_roots(&self) -> (r: Vec<usize>) {
        self.globals.get_globals()
    }

    /// Every root: the hazard pointers of all threads, then the globals.
    fn gather_roots(&self) -> (r: Vec<usize>)
        requires
            self.wf(),
        ensures
            r@.len() >= hazard_count(self.locals@),
    {
        let mut result = self.local_roots();
        let globals = self.global_roots();
        let ghost hc = result@.len();
        let mut k: usize = 0;
        while k < globals.len()
            invariant
                k <= globals.len(),
                result@.len() == hc + k,
            decreases globals.len() - k,
        {
            result.push(globals[k]);
            k = k + 1;
        }
        result
    }

    /// One round of reclamation on thread `thread`: start a phase, clear the
    /// marks, move the pool to the phase, gather the roots, trace, sweep.
    fn reclamation(&mut self, thread: usize)
        requires
            old(self).wf(),
            thread < old(self).thread_count(),
        ensures
            final(self).wf(),
            final(self).thread_count() == old(self).thread_count(),
            final(self).pages().page_count() == old(self).pages().page_count(),
            final(self).pages().page_size() == old(self).pages().page_size(),
            forall|q: int|
                old(self).pages().valid_ptr(q) ==> (#[trigger] final(self).pages().node_at(q)).payload() == old(self).pages().node_at(q).payload(),
            final(self).local(thread as int).phase_index == final(self).phase(),
            final(self).phase() >= old(self).phase(),
            old(self).local(thread as int).phase_index == old(self).phase() && old(self).phase() < PHASE_CAP
                ==> final(self).phase() == old(self).phase() + 1,
            all_in_phase(&final(self).pages(), final(self).phase()),
            trace_closed(&final(self).pages(), final(self).phase(), final(self).local(thread as int).traced@, final(self).roots()),
            old(self).local(thread as int).phase_index == old(self).phase() && old(self).phase() < PHASE_CAP
                ==> reclaimed(final(self), thread as int),
            forall|t: int|
                0 <= t < final(self).thread_count() && word_phase(old(self).local(t).dirty@) < old(self).local(
                    thread as int,
                ).phase_index ==> (#[trigger] final(self).local(t)).dirty@ == pack_word(
                    old(self).local(thread as int).phase_index,
                    true,
                ),
            forall|t: int|
                0 <= t < final(self).thread_count() && !(word_phase(old(self).local(t).dirty@) < old(self).local(
                    thread as int,
                ).phase_index) ==> (#[trigger] final(self).local(t)).dirty == old(self).local(t).dirty,
            !(old(self).local(thread as int).phase_index == old(self).phase() && old(self).phase() < PHASE_CAP)
                ==> final(self).phase() == old(self).phase(),
            final(self).roots().len() >= hazard_count(old(self).contexts()),
    {
        self.init_reclamation(thread);
        let ghost s1 = *self;
        proof {
            if old(self).local(thread as int).phase_index == old(self).phase() && old(self).phase() < PHASE_CAP {
                assert forall|q: int| s1.pages.valid_ptr(q) implies word_phase(
                    #[trigger] s1.pages.node_at(q).marker(),
                ) < s1.locals[thread as int].phase_index by {
                    assert(old(self).pages.valid_ptr(q));
                }
            }
        }
        self.update_marks(thread);
        let ghost s2 = *self;
        self.clear_alloc_pools(thread);
        proof {
            if old(self).local(thread as int).phase_index == old(self).phase() && old(self).phase() < PHASE_CAP {
                assert(s1.allocation_pool == old(self).allocation_pool);
                assert(s2.allocation_pool.phase() < s2.locals[thread as int].phase_index);
                assert forall|t: int| 0 <= t < self.locals.len() implies (#[trigger] self.locals[t]).alloc@
                    == Seq::<usize>::empty() by {
                    assert(s1.local(t).alloc@ == Seq::<usize>::empty());
                }
            }
        }
        let roots = self.gather_roots();
        proof {
            assert forall|t: int| 0 <= t < self.locals@.len() implies (#[trigger] self.locals@[t]).hazard_ptr_frames
                == old(self).locals@[t].hazard_ptr_frames by {
                assert(s1.local(t).hazard_ptr_frames == old(self).local(t).hazard_ptr_frames);
            }
            lemma_hazard_count_frames(self.locals@, old(self).locals@);
        }
        self.last_roots = Ghost(roots@);
        let ghost p2 = self.pages;
        let ghost advanced = old(self).local(thread as int).phase_index == old(self).phase() && old(self).phase()
            < PHASE_CAP;
        proof {
            if advanced {
                assert forall|k: int|
                    0 <= k < self.allocation_pool.cells().len() && (#[trigger] self.allocation_pool.cells()[k]) is Some
                        && self.allocation_pool.cells()[k].unwrap().0 == self.allocation_pool.phase() implies none_marked(
                    &p2,
                    self.phase_index,
                    self.allocation_pool.cells()[k].unwrap().1@,
                ) by {}
            }
        }
        let ghost s25 = *self;
        self.trace(thread, roots);
        proof {
            if advanced {
                assert forall|t: int| 0 <= t < self.locals.len() implies none_marked(
                    &self.pages,
                    self.phase_index,
                    (#[trigger] self.locals[t]).alloc@,
                ) by {
                    assert(self.locals[t].alloc@ == Seq::<usize>::empty());
                }
            }
        }
        let ghost s3 = *self;
        proof {
            assert forall|q: int| old(self).pages().valid_ptr(q) implies (#[trigger] self.pages().node_at(q)).payload()
                == old(self).pages().node_at(q).payload() by {
                assert(p2.valid_ptr(q));
            }
        }
        self.sweep(thread);
        proof {
            assert forall|t: int| 0 <= t < self.locals.len() implies (#[trigger] self.locals[t]).dirty == s1.locals[t].dirty by {
                assert(self.local(t).dirty == s3.local(t).dirty);
                assert(s3.locals[t].dirty == s25.locals[t].dirty);
                assert(s25.locals == s2.locals);
            }
            assert forall|t: int| 0 <= t < self.locals.len() implies (#[trigger] self.local(t)).dirty == s1.local(t).dirty by {
                assert(self.locals[t].dirty == s1.locals[t].dirty);
            }
        }
        proof {
            if old(self).local(thread as int).phase_index == old(self).phase() && old(self).phase() < PHASE_CAP {
                assert(s3.allocation_pool.phase() == s3.locals[thread as int].phase_index);
                assert(cursor_phase(s3.sweep_chunk_index) == s3.locals[thread as int].phase_index);
                assert(cursor_index(s3.sweep_chunk_index) == 0);
                let ph = self.phase_index;
                assert(word_flag(pack_word(ph, false)) == false) by (bit_vector);
                assert forall|q: int|
                    self.pages().valid_ptr(q) && !marked_in(&self.pages(), self.phase(), q) implies #[trigger] in_free_buffers(
                    self.local(thread as int).alloc@,
                    &self.pool(),
                    q,
                ) by {
                    assert(self.pages.node_at(q).marker() == pack_word(ph, false));
                }
            }
        }
    }

    /// Runs one full round of reclamation on thread `thread`.
    pub fn force_gc(&mut self, thread: usize)
        requires
            old(self).wf(),
            thread < old(self).thread_count(),
        ensures
            final(self).wf(),
            final(self).thread_count() == old(self).thread_count(),
            final(self).pages().page_count() == old(self).pages().page_count(),
            forall|q: int|
                old(self).pages().valid_ptr(q) ==> (#[trigger] final(self).pages().node_at(q)).payload() == old(self).pages().node_at(q).payload(),
            final(self).local(thread as int).phase_index == final(self).phase(),
            old(self).local(thread as int).phase_index == old(self).phase() && old(self).phase() < PHASE_CAP
                ==> final(self).phase() == old(self).phase() + 1,
            all_in_phase(&final(self).pages(), final(self).phase()),
            trace_closed(&final(self).pages(), final(self).phase(), final(self).local(thread as int).traced@, final(self).roots()),
            old(self).local(thread as int).phase_index == old(self).phase() && old(self).phase() < PHASE_CAP
                ==> reclaimed(final(self), thread as int),
            forall|t: int|
                0 <= t < final(self).thread_count() && word_phase(old(self).local(t).dirty@) < old(self).local(
                    thread as int,
                ).phase_index ==> (#[trigger] final(self).local(t)).dirty@ == pack_word(
                    old(self).local(thread as int).phase_index,
                    true,
                ),
            forall|t: int|
                0 <= t < final(self).thread_count() && !(word_phase(old(self).local(t).dirty@) < old(self).local(
                    thread as int,
                ).phase_index) ==> (#[trigger] final(self).local(t)).dirty == old(self).local(t).dirty,
            !(old(self).local(thread as int).phase_index == old(self).phase() && old(self).phase() < PHASE_CAP)
                ==> final(self).phase() == old(self).phase(),
            final(self).roots().len() >= hazard_count(old(self).contexts()),
    {
        self.reclamation(thread);
    }

    /// Takes a buffer swept in `phase` out of the global pool and installs
    /// it as thread `thread`'s buffer, if the pool hands one out.
    fn take_buffer(&mut self, thread: usize, phase: u64) -> (r: bool)
        requires
            old(self).wf(),
            thread < old(self).thread_count(),
        ensures
            final(self).wf(),
            final(self).thread_count() == old(self).thread_count(),
            final(self).pages() == old(self).pages(),
            final(self).phase() == old(self).phase(),
            final(self).local(thread as int).phase_index == old(self).local(thread as int).phase_index,
            !r ==> final(self).local(thread as int).alloc == old(self).local(thread as int).alloc,
            r ==> final(self).local(thread as int).alloc@.len() > 0,
            !r && phase == old(self).pool().phase() ==> forall|k: int|
                0 <= k < old(self).pool().cells().len() && (#[trigger] old(self).pool().cells()[k]) is Some
                    ==> old(self).pool().cells()[k].unwrap().0 != phase,
    {
        let ghost cells = self.allocation_pool.cells();
        proof {
            allocator::pool::lemma_index_bounds(cells, phase, 0);
        }
        match self.allocation_pool.pop(phase) {
            Ok(n_buffer) => {
                proof {
                    let j = allocator::pool::pop_index(cells, phase, 0);
                    allocator::pool::lemma_index_bounds(cells, phase, 0);
                    assert(all_valid(&self.pages, n_buffer@)) by {
                        assert(cells[j] is Some);
                    }
                    self.lemma_popped_pool_valid(cells, phase);
                    self.lemma_popped_pool_nonempty(cells, phase);
                }
                self.locals[thread].alloc.new_buffer(n_buffer);
                true
            },
            Err(_) => {
                proof {
                    if phase == old(self).allocation_pool.phase() {
                        self.lemma_popped_pool_valid(cells, phase);
                        self.lemma_popped_pool_nonempty(cells, phase);
                    }
                }
                false
            },
        }
    }

    proof fn lemma_popped_pool_valid(&self, cells: Seq<Option<(u64, allocator::AllocationBuffer)>>, phase: u64)
        requires
            self.allocation_pool.cells() == allocator::pool::popped_cells(cells, phase),
            forall|k: int| 0 <= k < cells.len() && (#[trigger] cells[k]) is Some ==> all_valid(&self.pages, cells[k].unwrap().1@),
        ensures
            pool_valid(&self.pages, &self.allocation_pool),
    {
        assert forall|k: int|
            0 <= k < self.allocation_pool.cells().len() && (#[trigger] self.allocation_pool.cells()[k]) is Some implies all_valid(
            &self.pages,
            self.allocation_pool.cells()[k].unwrap().1@,
        ) by {
            assert(cells[k] is Some);
        }
    }

    proof fn lemma_popped_pool_nonempty(&self, cells: Seq<Option<(u64, allocator::AllocationBuffer)>>, phase: u64)
        requires
            self.allocation_pool.cells() == allocator::pool::popped_cells(cells, phase),
            forall|k: int| 0 <= k < cells.len() && (#[trigger] cells[k]) is Some ==> cells[k].unwrap().1@.len() > 0,
        ensures
            forall|k: int|
                0 <= k < self.allocation_pool.cells().len() && (#[trigger] self.allocation_pool.cells()[k]) is Some
                    ==> self.allocation_pool.cells()[k].unwrap().1@.len() > 0,
    {
        assert forall|k: int|
            0 <= k < self.allocation_pool.cells().len() && (#[trigger] self.allocation_pool.cells()[k]) is Some implies self.allocation_pool.cells()[k].unwrap().1@.len()
            > 0 by {
            assert(cells[k] is Some);
        }
    }

    /// Fills thread `thread`'s empty buffer: from the global pool, after
    /// taking the thread to the global phase where the pool refuses its
    /// phase; else by a round of reclamation; else by a fresh page.
    fn refill(&mut self, thread: usize)
        requires
            old(self).wf(),
            thread < old(self).thread_count(),
        ensures
            final(self).wf(),
            final(self).thread_count() == old(self).thread_count(),
            final(self).pages().page_size() == old(self).pages().page_size(),
            final(self).pages().page_count() >= old(self).pages().page_count(),
            forall|q: int|
                old(self).pages().valid_ptr(q) ==> (#[trigger] final(self).pages().node_at(q)).payload() == old(self).pages().node_at(q).payload(),
            final(self).local(thread as int).alloc@.len() == 0 ==> final(self).pages().page_count() == MAX_PAGES,
            final(self).pages().page_count() > old(self).pages().page_count() && old(self).phase() < PHASE_CAP
                ==> forall|q: int|
                old(self).pages().valid_ptr(q) ==> marked_in(&final(self).pages(), final(self).phase(), q),
    {
        let lphase_index = self.locals[thread].phase_index;
        if self.take_buffer(thread, lphase_index) {
            return ;
        }
        let global_phase = self.phase_index;
        self.locals[thread].phase_index = global_phase;
        if self.take_buffer(thread, global_phase) {
            return ;
        }
        let ghost before_round = *self;
        self.reclamation(thread);
        if !self.locals[thread].alloc.is_empty() {
            return ;
        }
        let ghost after_round = *self;
        let lp = self.locals[thread].phase_index;
        if self.take_buffer(thread, lp) {
            return ;
        }
        proof {
            if old(self).phase() < PHASE_CAP {
                assert(reclaimed(&after_round, thread as int));
                assert forall|q: int| self.pages().valid_ptr(q) implies marked_in(&self.pages(), self.phase(), q) by {
                    if !marked_in(&after_round.pages(), after_round.phase(), q) {
                        assert(in_free_buffers(after_round.local(thread as int).alloc@, &after_round.pool(), q));
                        assert(after_round.local(thread as int).alloc@.len() == 0);
                        if after_round.local(thread as int).alloc@.contains(q as usize) {
                            let k = choose|k: int|
                                0 <= k < after_round.local(thread as int).alloc@.len()
                                    && after_round.local(thread as int).alloc@[k] == q as usize;
                        }
                        let k = choose|k: int|
                            0 <= k < after_round.pool().cells().len() && (#[trigger] after_round.pool().cells()[k]) is Some
                                && after_round.pool().cells()[k].unwrap().0 == after_round.pool().phase()
                                && after_round.pool().cells()[k].unwrap().1@.contains(q as usize);
                    }
                }
            }
        }
        let ghost before = *self;
        if self.locals[thread].alloc.is_empty() {
            let page = self.pages.get_page_count();
            if self.pages.add_page() {
                proof {
                    assert(word_phase(0u64) == 0) by (bit_vector);
                    assert forall|q: int| self.pages.valid_ptr(q) implies word_phase(
                        #[trigger] self.pages.node_at(q).marker(),
                    ) <= self.phase_index by {
                        if before.pages.valid_ptr(q) {
                            assert(self.pages.node_at(q) == before.pages.node_at(q));
                        }
                    }
                    self.lemma_keep_valid(&before);
                    self.pages.lemma_capacity_bound();
                    let ps = self.pages.page_size();
                    let fresh = data_ptr(ps, page as int, 0);
                    assert(fresh == page * ps + 1);
                    assert(page * ps + 1 <= (page + 1) * ps) by (nonlinear_arith)
                        requires
                            ps > 0,
                    ;
                    assert(self.pages.valid_ptr(fresh));
                    assert(!before.pages.valid_ptr(fresh));
                    assert(word_flag(0u64) == false) by (bit_vector);
                    assert(!word_flag(self.pages.node_at(fresh).marker()));
                    assert(exists|i: int|
                        0 <= i < self.pages.page_size() && !word_flag(
                            #[trigger] self.pages.node_at(data_ptr(self.pages.page_size(), page as int, i)).marker(),
                        ));
                }
                self.locals[thread].sweep_page(&self.pages, page, &mut self.allocation_pool);
            } else {
                proof {
                    self.pages.lemma_capacity_bound();
                }
            }
        }
    }

    /// Allocates a node holding `data` for thread `thread` and returns its
    /// handle. Fails, handing `data` back, only when no slot is free after a
    /// round of reclamation and the arena already holds `MAX_PAGES` pages.
    pub fn allocate(&mut self, thread: usize, data: N) -> (r: Result<AoaBox, N>)
        requires
            old(self).wf(),
            thread < old(self).thread_count(),
        ensures
            final(self).wf(),
            final(self).thread_count() == old(self).thread_count(),
            final(self).pages().page_count() >= old(self).pages().page_count(),
            r is Ok ==> final(self).pages().valid_ptr((r->Ok_0)@ as int) && final(self).pages().node_at(
                (r->Ok_0)@ as int,
            ).payload() == Some(data),
            r is Ok ==> forall|q: int|
                old(self).pages().valid_ptr(q) && q != (r->Ok_0)@ ==> (#[trigger] final(self).pages().node_at(
                    q,
                )).payload() == old(self).pages().node_at(q).payload(),
            r is Err ==> r == Err::<AoaBox, N>(data) && final(self).pages().page_count() == MAX_PAGES,
            old(self).local(thread as int).alloc@.len() > 0 ==> r is Ok && (r->Ok_0)@ == old(self).local(
                thread as int,
            ).alloc@.last() && final(self).pages().page_count() == old(self).pages().page_count()
                && final(self).local(thread as int).alloc@ == old(self).local(thread as int).alloc@.drop_last(),
            final(self).pages().page_count() > old(self).pages().page_count() && old(self).phase() < PHASE_CAP
                ==> forall|q: int|
                old(self).pages().valid_ptr(q) ==> marked_in(&final(self).pages(), final(self).phase(), q),
    {
        if self.locals[thread].alloc.is_empty() {
            self.refill(thread);
        }
        let ghost before = *self;
        match self.locals[thread].alloc.pop() {
            Some(ptr) => {
                proof {
                    assert(before.locals[thread as int].alloc@.last() == ptr);
                    assert(all_valid(&before.pages, before.locals[thread as int].alloc@));
                    assert(self.pages.valid_ptr(ptr as int));
                    assert forall|t: int| 0 <= t < self.locals.len() implies all_valid(
                        &self.pages,
                        (#[trigger] self.locals[t]).alloc@,
                    ) by {
                        if t == thread {
                            assert forall|k: int| 0 <= k < self.locals[t].alloc@.len() implies self.pages.valid_ptr(
                                #[trigger] self.locals[t].alloc@[k] as int,
                            ) by {
                                assert(self.locals[t].alloc@[k] == before.locals[t].alloc@[k]);
                            }
                        }
                    }
                }
                let ghost mid = *self;
                self.pages.write(ptr, data);
                proof {
                    assert forall|q: int| self.pages.valid_ptr(q) implies word_phase(
                        #[trigger] self.pages.node_at(q).marker(),
                    ) <= self.phase_index by {
                        assert(mid.pages.valid_ptr(q));
                    }
                    self.lemma_keep_valid(&mid);
                    old(self).pages.lemma_capacity_bound();
                    let a = old(self).pages.page_count();
                    let b = before.pages.page_count();
                    let ps = old(self).pages.page_size();
                    assert(a * ps <= b * ps) by (nonlinear_arith)
                        requires
                            a <= b,
                            ps > 0,
                    ;
                    assert forall|q: int|
                        old(self).pages().valid_ptr(q) && q != ptr implies (#[trigger] self.pages().node_at(q)).payload()
                        == old(self).pages().node_at(q).payload() by {
                        assert(before.pages.valid_ptr(q));
                    }
                    assert forall|q: int| mid.pages.valid_ptr(q) implies self.pages.node_at(q).marker()
                        == mid.pages.node_at(q).marker() by {}
                }
                Ok(AoaBox { inner: ptr })
            },
            None => Err(data),
        }
    }

    /// The wf of the allocator holds again after a marking step changed
    /// only marks.
    proof fn lemma_keep_valid_marks(&self, before_pages: &PageList<N>)
        requires
            self.pages.wf(),
            self.pages.page_size() == before_pages.page_size(),
            self.pages.page_count() == before_pages.page_count(),
            self.locals.len() >= 1,
            self.phase_index <= PHASE_CAP,
            forall|t: int|
                0 <= t < self.locals.len() ==> (#[trigger] self.locals[t]).wf() && all_valid(
                    before_pages,
                    self.locals[t].alloc@,
                ) && self.locals[t].phase_index <= self.phase_index && canonical(self.locals[t].dirty@),
            self.allocation_pool.wf(),
            pool_valid(before_pages, &self.allocation_pool),
            self.allocation_pool.phase() <= self.phase_index,
            forall|k: int|
                0 <= k < self.allocation_pool.cells().len() && (#[trigger] self.allocation_pool.cells()[k]) is Some
                    ==> self.allocation_pool.cells()[k].unwrap().1@.len() > 0,
            cursor_phase(self.sweep_chunk_index) <= self.phase_index,
            forall|q: int|
                self.pages.valid_ptr(q) ==> word_phase(#[trigger] self.pages.node_at(q).marker()) <= self.phase_index,
        ensures
            self.wf(),
    {
        assert forall|t: int| 0 <= t < self.locals.len() implies all_valid(&self.pages, (#[trigger] self.locals[t]).alloc@) by {
            assert(all_valid(before_pages, self.locals[t].alloc@));
        }
        assert forall|k: int|
            0 <= k < self.allocation_pool.cells().len() && (#[trigger] self.allocation_pool.cells()[k]) is Some implies all_valid(
            &self.pages,
            self.allocation_pool.cells()[k].unwrap().1@,
        ) by {
            assert(all_valid(before_pages, self.allocation_pool.cells()[k].unwrap().1@));
        }
    }
}

} // verus!