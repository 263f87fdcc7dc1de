//! Allocation: the node arena, allocation buffers and the pools that hold them.
use vstd::prelude::*;

pub mod page;
pub mod pool;

use pool::{Pool, PopError};

verus! {

/// How many pointers an allocation buffer holds.
pub const BUFFER_SIZE: usize = 128;

/// A small stack of free data pointers.
pub struct AllocationBuffer {
    buffer: Vec<usize>,
    head: usize,
}

impl View for AllocationBuffer {
    /// The pointers held, bottom first.
    type V = Seq<usize>;

    closed spec fn view(&self) -> Seq<usize> {
        self.buffer@.subrange(0, self.head as int)
    }
}

impl AllocationBuffer {
    /// Slots at and above the head are null.
    pub closed spec fn wf(&self) -> bool {
        &&& self.buffer.len() == BUFFER_SIZE
        &&& self.head <= BUFFER_SIZE
        &&& forall|i: int| self.head <= i < BUFFER_SIZE ==> self.buffer[i] == 0
    }

    pub fn new() -> (r: Self)
        ensures
            r.wf(),
            r@ == Seq::<usize>::empty(),
    {
        let mut buffer: Vec<usize> = Vec::with_capacity(BUFFER_SIZE);
        let mut k: usize = 0;
        while k < BUFFER_SIZE
            invariant
                k <= BUFFER_SIZE,
                buffer.len() == k,
                forall|i: int| 0 <= i < k ==> buffer[i] == 0,
            decreases BUFFER_SIZE - k,
        {
            buffer.push(0);
            k = k + 1;
        }
        let r = Self { buffer, head: 0 };
        assert(r@ =~= Seq::<usize>::empty());
        r
    }

    pub fn is_empty(&self) -> (r: bool)
        requires
            self.wf(),
        ensures
            r == (self@.len() == 0),
    {
        self.head < 1
    }

    /// Pushes `ptr`, unless the buffer is full; then hands `ptr` back.
    pub fn insert(&mut self, ptr: usize) -> (r: Result<(), usize>)
        requires
            old(self).wf(),
        ensures
            final(self).wf(),
            r is Ok <==> old(self)@.len() < BUFFER_SIZE,
            r is Ok ==> final(self)@ == old(self)@.push(ptr),
            r is Err ==> r == Err::<(), usize>(ptr) && final(self)@ == old(self)@ && old(self)@.len() == BUFFER_SIZE,
    {
        let current = self.head;
        if current >= BUFFER_SIZE {
            return Err(ptr);
        }
        let next = current + 1;
        self.head = next;
        if self.buffer[current] == 0 {
            self.buffer.set(current, ptr);
            assert(self@ =~= old(self)@.push(ptr));
            Ok(())
        } else {
            Err(ptr)
        }
    }

    /// Pops the pointer pushed last, if any.
    pub fn pop(&mut self) -> (r: Option<usize>)
        requires
            old(self).wf(),
        ensures
            final(self).wf(),
            r is None <==> old(self)@.len() == 0,
            r is None ==> final(self)@ == old(self)@,
            r is Some ==> r == Some(old(self)@.last()) && final(self)@ == old(self)@.drop_last(),
    {
        let current = self.head;
        if current < 1 {
            return None;
        }
        let next = current - 1;
        self.head = next;
        let ptr = self.buffer[next];
        self.buffer.set(next, 0);
        assert(self@ =~= old(self)@.drop_last());
        Some(ptr)
    }
}

/// A thread's own allocation buffer, which it fills while sweeping and
/// drains while allocating.
pub struct LocalAllocator {
    buffer: AllocationBuffer,
}

impl View for LocalAllocator {
    type V = Seq<usize>;

    closed spec fn view(&self) -> Seq<usize> {
        self.buffer@
    }
}

impl LocalAllocator {
    pub closed spec fn wf(&self) -> bool {
        self.buffer.wf()
    }

    pub fn new() -> (r: Self)
        ensures
            r.wf(),
            r@ == Seq::<usize>::empty(),
    {
        Self { buffer: AllocationBuffer::new() }
    }

    pub fn is_empty(&self) -> (r: bool)
        requires
            self.wf(),
        ensures
            r == (self@.len() == 0),
    {
        self.buffer.is_empty()
    }

    pub fn pop(&mut self) -> (r: Option<usize>)
        requires
            old(self).wf(),
        ensures
            final(self).wf(),
            r is None <==> old(self)@.len() == 0,
            r is None ==> final(self)@ == old(self)@,
            r is Some ==> r == Some(old(self)@.last()) && final(self)@ == old(self)@.drop_last(),
    {
        self.buffer.pop()
    }

    pub fn insert(&mut self, data: usize) -> (r: Result<(), usize>)
        requires
            old(self).wf(),
        ensures
            final(self).wf(),
            r is Ok <==> old(self)@.len() < BUFFER_SIZE,
            r is Ok ==> final(self)@ == old(self)@.push(data),
            r is Err ==> r == Err::<(), usize>(data) && final(self)@ == old(self)@ && old(self)@.len() == BUFFER_SIZE,
    {
        self.buffer.insert(data)
    }

    /// Hands out the buffer, leaving an empty one in its place.
    pub fn take(&mut self) -> (r: AllocationBuffer)
        requires
            old(self).wf(),
        ensures
            final(self).wf(),
            final(self)@ == Seq::<usize>::empty(),
            r.wf(),
            r@ == old(self)@,
    {
        let mut fresh = AllocationBuffer::new();
        std::mem::swap(&mut self.buffer, &mut fresh);
        fresh
    }

    /// Installs `n_buffer`; the buffer held before is dropped.
    pub fn new_buffer(&mut self, n_buffer: AllocationBuffer)
        requires
            n_buffer.wf(),
        ensures
            final(self).wf(),
            final(self)@ == n_buffer@,
    {
        self.buffer = n_buffer;
    }
}

/// The global pool of full allocation buffers, tagged with the phase in
/// which they were swept.
pub struct GlobalAllocPool {
    pool: Pool<AllocationBuffer>,
}

impl Default for GlobalAllocPool {
    fn default() -> (r: Self)
        ensures
            r.wf(),
            r.phase() == 0,
            r.cells() == seq![None::<(u64, AllocationBuffer)>],
    {
        Self::new()
    }
}

impl GlobalAllocPool {
    pub closed spec fn phase(&self) -> u64 {
        self.pool.phase()
    }

    /// The pool's cells: empty, or a buffer with the phase it was inserted in.
    pub closed spec fn cells(&self) -> Seq<Option<(u64, AllocationBuffer)>> {
        self.pool.cells()
    }

    /// Every buffer the pool holds is itself well formed.
    pub closed spec fn wf(&self) -> bool {
        &&& self.pool.wf()
        &&& forall|k: int|
            0 <= k < self.cells().len() && (#[trigger] self.cells()[k]) is Some ==> self.cells()[k].unwrap().1.wf()
    }

    /// No buffer is tagged with a phase later than the pool's.
    pub proof fn lemma_phases_bounded(&self)
        requires
            self.wf(),
        ensures
            forall|k: int|
                0 <= k < self.cells().len() && (#[trigger] self.cells()[k]) is Some ==> self.cells()[k].unwrap().0
                    <= self.phase(),
    {
        self.pool.lemma_phases_bounded();
    }

    pub fn new() -> (r: Self)
        ensures
            r.wf(),
            r.phase() == 0,
            r.cells() == seq![None::<(u64, AllocationBuffer)>],
    {
        Self { pool: Pool::new() }
    }

    /// Takes a buffer swept in `phase` (see `Pool::pop`).
    pub fn pop(&mut self, phase: u64) -> (r: Result<AllocationBuffer, PopError>)
        requires
            old(self).wf(),
        ensures
            final(self).wf(),
            final(self).phase() == old(self).phase(),
            phase != old(self).phase() ==> r == Err::<AllocationBuffer, PopError>(PopError::InvalidPhase)
                && final(self).cells() == old(self).cells(),
            phase == old(self).phase() ==> final(self).cells() == pool::popped_cells(old(self).cells(), phase),
            phase == old(self).phase() && pool::pop_index(old(self).cells(), phase, 0) < old(self).cells().len()
                ==> r == Ok::<AllocationBuffer, PopError>(
                old(self).cells()[pool::pop_index(old(self).cells(), phase, 0)].unwrap().1,
            ),
            phase == old(self).phase() && pool::pop_index(old(self).cells(), phase, 0) == old(self).cells().len()
                ==> r == Err::<AllocationBuffer, PopError>(PopError::Empty),
            r is Ok ==> r.unwrap().wf(),
    {
        let r = self.pool.pop(phase);
        proof {
            let cells = old(self).cells();
            let j = pool::pop_index(cells, phase, 0);
            pool::lemma_index_bounds(cells, phase, 0);
            if phase == old(self).phase() {
                assert forall|k: int|
                    0 <= k < self.cells().len() && (#[trigger] self.cells()[k]) is Some implies self.cells()[k].unwrap().1.wf() by {
                    assert(self.cells()[k] == pool::popped_cells(cells, phase)[k]);
                }
                pool::lemma_index_bounds(cells, phase, 0);
                if j < cells.len() {
                    assert(cells[j] is Some);
                }
            }
        }
        r
    }

    /// Inserts `data` as a buffer swept in `phase` (see `Pool::insert`).
    pub fn insert(&mut self, phase: u64, data: AllocationBuffer) -> (r: Result<(), ()>)
        requires
            old(self).wf(),
            data.wf(),
        ensures
            final(self).wf(),
            final(self).phase() == old(self).phase(),
            r is Ok <==> phase == old(self).phase(),
            r is Err ==> final(self).cells() == old(self).cells(),
            r is Ok ==> final(self).cells() == if pool::insert_index(old(self).cells(), phase, 0)
                < old(self).cells().len() {
                old(self).cells().update(pool::insert_index(old(self).cells(), phase, 0), Some((phase, data)))
            } else {
                old(self).cells().push(Some((phase, data)))
            },
            r is Ok ==> pool::live(final(self).cells(), phase) == pool::live(old(self).cells(), phase).insert(data),
    {
        let ghost d = data;
        let r = self.pool.insert(data, phase);
        proof {
            if r is Ok {
                let cells = old(self).cells();
                let j = pool::insert_index(cells, phase, 0);
                pool::lemma_index_bounds(cells, phase, 0);
                assert forall|k: int|
                    0 <= k < self.cells().len() && (#[trigger] self.cells()[k]) is Some implies self.cells()[k].unwrap().1.wf() by {
                    if j < cells.len() {
                        assert(self.cells() == cells.update(j, Some((phase, d))));
                    } else {
                        assert(self.cells() == cells.push(Some((phase, d))));
                    }
                }
            }
        }
        r
    }

    /// Moves the pool to phase `n_phase`: every buffer held becomes stale.
    pub fn clear(&mut self, n_phase: u64) -> (r: Result<(), ()>)
        requires
            old(self).wf(),
        ensures
            final(self).wf(),
            r is Ok <==> n_phase > old(self).phase(),
            final(self).phase() == if r is Ok { n_phase } else { old(self).phase() },
            final(self).cells() == old(self).cells(),
    {
        self.pool.update_phase(n_phase)?;
        Ok(())
    }
}

} // verus!
