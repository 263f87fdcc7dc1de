//! Hazard-pointer frames: per-thread, append-only lists of protected pointers.
use vstd::prelude::*;

use crate::first_free;

pub mod ptr;

pub use ptr::HazardPtr;

verus! {

/// The non-null slot values, in slot order.
pub open spec fn roots_of(slots: Seq<usize>) -> Seq<usize>
    decreases slots.len(),
{
    if slots.len() == 0 {
        Seq::empty()
    } else if slots.last() != 0 {
        roots_of(slots.drop_last()).push(slots.last())
    } else {
        roots_of(slots.drop_last())
    }
}

/// The slots after storing `p`: it goes into the first empty slot, or into a
/// new slot at the end.
pub open spec fn store_slots(slots: Seq<usize>, p: usize) -> Seq<usize> {
    let j = first_free(slots, 0);
    if j < slots.len() {
        slots.update(j, p)
    } else {
        slots.push(p)
    }
}

/// The slots after storing each of `ps` in turn.
pub open spec fn store_all(slots: Seq<usize>, ps: Seq<usize>) -> Seq<usize>
    decreases ps.len(),
{
    if ps.len() == 0 {
        slots
    } else {
        store_slots(store_all(slots, ps.drop_last()), ps.last())
    }
}

/// Slots that are all empty have no roots.
proof fn lemma_roots_of_empty_slots(slots: Seq<usize>)
    requires
        forall|k: int| 0 <= k < slots.len() ==> slots[k] == 0,
    ensures
        roots_of(slots) == Seq::<usize>::empty(),
    decreases slots.len(),
{
    if slots.len() > 0 {
        lemma_roots_of_empty_slots(slots.drop_last());
    }
}

/// Filling an empty slot with a non-null `p` adds `p` to the roots.
proof fn lemma_roots_fill(slots: Seq<usize>, j: int, p: usize)
    requires
        0 <= j < slots.len(),
        slots[j] == 0,
        p != 0,
    ensures
        roots_of(slots.update(j, p)).to_multiset() =~= roots_of(slots).to_multiset().insert(p),
    decreases slots.len(),
{
    let u = slots.update(j, p);
    assert(u.len() == slots.len());
    let r = roots_of(slots.drop_last());
    r.to_multiset_ensures();
    if j == slots.len() - 1 {
        assert(u.drop_last() =~= slots.drop_last());
        assert(u.last() == p);
    } else {
        assert(u.drop_last() =~= slots.drop_last().update(j, p));
        assert(u.last() == slots.last());
        lemma_roots_fill(slots.drop_last(), j, p);
        let ru = roots_of(u.drop_last());
        ru.to_multiset_ensures();
    }
}

/// Storing a non-null pointer adds it to the roots, once.
pub proof fn lemma_store_adds_root(slots: Seq<usize>, p: usize)
    requires
        p != 0,
    ensures
        roots_of(store_slots(slots, p)).to_multiset() =~= roots_of(slots).to_multiset().insert(p),
{
    crate::lemma_first_free_bounds(slots, 0);
    let j = first_free(slots, 0);
    if j < slots.len() {
        lemma_roots_fill(slots, j, p);
    } else {
        assert(slots.push(p).drop_last() =~= slots);
        roots_of(slots).to_multiset_ensures();
    }
}

/// After storing the non-null pointers `ps` in a fresh frame, its roots are
/// `ps`, in some order.
pub proof fn lemma_roots_after_stores(ps: Seq<usize>)
    requires
        forall|k: int| 0 <= k < ps.len() ==> ps[k] != 0,
    ensures
        roots_of(store_all(seq![0usize], ps)).to_multiset() =~= ps.to_multiset(),
    decreases ps.len(),
{
    ps.to_multiset_ensures();
    if ps.len() == 0 {
        lemma_roots_of_empty_slots(seq![0usize]);
        Seq::<usize>::empty().to_multiset_ensures();
        assert forall|a: usize| ps.to_multiset().count(a) == 0 by {
            if ps.to_multiset().count(a) > 0 {
                assert(ps.contains(a));
            }
        }
        assert forall|a: usize| Seq::<usize>::empty().to_multiset().count(a) == 0 by {
            if Seq::<usize>::empty().to_multiset().count(a) > 0 {
                assert(Seq::<usize>::empty().contains(a));
            }
        }
    } else {
        let init = ps.drop_last();
        lemma_roots_after_stores(init);
        lemma_store_adds_root(store_all(seq![0usize], init), ps.last());
        init.to_multiset_ensures();
        assert(init.push(ps.last()) =~= ps);
    }
}

/// A frame: an append-only list of hazard pointers.
pub struct HazardPtrFrame {
    ptrs: Vec<HazardPtr>,
}

impl View for HazardPtrFrame {
    /// The slot values, in list order.
    type V = Seq<usize>;

    closed spec fn view(&self) -> Seq<usize> {
        self.ptrs@.map_values(|h: HazardPtr| h@)
    }
}

impl HazardPtrFrame {
    /// A frame with one empty slot.
    pub fn new() -> (r: Self)
        ensures
            r@ == seq![0usize],
    {
        let mut ptrs: Vec<HazardPtr> = Vec::new();
        ptrs.push(HazardPtr::new(0));
        let r = Self { ptrs };
        assert(r@ =~= seq![0usize]);
        r
    }

    /// Stores `ptr` in the first empty slot, or in a new slot at the end.
    pub fn store(&mut self, ptr: usize)
        ensures
            final(self)@ == store_slots(old(self)@, ptr),
    {
        let ghost slots = old(self)@;
        proof {
            crate::lemma_first_free_bounds(slots, 0);
        }
        let mut i: usize = 0;
        while i < self.ptrs.len()
            invariant
                self@ == slots,
                old(self)@ == slots,
                i <= slots.len(),
                first_free(slots, 0) == first_free(slots, i as int),
            decreases self.ptrs.len() - i,
        {
            assert(slots[i as int] == self.ptrs[i as int]@);
            match self.ptrs[i].store(ptr) {
                Ok(_) => {
                    assert(self@ =~= slots.update(i as int, ptr));
                    return ;
                },
                Err(_) => {},
            }
            i = i + 1;
        }
        self.ptrs.push(HazardPtr::new(ptr));
        assert(self@ =~= slots.push(ptr));
    }

    /// Empties every slot.
    pub fn clear(&mut self)
        ensures
            final(self)@.len() == old(self)@.len(),
            forall|k: int| 0 <= k < old(self)@.len() ==> #[trigger] final(self)@[k] == 0,
            roots_of(final(self)@) == Seq::<usize>::empty(),
    {
        let mut i: usize = 0;
        while i < self.ptrs.len()
            invariant
                i <= self.ptrs.len(),
                self.ptrs.len() == old(self).ptrs.len(),
                forall|k: int| 0 <= k < i ==> (#[trigger] self.ptrs[k])@ == 0,
            decreases self.ptrs.len() - i,
        {
            self.ptrs[i].reset();
            i = i + 1;
        }
        proof {
            assert forall|k: int| 0 <= k < self@.len() implies #[trigger] self@[k] == 0 by {
                assert(self@[k] == self.ptrs[k]@);
            }
            lemma_roots_of_empty_slots(self@);
        }
    }

    /// The non-null slot values, in slot order.
    pub fn roots(&self) -> (r: Vec<usize>)
        ensures
            r@ == roots_of(self@),
    {
        let mut result: Vec<usize> = Vec::new();
        let mut i: usize = 0;
        while i < self.ptrs.len()
            invariant
                i <= self.ptrs.len(),
                result@ == roots_of(self@.subrange(0, i as int)),
            decreases self.ptrs.len() - i,
        {
            let ghost before = self@.subrange(0, i as int);
            assert(self@.subrange(0, i + 1).drop_last() =~= before);
            match self.ptrs[i].ptr() {
                Some(p) => result.push(p),
                None => {},
            }
            i = i + 1;
        }
        assert(self@.subrange(0, self.ptrs.len() as int) =~= self@);
        result
    }
}

} // verus!
