//! The mark stack: a thread's list of pointers still to be traced.
//!
//! Cells are never freed, only emptied and reused, so another thread can
//! read any cell at any time. Cell `k`'s predecessor is cell `k - 1`.
use vstd::prelude::*;

use crate::{first_free, lemma_first_free_bounds};

verus! {

/// The last non-empty cell at or below `i`; -1 where there is none.
pub open spec fn last_full(cells: Seq<usize>, i: int) -> int
    decreases i + 1,
{
    if i < 0 {
        -1
    } else if cells[i] != 0 {
        i
    } else {
        last_full(cells, i - 1)
    }
}

/// Cells and head after pushing `p`: it goes into the first empty cell from
/// the head on, which becomes the head; where there is none, into a new last
/// cell, which becomes the head.
pub open spec fn push_model(cells: Seq<usize>, head: int, p: usize) -> (Seq<usize>, int) {
    let j = first_free(cells, head);
    if j < cells.len() {
        (cells.update(j, p), j)
    } else {
        (cells.push(p), cells.len() as int)
    }
}

/// Cells and head after pushing each non-null pointer of `ps`, in order.
pub open spec fn push_all(cells: Seq<usize>, head: int, ps: Seq<usize>) -> (Seq<usize>, int)
    decreases ps.len(),
{
    if ps.len() == 0 {
        (cells, head)
    } else {
        let (c, h) = push_all(cells, head, ps.drop_last());
        if ps.last() != 0 {
            push_model(c, h, ps.last())
        } else {
            (c, h)
        }
    }
}

/// Cells, head and result of a pop: the last non-empty cell at or below
/// the head is emptied and handed out, and the head moves to its predecessor,
/// where it has one.
pub open spec fn pop_model(cells: Seq<usize>, head: int) -> (Seq<usize>, int, Option<usize>) {
    let j = last_full(cells, head);
    if j < 0 {
        (cells, head, None)
    } else {
        (cells.update(j, 0), if j > 0 {
            j - 1
        } else {
            head
        }, Some(cells[j]))
    }
}

/// The cells from the first on, up to the first empty one.
pub open spec fn leading(cells: Seq<usize>) -> Seq<usize> {
    cells.subrange(0, first_free(cells, 0))
}

proof fn lemma_last_full_bounds(cells: Seq<usize>, i: int)
    requires
        -1 <= i < cells.len(),
    ensures
        -1 <= last_full(cells, i) <= i,
        last_full(cells, i) >= 0 ==> cells[last_full(cells, i)] != 0,
        last_full(cells, i) < 0 ==> forall|k: int| 0 <= k <= i ==> cells[k] == 0,
    decreases i + 1,
{
    if i >= 0 && cells[i] == 0 {
        lemma_last_full_bounds(cells, i - 1);
    }
}

/// The cells hold stack `s`, bottom first, with nothing after it and the
/// head on its top (on the first cell while it is empty).
pub open spec fn holds_stack(cells: Seq<usize>, head: int, s: Seq<usize>) -> bool {
    &&& cells.len() >= 1
    &&& s.len() <= cells.len()
    &&& forall|k: int|
        #![trigger s[k]]
        #![trigger cells[k]]
        0 <= k < s.len() ==> s[k] != 0 && cells[k] == s[k]
    &&& forall|k: int| s.len() <= k < cells.len() ==> #[trigger] cells[k] == 0
    &&& head == if s.len() == 0 { 0 } else { s.len() - 1 }
}

/// Pushing a non-null pointer onto a stack puts it on top.
pub proof fn lemma_push_on_top(cells: Seq<usize>, head: int, s: Seq<usize>, p: usize)
    requires
        holds_stack(cells, head, s),
        p != 0,
    ensures
        holds_stack(push_model(cells, head, p).0, push_model(cells, head, p).1, s.push(p)),
{
    lemma_first_free_bounds(cells, head);
    let c2 = push_model(cells, head, p).0;
    let s2 = s.push(p);
    if s.len() == 0 {
        assert(cells[0] == 0);
        assert(first_free(cells, 0) == 0);
    } else {
        assert(cells[head] == s[head]);
        if s.len() < cells.len() {
            assert(cells[s.len() as int] == 0);
            assert(first_free(cells, head + 1) == s.len());
        } else {
            assert(first_free(cells, head + 1) == cells.len());
        }
    }
    assert forall|k: int| 0 <= k < s2.len() implies s2[k] != 0 && #[trigger] c2[k] == s2[k] by {
        if k < s.len() {
            assert(cells[k] == s[k]);
        }
    }
}

/// Popping a stack hands out its top and leaves the rest; popping an empty
/// one hands out nothing.
pub proof fn lemma_pop_top(cells: Seq<usize>, head: int, s: Seq<usize>)
    requires
        holds_stack(cells, head, s),
    ensures
        s.len() == 0 ==> pop_model(cells, head).2 is None,
        s.len() > 0 ==> pop_model(cells, head).2 == Some(s.last()) && holds_stack(
            pop_model(cells, head).0,
            pop_model(cells, head).1,
            s.drop_last(),
        ),
{
    lemma_last_full_bounds(cells, head);
    if s.len() > 0 {
        assert(cells[head] == s[head]);
        assert(last_full(cells, head) == head);
        let c2 = pop_model(cells, head).0;
        let s2 = s.drop_last();
        assert(c2 =~= cells.update(head, 0));
        assert forall|k: int| s2.len() <= k < c2.len() implies #[trigger] c2[k] == 0 by {
            if k > head {
                assert(cells[k] == 0);
            }
        }
        assert forall|k: int| 0 <= k < s2.len() implies s2[k] != 0 && #[trigger] c2[k] == s2[k] by {
            assert(cells[k] == s[k]);
        }
        let h2 = pop_model(cells, head).1;
        assert(h2 == if s2.len() == 0 { 0 } else { s2.len() - 1 });
        assert(pop_model(cells, head).2 == Some(s.last()));

    } else {
        assert(cells[0] == 0);
        assert(last_full(cells, -1) == -1);
    }
}

/// A cell of the mark stack.
pub struct StackNode {
    data: usize,
}

impl View for StackNode {
    type V = usize;

    closed spec fn view(&self) -> usize {
        self.data
    }
}

impl StackNode {
    pub fn new(data: usize) -> (r: Self)
        ensures
            r@ == data,
    {
        Self { data }
    }

    pub fn empty() -> (r: Self)
        ensures
            r@ == 0,
    {
        Self::new(0)
    }
}

/// A stack of pointers kept in cells that are never freed.
pub struct MarkStack {
    nodes: Vec<StackNode>,
    head: usize,
}

impl MarkStack {
    /// The pointer each cell holds, 0 for an empty one, bottom first.
    pub closed spec fn cells(&self) -> Seq<usize> {
        self.nodes@.map_values(|n: StackNode| n@)
    }

    /// The cell pushes start from and pops go down from.
    pub closed spec fn head(&self) -> int {
        self.head as int
    }

    /// The head is a cell, and no cell above it holds a pointer.
    pub closed spec fn wf(&self) -> bool {
        &&& self.head < self.nodes.len()
        &&& forall|k: int| self.head < k < self.nodes.len() ==> (#[trigger] self.nodes[k])@ == 0
    }

    /// The pointers the stack holds, with the cells they are in.
    pub open spec fn items(&self) -> Set<int> {
        Set::new(|k: int| 0 <= k < self.cells().len() && self.cells()[k] != 0)
    }

    /// Whether some cell holds `p`.
    pub open spec fn contains(&self, p: usize) -> bool {
        p != 0 && exists|k: int| 0 <= k < self.cells().len() && self.cells()[k] == p
    }

    pub proof fn lemma_items_finite(&self)
        ensures
            self.items().finite(),
            self.items().len() <= self.cells().len(),
    {
        let r = vstd::set_lib::set_int_range(0, self.cells().len() as int);
        vstd::set_lib::lemma_int_range(0, self.cells().len() as int);
        assert(self.items().subset_of(r));
        vstd::set_lib::lemma_len_subset(self.items(), r);
    }

    proof fn lemma_push_keeps(&self, before: &Self, data: usize)
        requires
            before.wf(),
            self.cells() == push_model(before.cells(), before.head(), data).0,
        ensures
            data != 0 ==> self.contains(data),
            forall|p: usize| before.contains(p) ==> #[trigger] self.contains(p),
    {
        let cells = before.cells();
        lemma_first_free_bounds(cells, before.head());
        let j = first_free(cells, before.head());
        if data != 0 {
            if j < cells.len() {
                assert(self.cells()[j] == data);
            } else {
                assert(self.cells()[cells.len() as int] == data);
            }
        }
        assert forall|p: usize| before.contains(p) implies #[trigger] self.contains(p) by {
            let k = choose|k: int| 0 <= k < cells.len() && cells[k] == p;
            if j < cells.len() {
                assert(k != j);
            }
            assert(self.cells()[k] == p);
        }
    }

    /// A stack with one empty cell.
    pub fn new() -> (r: Self)
        ensures
            r.wf(),
            r.cells() == seq![0usize],
            r.head() == 0,
    {
        let mut nodes: Vec<StackNode> = Vec::new();
        nodes.push(StackNode::empty());
        let r = Self { nodes, head: 0 };
        assert(r.cells() =~= seq![0usize]);
        r
    }

    pub fn push(&mut self, data: usize)
        requires
            old(self).wf(),
        ensures
            final(self).wf(),
            (final(self).cells(), final(self).head()) == push_model(old(self).cells(), old(self).head(), data),
            data != 0 ==> final(self).contains(data),
            forall|p: usize| old(self).contains(p) ==> #[trigger] final(self).contains(p),
    {
        let ghost cells = self.cells();
        proof {
            lemma_first_free_bounds(cells, self.head as int);
        }
        let mut i: usize = self.head;
        while i < self.nodes.len()
            invariant
                self.cells() == cells,
                old(self).cells() == cells,
                self.head == old(self).head,
                self.wf(),
                self.head <= i <= cells.len(),
                first_free(cells, self.head as int) == first_free(cells, i as int),
                forall|k: int| self.head < k < i ==> cells[k] != 0,
                old(self).wf(),
            decreases self.nodes.len() - i,
        {
            assert(cells[i as int] == self.nodes[i as int]@);
            if self.nodes[i].data == 0 {
                self.nodes[i].data = data;
                self.head = i;
                assert(self.cells() =~= cells.update(i as int, data));
                proof {
                    self.lemma_push_keeps(old(self), data);
                }
                return ;
            }
            i = i + 1;
        }
        self.nodes.push(StackNode::new(data));
        self.head = self.nodes.len() - 1;
        assert(self.cells() =~= cells.push(data));
        proof {
            self.lemma_push_keeps(old(self), data);
        }
    }

    pub fn pop(&mut self) -> (r: Option<usize>)
        requires
            old(self).wf(),
        ensures
            final(self).wf(),
            (final(self).cells(), final(self).head(), r) == pop_model(old(self).cells(), old(self).head()),
            r is None ==> old(self).items() == Set::<int>::empty(),
            r is Some ==> r.unwrap() != 0 && final(self).items().len() + 1 == old(self).items().len(),
            forall|p: usize| old(self).contains(p) ==> #[trigger] final(self).contains(p) || r == Some(p),
            final(self).items().finite(),
    {
        let ghost cells = self.cells();
        proof {
            lemma_last_full_bounds(cells, self.head as int);
        }
        let mut i: usize = self.head;
        loop
            invariant
                self.cells() == cells,
                old(self).cells() == cells,
                self.head == old(self).head,
                self.wf(),
                i <= self.head,
                last_full(cells, self.head as int) == last_full(cells, i as int),
                forall|k: int| i < k <= self.head ==> cells[k] == 0,
                old(self).wf(),
            decreases i,
        {
            assert(cells[i as int] == self.nodes[i as int]@);
            let data_ptr = self.nodes[i].data;
            if data_ptr != 0 {
                self.nodes[i].data = 0;
                if i > 0 {
                    self.head = i - 1;
                }
                assert(self.cells() =~= cells.update(i as int, 0));
                proof {
                    assert forall|k: int| self.head < k < self.nodes.len() implies (#[trigger] self.nodes[k])@
                        == 0 by {
                        assert(self.cells()[k] == self.nodes[k]@);
                        assert(old(self).cells()[k] == old(self).nodes[k]@);
                    }
                    old(self).lemma_items_finite();
                    self.lemma_items_finite();
                    assert(self.items() =~= old(self).items().remove(i as int));
                    assert forall|p: usize| old(self).contains(p) implies #[trigger] self.contains(p) || p
                        == data_ptr by {
                        let k = choose|k: int| 0 <= k < cells.len() && cells[k] == p;
                        if k != i {
                            assert(self.cells()[k] == p);
                        }
                    }
                }
                return Some(data_ptr);
            }
            if i == 0 {
                assert(last_full(cells, -1) == -1);
                proof {
                    self.lemma_items_finite();
                    assert(self.items() =~= Set::<int>::empty()) by {
                        lemma_last_full_bounds(cells, self.head as int);
                    }
                }
                return None;
            }
            i = i - 1;
        }
    }

    /// The pointer a pop would hand out.
    pub fn peek(&self) -> (r: Option<usize>)
        requires
            self.wf(),
        ensures
            r == pop_model(self.cells(), self.head()).2,
            r is None ==> self.items() == Set::<int>::empty(),
            r is Some ==> r.unwrap() != 0 && self.items().len() > 0,
    {
        proof {
            self.lemma_items_finite();
        }
        let ghost cells = self.cells();
        proof {
            lemma_last_full_bounds(cells, self.head as int);
        }
        let mut i: usize = self.head;
        loop
            invariant
                self.cells() == cells,
                self.wf(),
                i <= self.head,
                last_full(cells, self.head as int) == last_full(cells, i as int),
                self.items().finite(),
            decreases i,
        {
            assert(cells[i as int] == self.nodes[i as int]@);
            let data_ptr = self.nodes[i].data;
            if data_ptr != 0 {
                assert(self.items().contains(i as int));
                return Some(data_ptr);
            }
            if i == 0 {
                assert(last_full(cells, -1) == -1);
                proof {
                    lemma_last_full_bounds(cells, self.head as int);
                    assert forall|k: int| self.head < k < cells.len() implies cells[k] == 0 by {
                        assert(cells[k] == self.nodes[k]@);
                    }
                    assert(self.items() =~= Set::<int>::empty());
                }
                return None;
            }
            i = i - 1;
        }
    }

    /// Whether a pop would hand out nothing.
    pub fn is_empty(&self) -> (r: bool)
        requires
            self.wf(),
        ensures
            r == (pop_model(self.cells(), self.head()).2 is None),
    {
        self.peek().is_none()
    }

    /// Reads the cells from the first on, up to the first empty one.
    pub fn iter(&self) -> (r: MarkStackIter)
        ensures
            r.wf(),
            r.rest() == leading(self.cells()),
    {
        let ghost cells = self.cells();
        proof {
            lemma_first_free_bounds(cells, 0);
        }
        let mut items: Vec<usize> = Vec::new();
        let mut i: usize = 0;
        while i < self.nodes.len() && self.nodes[i].data != 0
            invariant
                self.cells() == cells,
                i <= cells.len(),
                first_free(cells, 0) == first_free(cells, i as int),
                items@ == cells.subrange(0, i as int),
            decreases self.nodes.len() - i,
        {
            assert(cells[i as int] == self.nodes[i as int]@);
            items.push(self.nodes[i].data);
            assert(items@ =~= cells.subrange(0, i + 1));
            i = i + 1;
        }
        if i < self.nodes.len() {
            assert(cells[i as int] == self.nodes[i as int]@);
        }
        let r = MarkStackIter { items, current: 0 };
        assert(r.rest() =~= items@);
        r
    }
}

/// The pointers of a mark stack as `MarkStack::iter` read them.
pub struct MarkStackIter {
    items: Vec<usize>,
    current: usize,
}

impl MarkStackIter {
    /// The pointers not yet handed out.
    pub closed spec fn rest(&self) -> Seq<usize> {
        self.items@.subrange(self.current as int, self.items@.len() as int)
    }

    pub closed spec fn wf(&self) -> bool {
        self.current <= self.items.len()
    }

    pub fn next(&mut self) -> (r: Option<usize>)
        requires
            old(self).wf(),
        ensures
            final(self).wf(),
            old(self).rest().len() == 0 ==> r is None && final(self).rest() == old(self).rest(),
            old(self).rest().len() > 0 ==> r == Some(old(self).rest()[0]) && final(self).rest() == old(self).rest().drop_first(),
    {
        if self.current >= self.items.len() {
            return None;
        }
        let d = self.items[self.current];
        self.current = self.current + 1;
        assert(self.rest() =~= old(self).rest().drop_first());
        Some(d)
    }
}

} // verus!
