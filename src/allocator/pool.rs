//! A phase-protected pool: a list of cells that are never freed, each empty
//! or holding one value tagged with the phase it was inserted in.
//!
//! A cell is taken for writing only while the pool's phase is the phase of
//! the operation; values inserted in an earlier phase are stale, are never
//! handed out, and are dropped when a walk meets them.
use vstd::multiset::Multiset;
use vstd::prelude::*;

verus! {

/// The state of a pool cell.
#[derive(Debug, Clone, Copy, PartialEq, Eq, Structural)]
pub enum State {
    Empty,
    Accessed,
    Filled,
}

impl State {
    pub fn to_u8(&self) -> (r: u8)
        ensures
            r == state_code(*self),
    {
        match self {
            Self::Empty => 0,
            Self::Accessed => 1,
            Self::Filled => 2,
        }
    }

    pub fn from_u8(raw: u8) -> (r: Option<Self>)
        ensures
            raw <= 2 ==> r is Some && state_code(r.unwrap()) == raw,
            raw > 2 ==> r is None,
    {
        match raw {
            0 => Some(Self::Empty),
            1 => Some(Self::Accessed),
            2 => Some(Self::Filled),
            _ => None,
        }
    }
}

/// The byte that stands for a state.
pub open spec fn state_code(s: State) -> u8 {
    match s {
        State::Empty => 0,
        State::Accessed => 1,
        State::Filled => 2,
    }
}

/// One cell of the pool.
pub struct Node<T> {
    data: Option<T>,
    state: u8,
    phase: u64,
}

impl<T> View for Node<T> {
    /// `None` for an empty cell, else the cell's phase and value.
    type V = Option<(u64, T)>;

    closed spec fn view(&self) -> Option<(u64, T)> {
        if self.state == 2 && self.data is Some {
            Some((self.phase, self.data.unwrap()))
        } else {
            None
        }
    }
}

impl<T> Node<T> {
    /// At rest a cell is empty and holds nothing, or set and holds a value.
    pub closed spec fn wf(&self) -> bool {
        ||| self.state == 0 && self.data is None
        ||| self.state == 2 && self.data is Some
    }

    pub fn new() -> (r: Self)
        ensures
            r.wf(),
            r@ is None,
    {
        Self { data: None, state: State::Empty.to_u8(), phase: 0 }
    }

    /// Makes the cell hold `data`, tagged with `phase`; a value it held is dropped.
    fn fill(&mut self, data: T, phase: u64)
        ensures
            final(self).wf(),
            final(self)@ == Some((phase, data)),
    {
        self.data = Some(data);
        self.phase = phase;
        self.state = State::Filled.to_u8();
    }

    /// Empties the cell and hands out what it held.
    fn take(&mut self) -> (r: Option<T>)
        requires
            old(self).wf(),
        ensures
            final(self).wf(),
            final(self)@ is None,
            old(self)@ is Some ==> r == Some(old(self)@.unwrap().1),
    {
        let r = self.data.take();
        self.state = State::Empty.to_u8();
        r
    }

    pub fn load_state(&self) -> (r: State)
        requires
            self.wf(),
        ensures
            r == (if self@ is Some { State::Filled } else { State::Empty }),
    {
        match State::from_u8(self.state) {
            Some(s) => s,
            None => State::Empty,
        }
    }
}

/// Why a pop handed out nothing.
#[derive(Debug, PartialEq, Eq, Clone, Copy, Structural)]
pub enum PopError {
    Empty,
    InvalidPhase,
}

/// What cell `c` adds to the values live in phase `ph`.
pub open spec fn contribution<T>(c: Option<(u64, T)>, ph: u64) -> Multiset<T> {
    match c {
        Some((p, d)) => if p == ph {
            Multiset::singleton(d)
        } else {
            Multiset::empty()
        },
        None => Multiset::empty(),
    }
}

/// The values that the cells hold for phase `ph`.
pub open spec fn live<T>(cells: Seq<Option<(u64, T)>>, ph: u64) -> Multiset<T>
    decreases cells.len(),
{
    if cells.len() == 0 {
        Multiset::empty()
    } else {
        live(cells.drop_last(), ph).add(contribution(cells.last(), ph))
    }
}

/// Whether an insert in phase `ph` may take cell `c`: it is empty or stale.
pub open spec fn takes<T>(c: Option<(u64, T)>, ph: u64) -> bool {
    c is None || c.unwrap().0 < ph
}

/// The first cell from `i` on that an insert in phase `ph` takes; the
/// length of `cells` where there is none.
pub open spec fn insert_index<T>(cells: Seq<Option<(u64, T)>>, ph: u64, i: int) -> int
    decreases cells.len() - i,
{
    if i >= cells.len() {
        cells.len() as int
    } else if takes(cells[i], ph) {
        i
    } else {
        insert_index(cells, ph, i + 1)
    }
}

/// Whether cell `c` holds a value of phase `ph`.
pub open spec fn holds<T>(c: Option<(u64, T)>, ph: u64) -> bool {
    c is Some && c.unwrap().0 == ph
}

/// The first cell from `i` on that holds a value of phase `ph`; the length
/// of `cells` where there is none.
pub open spec fn pop_index<T>(cells: Seq<Option<(u64, T)>>, ph: u64, i: int) -> int
    decreases cells.len() - i,
{
    if i >= cells.len() {
        cells.len() as int
    } else if holds(cells[i], ph) {
        i
    } else {
        pop_index(cells, ph, i + 1)
    }
}

/// The cells after a pop in phase `ph`: the cell handed out, and every
/// cell before it that held a value, are empty.
pub open spec fn popped_cells<T>(cells: Seq<Option<(u64, T)>>, ph: u64) -> Seq<Option<(u64, T)>> {
    let j = pop_index(cells, ph, 0);
    Seq::new(
        cells.len(),
        |k: int|
            if (k < j && cells[k] is Some) || k == j {
                None
            } else {
                cells[k]
            },
    )
}

/// Walks start where they are asked to and stop at the end at the latest.
pub proof fn lemma_index_bounds<T>(cells: Seq<Option<(u64, T)>>, ph: u64, i: int)
    requires
        0 <= i <= cells.len(),
    ensures
        i <= insert_index(cells, ph, i) <= cells.len(),
        i <= pop_index(cells, ph, i) <= cells.len(),
        pop_index(cells, ph, i) < cells.len() ==> holds(cells[pop_index(cells, ph, i)], ph),
        insert_index(cells, ph, i) < cells.len() ==> takes(cells[insert_index(cells, ph, i)], ph),
        pop_index(cells, ph, i) == cells.len() ==> forall|k: int| i <= k < cells.len() ==> !holds(#[trigger] cells[k], ph),
    decreases cells.len() - i,
{
    if i < cells.len() {
        lemma_index_bounds(cells, ph, i + 1);
    }
}

/// Replacing one cell changes the live values by the two cells' contributions.
pub proof fn lemma_live_update<T>(cells: Seq<Option<(u64, T)>>, j: int, c: Option<(u64, T)>, ph: u64)
    requires
        0 <= j < cells.len(),
    ensures
        live(cells.update(j, c), ph).add(contribution(cells[j], ph)) =~= live(cells, ph).add(
            contribution(c, ph),
        ),
    decreases cells.len(),
{
    let u = cells.update(j, c);
    assert(u.len() == cells.len());
    if j == cells.len() - 1 {
        assert(u.drop_last() =~= cells.drop_last());
        assert(u.last() == c);
    } else {
        assert(u.drop_last() =~= cells.drop_last().update(j, c));
        assert(u.last() == cells.last());
        lemma_live_update(cells.drop_last(), j, c, ph);
    }
    let lhs = live(u, ph).add(contribution(cells[j], ph));
    let rhs = live(cells, ph).add(contribution(c, ph));
    assert forall|x: T| lhs.count(x) == rhs.count(x) by {
        if j < cells.len() - 1 {
            assert(live(u.drop_last(), ph).add(contribution(cells[j], ph)).count(x) == live(
                cells.drop_last(),
                ph,
            ).add(contribution(c, ph)).count(x));
        }
    }
}

/// Cells that hold nothing for phase `ph` hold no live values.
pub proof fn lemma_live_empty<T>(cells: Seq<Option<(u64, T)>>, ph: u64)
    requires
        forall|k: int| 0 <= k < cells.len() ==> !holds(#[trigger] cells[k], ph),
    ensures
        live(cells, ph) =~= Multiset::empty(),
    decreases cells.len(),
{
    if cells.len() > 0 {
        lemma_live_empty(cells.drop_last(), ph);
    }
}

/// Popped values and the values still live add up to the values live at
/// the start, where each pop took one value out (`ms[k] == ms[k + 1].insert(vs[k])`).
proof fn lemma_pops_account<T>(ms: Seq<Multiset<T>>, vs: Seq<T>)
    requires
        ms.len() == vs.len() + 1,
        forall|k: int| 0 <= k < vs.len() ==> ms[k] == #[trigger] ms[k + 1].insert(vs[k]),
    ensures
        ms[0] =~= vs.to_multiset().add(ms.last()),
    decreases vs.len(),
{
    vs.to_multiset_ensures();
    if vs.len() == 0 {
        assert forall|a: T| vs.to_multiset().count(a) == 0 by {
            if vs.to_multiset().count(a) > 0 {
                assert(vs.contains(a));
            }
        }
    } else {
        let ms2 = ms.drop_last();
        let vs2 = vs.drop_last();
        assert forall|k: int| 0 <= k < vs2.len() implies ms2[k] == #[trigger] ms2[k + 1].insert(vs2[k]) by {
            assert(ms[k] == ms[k + 1].insert(vs[k]));
        }
        lemma_pops_account(ms2, vs2);
        vs2.to_multiset_ensures();
        assert(vs2.push(vs.last()) =~= vs);
        assert(ms[vs.len() - 1] == ms[vs.len() as int].insert(vs[vs.len() - 1]));
    }
}

/// Draining a pool returns each live value exactly once: where each pop
/// takes one value out of the live values (`ms[k] == ms[k + 1].insert(vs[k])`)
/// until none are left, the values handed out are, counted with their
/// multiplicity, the values that were live at the start.
pub proof fn lemma_drain_returns_each_once<T>(ms: Seq<Multiset<T>>, vs: Seq<T>)
    requires
        ms.len() == vs.len() + 1,
        forall|k: int| 0 <= k < vs.len() ==> ms[k] == #[trigger] ms[k + 1].insert(vs[k]),
        ms.last() == Multiset::<T>::empty(),
    ensures
        vs.to_multiset() == ms[0],
{
    lemma_pops_account(ms, vs);
    assert(vs.to_multiset().add(Multiset::empty()) =~= vs.to_multiset());
}

/// A list of cells holding values, protected by the pool's own phase.
pub struct Pool<T> {
    phase: u64,
    nodes: Vec<Node<T>>,
}

impl<T> Pool<T> {
    /// The pool's phase.
    pub closed spec fn phase(&self) -> u64 {
        self.phase
    }

    /// The cells, in list order.
    pub closed spec fn cells(&self) -> Seq<Option<(u64, T)>> {
        self.nodes@.map_values(|n: Node<T>| n@)
    }

    /// Every cell is at rest, and no value is tagged with a phase later
    /// than the pool's.
    pub closed spec fn wf(&self) -> bool {
        &&& self.nodes.len() >= 1
        &&& forall|k: int| 0 <= k < self.nodes.len() ==> (#[trigger] self.nodes[k]).wf()
        &&& forall|k: int|
            0 <= k < self.nodes.len() && (#[trigger] self.nodes[k])@ is Some ==> self.nodes[k]@.unwrap().0
                <= self.phase
    }

    /// No value is tagged with a phase later than the pool's.
    pub proof fn lemma_phases_bounded(&self)
        requires
            self.wf(),
        ensures
            forall|k: int|
                0 <= k < self.cells().len() && (#[trigger] self.cells()[k]) is Some ==> self.cells()[k].unwrap().0
                    <= self.phase(),
    {
        assert forall|k: int|
            0 <= k < self.cells().len() && (#[trigger] self.cells()[k]) is Some implies self.cells()[k].unwrap().0
            <= self.phase() by {
            assert(self.cells()[k] == self.nodes[k]@);
        }
    }

    pub fn new() -> (r: Self)
        ensures
            r.wf(),
            r.phase() == 0,
            r.cells() == seq![None::<(u64, T)>],
    {
        let mut nodes: Vec<Node<T>> = Vec::new();
        nodes.push(Node::new());
        let r = Self { phase: 0, nodes };
        assert(r.cells() =~= seq![None::<(u64, T)>]);
        r
    }

    /// Moves the pool to phase `n_phase`, which must be later than its own.
    pub fn update_phase(&mut self, n_phase: u64) -> (r: Result<(), ()>)
        requires
            old(self).wf(),
        ensures
            final(self).wf(),
            r is Ok <==> n_phase > old(self).phase(),
            final(self).phase() == if r is Ok { n_phase } else { old(self).phase() },
            final(self).cells() == old(self).cells(),
    {
        if self.phase >= n_phase {
            return Err(());
        }
        self.phase = n_phase;
        Ok(())
    }

    /// Inserts `data` as a value of `phase`, if `phase` is the pool's phase.
    /// It goes into the first cell that is empty or holds a value of an
    /// earlier phase (that value is dropped), or into a new cell at the end.
    pub fn insert(&mut self, data: T, phase: u64) -> (r: Result<(), ()>)
        requires
            old(self).wf(),
        ensures
            final(self).wf(),
            final(self).phase() == old(self).phase(),
            r is Ok <==> phase == old(self).phase(),
            r is Err ==> final(self).cells() == old(self).cells(),
            r is Ok ==> final(self).cells() == if insert_index(old(self).cells(), phase, 0)
                < old(self).cells().len() {
                old(self).cells().update(insert_index(old(self).cells(), phase, 0), Some((phase, data)))
            } else {
                old(self).cells().push(Some((phase, data)))
            },
            r is Ok ==> live(final(self).cells(), phase) == live(old(self).cells(), phase).insert(data),
    {
        if self.phase != phase {
            return Err(());
        }
        let ghost cells = self.cells();
        let mut i: usize = 0;
        while i < self.nodes.len()
            invariant
                self.wf(),
                self.phase == phase,
                old(self).phase == phase,
                self.nodes@ == old(self).nodes@,
                cells == self.cells(),
                i <= cells.len(),
                insert_index(cells, phase, 0) == insert_index(cells, phase, i as int),
            decreases self.nodes.len() - i,
        {
            assert(cells[i as int] == self.nodes[i as int]@);
            let taken = match self.nodes[i].load_state() {
                State::Empty => true,
                State::Filled => self.nodes[i].phase < phase,
                _ => false,
            };
            if taken {
                let ghost prev = cells[i as int];
                self.nodes[i].fill(data, phase);
                proof {
                    assert(self.cells() =~= cells.update(i as int, Some((phase, data))));
                    lemma_live_update(cells, i as int, Some((phase, data)), phase);
                    assert(contribution(prev, phase) =~= Multiset::empty());
                    assert(live(self.cells(), phase) =~= live(cells, phase).insert(data));
                }
                return Ok(());
            }
            i = i + 1;
        }
        let mut next_node = Node::new();
        next_node.fill(data, phase);
        self.nodes.push(next_node);
        proof {
            assert(self.cells() =~= cells.push(Some((phase, data))));
            assert(self.cells().drop_last() =~= cells);
            assert(live(self.cells(), phase) =~= live(cells, phase).insert(data));
        }
        Ok(())
    }

    /// Hands out a value of `phase`, if `phase` is the pool's phase: the
    /// first that the list holds. Values of other phases that the walk meets
    /// before it are dropped.
    pub fn pop(&mut self, phase: u64) -> (r: Result<T, PopError>)
        requires
            old(self).wf(),
        ensures
            final(self).wf(),
            final(self).phase() == old(self).phase(),
            phase != old(self).phase() ==> r == Err::<T, PopError>(PopError::InvalidPhase),
            phase != old(self).phase() ==> final(self).cells() == old(self).cells(),
            phase == old(self).phase() ==> final(self).cells() == popped_cells(old(self).cells(), phase),
            phase == old(self).phase() && pop_index(old(self).cells(), phase, 0) < old(self).cells().len()
                ==> r == Ok::<T, PopError>(old(self).cells()[pop_index(old(self).cells(), phase, 0)].unwrap().1),
            phase == old(self).phase() && pop_index(old(self).cells(), phase, 0) < old(self).cells().len()
                ==> live(final(self).cells(), phase).insert(
                old(self).cells()[pop_index(old(self).cells(), phase, 0)].unwrap().1,
            ) == live(old(self).cells(), phase),
            phase == old(self).phase() && pop_index(old(self).cells(), phase, 0) == old(self).cells().len()
                ==> r == Err::<T, PopError>(PopError::Empty) && live(old(self).cells(), phase) == Multiset::<
                T,
            >::empty() && live(final(self).cells(), phase) == Multiset::<T>::empty(),
    {
        if self.phase != phase {
            return Err(PopError::InvalidPhase);
        }
        let ghost cells = old(self).cells();
        let mut i: usize = 0;
        while i < self.nodes.len()
            invariant
                self.wf(),
                self.phase == phase,
                old(self).phase == phase,
                self.nodes.len() == cells.len(),
                old(self).cells() == cells,
                i <= cells.len(),
                pop_index(cells, phase, 0) == pop_index(cells, phase, i as int),
                forall|k: int|
                    0 <= k < cells.len() ==> #[trigger] self.cells()[k] == if k < i && cells[k] is Some {
                        None
                    } else {
                        cells[k]
                    },
                forall|k: int| 0 <= k < i ==> !holds(#[trigger] cells[k], phase),
                live(self.cells(), phase) == live(cells, phase),
            decreases self.nodes.len() - i,
        {
            assert(self.cells()[i as int] == self.nodes[i as int]@);
            if let State::Filled = self.nodes[i].load_state() {
                let ghost cur = self.cells();
                let node_phase = self.nodes[i].phase;
                if node_phase != self.phase {
                    let _ = self.nodes[i].take();
                    proof {
                        assert(self.cells() =~= cur.update(i as int, None));
                        lemma_live_update(cur, i as int, None, phase);
                        assert(contribution(cur[i as int], phase) =~= Multiset::empty());
                        assert(live(self.cells(), phase).add(Multiset::empty()) =~= live(self.cells(), phase));
                        assert(live(cur, phase).add(Multiset::empty()) =~= live(cur, phase));
                        assert(live(self.cells(), phase) =~= live(cur, phase));
                    }
                } else {
                    let d = self.nodes[i].take();
                    proof {
                        assert(cur[i as int] == cells[i as int]);
                        assert(self.cells() =~= cur.update(i as int, None));
                        lemma_live_update(cur, i as int, None, phase);
                        assert(holds(cells[i as int], phase));
                        assert(pop_index(cells, phase, i as int) == i);
                        assert(contribution(cur[i as int], phase) =~= Multiset::singleton(
                            cells[i as int].unwrap().1,
                        ));
                        assert(live(cur, phase).add(Multiset::empty()) =~= live(cur, phase));
                        assert(live(self.cells(), phase).insert(cells[i as int].unwrap().1) =~= live(
                            cur,
                            phase,
                        ));
                        assert forall|k: int| 0 <= k < cells.len() implies #[trigger] self.cells()[k]
                            == popped_cells(cells, phase)[k] by {
                            assert(self.cells()[k] == cur.update(i as int, None)[k]);
                        }
                        assert(self.cells() =~= popped_cells(cells, phase));
                    }
                    return Ok(d.unwrap());
                }
            }
            i = i + 1;
        }
        proof {
            lemma_live_empty(cells, phase);
            lemma_live_empty(self.cells(), phase);
            assert(self.cells() =~= popped_cells(cells, phase));
        }
        Err(PopError::Empty)
    }
}

} // verus!
