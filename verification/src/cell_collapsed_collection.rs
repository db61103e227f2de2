//! The cells that are not collapsed yet, as a compact prefix of a list.

use crate::cell::CellIndex;
use crate::entropy_tracker::EntropyTracker;
use vstd::prelude::*;

verus! {

/// The cells of `cells` that have more than one candidate left, in the order of `cells`.
pub open spec fn retain_open(cells: Seq<CellIndex>, counts: Seq<i32>) -> Seq<CellIndex>
    decreases cells.len(),
{
    if cells.len() == 0 {
        Seq::empty()
    } else if counts[cells.last().base as int] > 1 {
        retain_open(cells.drop_last(), counts).push(cells.last())
    } else {
        retain_open(cells.drop_last(), counts)
    }
}

/// What is retained: exactly the cells of the list with more than one
/// candidate, without new repetitions, and never more than the list held.
pub proof fn lemma_retain_open(cells: Seq<CellIndex>, counts: Seq<i32>)
    ensures
        retain_open(cells, counts).len() <= cells.len(),
        forall|c: CellIndex| #[trigger]
            retain_open(cells, counts).contains(c) <==> cells.contains(c) && counts[c.base as int]
                > 1,
        cells.no_duplicates() ==> retain_open(cells, counts).no_duplicates(),
    decreases cells.len(),
{
    let kept = retain_open(cells, counts);
    if cells.len() > 0 {
        let front = cells.drop_last();
        let last = cells.last();
        let prev = retain_open(front, counts);
        lemma_retain_open(front, counts);
        assert forall|c: CellIndex| #[trigger]
            kept.contains(c) <==> cells.contains(c) && counts[c.base as int] > 1 by {
            if kept.contains(c) {
                let k = choose|k: int| 0 <= k < kept.len() && kept[k] == c;
                if k < prev.len() {
                    assert(prev[k] == c);
                    assert(prev.contains(c));
                    let j = choose|j: int| 0 <= j < front.len() && front[j] == c;
                    assert(cells[j] == c);
                } else {
                    assert(cells[cells.len() - 1] == c);
                }
            }
            if cells.contains(c) && counts[c.base as int] > 1 {
                let j = choose|j: int| 0 <= j < cells.len() && cells[j] == c;
                if j < front.len() {
                    assert(front[j] == c);
                    assert(prev.contains(c));
                    let k = choose|k: int| 0 <= k < prev.len() && prev[k] == c;
                    assert(kept[k] == c);
                } else {
                    assert(kept[kept.len() - 1] == c);
                }
            }
        }
        if cells.no_duplicates() {
            assert(front.no_duplicates());
            if counts[last.base as int] > 1 {
                assert(!prev.contains(last)) by {
                    if front.contains(last) {
                        let j = choose|j: int| 0 <= j < front.len() && front[j] == last;
                        assert(cells[j] == cells[cells.len() - 1]);
                    }
                }
                assert forall|a: int, b: int| 0 <= a < kept.len() && 0 <= b < kept.len() && a
                    != b implies kept[a] != kept[b] by {
                    if a < prev.len() && b < prev.len() {
                    } else if a < prev.len() {
                        assert(prev.contains(prev[a]));
                    } else {
                        assert(prev.contains(prev[b]));
                    }
                }
            }
        }
    } else {
        assert forall|c: CellIndex| !#[trigger] kept.contains(c) by {}
    }
}

/// Where every cell of the list has more than one candidate the whole list is
/// retained, and where none has, nothing is.
pub proof fn lemma_retain_uniform(cells: Seq<CellIndex>, counts: Seq<i32>)
    ensures
        (forall|k: int| 0 <= k < cells.len() ==> counts[(#[trigger] cells[k]).base as int] > 1)
            ==> retain_open(cells, counts) == cells,
        (forall|k: int| 0 <= k < cells.len() ==> counts[(#[trigger] cells[k]).base as int] <= 1)
            ==> retain_open(cells, counts) == Seq::<CellIndex>::empty(),
    decreases cells.len(),
{
    if cells.len() > 0 {
        let front = cells.drop_last();
        lemma_retain_uniform(front, counts);
        assert forall|k: int| 0 <= k < front.len() implies front[k] == cells[k] by {}
        if forall|k: int| 0 <= k < cells.len() ==> counts[(#[trigger] cells[k]).base as int] > 1 {
            assert forall|k: int| 0 <= k < front.len() implies
            counts[(#[trigger] front[k]).base as int]
                > 1 by {
                assert(front[k] == cells[k]);
            }
            assert(counts[cells[cells.len() - 1].base as int] > 1);
            assert(front.push(cells.last()) =~= cells);
        }
        if forall|k: int| 0 <= k < cells.len() ==> counts[(#[trigger] cells[k]).base as int] <= 1 {
            assert forall|k: int| 0 <= k < front.len() implies
            counts[(#[trigger] front[k]).base as int]
                <= 1 by {
                assert(front[k] == cells[k]);
            }
            assert(counts[cells[cells.len() - 1].base as int] <= 1);
        }
    } else {
        assert(cells =~= Seq::<CellIndex>::empty());
    }
}

/// A list of cell indices whose first `count` entries are the cells that are
/// not collapsed yet.
#[derive(Clone)]
pub struct CellCollapsedCollection {
    pub indices: Vec<CellIndex>,
    pub count: usize,
    pub(crate) n_cells: usize,
}

impl View for CellCollapsedCollection {
    type V = Seq<CellIndex>;

    /// The uncollapsed cells: the first `count` entries of the list.
    open(crate) spec fn view(&self) -> Seq<CellIndex> {
        self.indices@.subrange(0, self.count as int)
    }
}

impl CellCollapsedCollection {
    /// Number of cells of the grid.
    pub open(crate) spec fn spec_n_cells(&self) -> int {
        self.n_cells as int
    }

    /// The whole list, the entries after the prefix included.
    pub open(crate) spec fn storage(&self) -> Seq<CellIndex> {
        self.indices@
    }

    /// The list has room for every cell, and the prefix names cells of the
    /// grid, each at most once.
    pub open(crate) spec fn wf(&self) -> bool {
        &&& self.indices@.len() == self.n_cells
        &&& self.count <= self.n_cells
        &&& forall|k: int| 0 <= k < self.count ==> (#[trigger] self.indices@[k]).base < self.n_cells
        &&& self@.no_duplicates()
    }

    /// The list of all the cells of a grid, none collapsed.
    pub fn new(n_cells: usize) -> (r: Self)
        ensures
            r.wf(),
            r.spec_n_cells() == n_cells,
            r.storage() == Seq::new(n_cells as nat, |i: int| CellIndex { base: i as usize }),
            r@ == r.storage(),
    {
        let mut indices: Vec<CellIndex> = Vec::with_capacity(n_cells);
        let mut n: usize = 0;
        while n < n_cells
            invariant
                n <= n_cells,
                indices@ == Seq::new(n as nat, |i: int| CellIndex { base: i as usize }),
            decreases n_cells - n,
        {
            indices.push(CellIndex { base: n });
            n += 1;
            assert(indices@ =~= Seq::new(n as nat, |i: int| CellIndex { base: i as usize }));
        }
        let r = Self { indices, n_cells, count: n_cells };
        assert(r@ =~= r.storage());
        r
    }

    /// The uncollapsed cells.
    pub fn get_uncollapsed_cells(&self) -> (r: &[CellIndex])
        requires
            self.wf(),
        ensures
            r@ == self@,
    {
        let active_slice = vstd::slice::slice_subrange(self.indices.as_slice(), 0, self.count);
        active_slice
    }

    /// Makes the first `n_cells` cells of the grid the uncollapsed cells again, in index order.
    pub fn reset(&mut self, n_cells: usize)
        requires
            old(self).wf(),
            n_cells <= old(self).spec_n_cells(),
        ensures
            final(self).wf(),
            final(self).spec_n_cells() == old(self).spec_n_cells(),
            final(self)@ == Seq::new(n_cells as nat, |i: int| CellIndex { base: i as usize }),
            forall|k: int|
                n_cells <= k < old(self).spec_n_cells() ==> final(self).storage()[k] == old(
                    self,
                ).storage()[k],
    {
        self.count = n_cells;
        let mut i: usize = 0;
        while i < n_cells
            invariant
                i <= n_cells,
                n_cells <= self.n_cells,
                self.n_cells == old(self).n_cells,
                self.count == n_cells,
                self.indices@.len() == self.n_cells,
                forall|k: int| 0 <= k < i ==> self.indices@[k] == (CellIndex { base: k as usize }),
                forall|k: int| i <= k < self.n_cells ==> self.indices@[k] == old(self).indices@[k],
            decreases n_cells - i,
        {
            let idx = CellIndex { base: i };
            self.indices[i] = idx;
            i += 1;
        }
        assert(self@ =~= Seq::new(n_cells as nat, |i: int| CellIndex { base: i as usize }));
    }

    /// Makes the given cells the uncollapsed cells, in their order.
    pub fn reset_from_snapshot(&mut self, saved: &Vec<CellIndex>)
        requires
            old(self).wf(),
            saved@.len() <= old(self).spec_n_cells(),
            saved@.no_duplicates(),
            forall|k: int| 0 <= k < saved@.len() ==> (#[trigger] saved@[k]).base < old(
                self,
            ).spec_n_cells(),
        ensures
            final(self).wf(),
            final(self).spec_n_cells() == old(self).spec_n_cells(),
            final(self)@ == saved@,
    {
        let n = saved.len();
        self.count = n;
        let mut i: usize = 0;
        while i < n
            invariant
                i <= n,
                n == saved@.len(),
                n <= self.n_cells,
                self.n_cells == old(self).n_cells,
                self.count == n,
                self.indices@.len() == self.n_cells,
                forall|k: int| 0 <= k < i ==> self.indices@[k] == saved@[k],
            decreases n - i,
        {
            self.indices[i] = saved[i];
            i += 1;
        }
        assert(self@ =~= saved@);
        assert forall|k: int| 0 <= k < self.count implies (#[trigger] self.indices@[k]).base
            < self.n_cells by {
            assert(self.indices@[k] == saved@[k]);
        }
    }

    /// Drops from the uncollapsed cells those that have at most one candidate
    /// left, keeping the order of the others.
    pub fn refresh(&mut self, entropy_tracker: &EntropyTracker)
        requires
            old(self).wf(),
            entropy_tracker.counts().len() == old(self).spec_n_cells(),
        ensures
            final(self).wf(),
            final(self).spec_n_cells() == old(self).spec_n_cells(),
            final(self)@ == retain_open(old(self)@, entropy_tracker.counts()),
            forall|k: int|
                final(self)@.len() <= k < old(self).spec_n_cells() ==> final(self).storage()[k]
                    == old(self).storage()[k],
    {
        let mut j: usize = 0;
        let current_count = self.count;
        let ghost before = self@;
        let ghost counts = entropy_tracker.counts();
        let mut i: usize = 0;
        while i < current_count
            invariant
                j <= i <= current_count,
                current_count <= self.n_cells,
                self.n_cells == old(self).n_cells,
                self.indices@.len() == self.n_cells,
                before == old(self)@,
                before.len() == current_count,
                counts == entropy_tracker.counts(),
                counts.len() == self.n_cells,
                forall|k: int| 0 <= k < current_count
                    ==> (#[trigger] before[k]).base < self.n_cells,
                forall|k: int| i <= k < current_count ==> self.indices@[k] == before[k],
                forall|k: int| j <= k < self.n_cells ==> self.indices@[k] == old(self).indices@[k],
                self.indices@.subrange(0, j as int)
                    == retain_open(before.subrange(0, i as int), counts),
            decreases current_count - i,
        {
            let idx = self.indices[i];
            assert(idx == before[i as int]);
            let pattern_count = entropy_tracker.possible_pattern_count(idx);
            let ghost prev = self.indices@;
            if pattern_count > 1 {
                self.indices[j] = idx;
                j += 1;
            }
            proof {
                let head = before.subrange(0, i + 1);
                assert(head.drop_last() =~= before.subrange(0, i as int));
                assert(head.last() == idx);
                if pattern_count > 1 {
                    assert(self.indices@.subrange(0, j as int) =~= prev.subrange(0, j - 1).push(idx));
                } else {
                    assert(self.indices@.subrange(0, j as int) =~= prev.subrange(0, j as int));
                }
            }
            i += 1;
        }
        self.count = j;
        proof {
            assert(before.subrange(0, current_count as int) =~= before);
            lemma_retain_open(before, counts);
            assert forall|k: int| 0 <= k < self.count implies (#[trigger] self.indices@[k]).base
                < self.n_cells by {
                let c = self@[k];
                assert(self@.contains(c));
                assert(before.contains(c));
            }
        }
    }

    /// Number of collapsed cells: the cells of the grid that are not in the prefix.
    pub fn collapsed_count(&self) -> (r: usize)
        requires
            self.wf(),
        ensures
            r == self.spec_n_cells() - self@.len(),
    {
        let collapsed = self.n_cells - self.count;
        collapsed
    }
}

} // verus!
