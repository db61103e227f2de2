//! The cells that changed since the list was last handed out.

use crate::cell::CellIndex;
use crate::cell_collection::CellCollection;
use vstd::prelude::*;

verus! {

/// The indices of a list of cells as 32-bit integers.
pub open spec fn cell_numbers(cells: Seq<CellIndex>) -> Seq<i32> {
    Seq::new(cells.len(), |k: int| cells[k].base as i32)
}

/// A list of cells without repetition, and a flag per cell that says whether
/// the cell is in the list.
#[derive(Clone)]
pub struct DirtyCells {
    pub(crate) list: Vec<CellIndex>,
    pub(crate) is_dirty: CellCollection<bool>,
}

impl View for DirtyCells {
    type V = Seq<CellIndex>;

    /// The dirty cells, in the order in which they became dirty.
    open(crate) spec fn view(&self) -> Seq<CellIndex> {
        self.list@
    }
}

impl DirtyCells {
    /// Number of cells that can be marked.
    pub open(crate) spec fn spec_n_cells(&self) -> int {
        self.is_dirty.data@.len() as int
    }

    /// Whether `cell` is flagged.
    pub open(crate) spec fn flagged(&self, cell: int) -> bool {
        self.is_dirty.data@[cell]
    }

    /// The list names cells of the grid, each at most once, and the flags
    /// mark exactly the cells of the list.
    pub open spec fn wf(&self) -> bool {
        &&& forall|k: int| 0 <= k < self@.len() ==> (#[trigger] self@[k]).base < self.spec_n_cells()
        &&& self@.no_duplicates()
        &&& forall|c: int|
            0 <= c < self.spec_n_cells() ==> (#[trigger] self.flagged(c) <==> self@.contains(
                CellIndex { base: c as usize },
            ))
    }

    /// An empty list over `n_cells` cells.
    pub fn new(n_cells: usize) -> (r: Self)
        ensures
            r.wf(),
            r.spec_n_cells() == n_cells,
            r@ == Seq::<CellIndex>::empty(),
    {
        let list = Vec::with_capacity(n_cells);
        let is_dirty = CellCollection::new_with_value(n_cells, false);
        Self { list, is_dirty }
    }

    /// Adds a cell to the list unless it is there already.
    pub fn mark_dirty(&mut self, idx: CellIndex)
        requires
            old(self).wf(),
            idx.base < old(self).spec_n_cells(),
        ensures
            final(self).wf(),
            final(self).spec_n_cells() == old(self).spec_n_cells(),
            final(self)@ == if old(self)@.contains(idx) {
                old(self)@
            } else {
                old(self)@.push(idx)
            },
    {
        if !self.is_dirty.get(idx) {
            self.list.push(idx);
            self.is_dirty.set(idx, true);
            proof {
                let prev = old(self)@;
                assert(!old(self).flagged(idx.base as int));
                assert(idx == CellIndex { base: idx.base as int as usize });
                assert(!prev.contains(idx));
                assert(self@ == prev.push(idx));
                assert forall|c: int| 0 <= c < self.spec_n_cells() implies
                (#[trigger] self.flagged(c)
                    <==> self@.contains(CellIndex { base: c as usize })) by {
                    let ci = CellIndex { base: c as usize };
                    if c == idx.base {
                        assert(self@[prev.len() as int] == ci);
                    } else {
                        assert(self.flagged(c) == old(self).flagged(c));
                        if prev.contains(ci) {
                            let k = choose|k: int| 0 <= k < prev.len() && prev[k] == ci;
                            assert(self@[k] == ci);
                        }
                        if self@.contains(ci) {
                            let k = choose|k: int| 0 <= k < self@.len() && self@[k] == ci;
                            crate::bits::lemma_vec_len_bound(&self.is_dirty.data);
                            assert(ci != idx);
                            assert(k < prev.len());
                            assert(prev[k] == ci);
                        }
                    }
                }
            }
        } else {
            assert(old(self).flagged(idx.base as int));
            assert(idx == CellIndex { base: idx.base as int as usize });
        }
    }

    /// Hands out the list as cell numbers and empties it.
    pub fn flush_to_js(&mut self) -> (r: Vec<i32>)
        requires
            old(self).wf(),
            old(self).spec_n_cells() <= i32::MAX,
        ensures
            final(self).wf(),
            final(self).spec_n_cells() == old(self).spec_n_cells(),
            final(self)@ == Seq::<CellIndex>::empty(),
            r@ == cell_numbers(old(self)@),
    {
        let n = self.list.len();
        let mut result: Vec<i32> = Vec::with_capacity(n);
        let mut k: usize = 0;
        proof {
            assert forall|c: int|
                0 <= c < self.spec_n_cells() && #[trigger] self.flagged(c) implies exists|j: int|
                0 <= j < n && self.list@[j] == (CellIndex { base: c as usize }) by {
                assert(self@.contains(CellIndex { base: c as usize }));
            }
        }
        while k < n
            invariant
                k <= n,
                n == self.list@.len(),
                self.list@ == old(self).list@,
                self.spec_n_cells() == old(self).spec_n_cells(),
                self.spec_n_cells() <= i32::MAX,
                forall|j: int| 0 <= j < n ==> (#[trigger] self.list@[j]).base < self.spec_n_cells(),
                result@.len() == k,
                forall|j: int| 0 <= j < k ==> result@[j] == self.list@[j].base as i32,
                forall|c: int|
                    0 <= c < self.spec_n_cells() && #[trigger] self.flagged(c) ==> exists|j: int|
                        k <= j < n && self.list@[j] == (CellIndex { base: c as usize }),
            decreases n - k,
        {
            let idx = self.list[k];
            let ghost before = *self;
            self.is_dirty.set(idx, false);
            result.push(idx.base as i32);
            proof {
                assert forall|c: int|
                    0 <= c < self.spec_n_cells()
                        && #[trigger] self.flagged(c) implies exists|j: int|
                    k + 1 <= j < n && self.list@[j] == (CellIndex { base: c as usize }) by {
                    assert(c != idx.base);
                    assert(before.flagged(c));
                    let j = choose|j: int|
                        k <= j < n && before.list@[j] == (CellIndex { base: c as usize });
                    assert(j != k);
                    assert(k + 1 <= j < n && self.list@[j] == (CellIndex { base: c as usize }));
                }
            }
            k += 1;
        }
        let ghost pre = *self;
        self.list.clear();
        proof {
            assert(result@ =~= cell_numbers(old(self)@));
            assert forall|c: int| 0 <= c < self.spec_n_cells() implies (#[trigger] self.flagged(c)
                <==> self@.contains(CellIndex { base: c as usize })) by {
                if self.flagged(c) {
                    assert(pre.flagged(c));
                }
            }
        }
        result
    }

    /// The list as cell numbers; the list stays as it is.
    pub fn peek_changes(&self) -> (r: Vec<i32>)
        requires
            self.wf(),
            self.spec_n_cells() <= i32::MAX,
        ensures
            r@ == cell_numbers(self@),
    {
        let n = self.list.len();
        let mut result: Vec<i32> = Vec::with_capacity(n);
        let mut k: usize = 0;
        while k < n
            invariant
                k <= n,
                n == self.list@.len(),
                self.spec_n_cells() <= i32::MAX,
                forall|j: int| 0 <= j < n ==> (#[trigger] self.list@[j]).base < self.spec_n_cells(),
                result@.len() == k,
                forall|j: int| 0 <= j < k ==> result@[j] == self.list@[j].base as i32,
            decreases n - k,
        {
            let idx = self.list[k];
            result.push(idx.base as i32);
            k += 1;
        }
        assert(result@ =~= cell_numbers(self@));
        result
    }

    /// Empties the list.
    pub fn clear(&mut self)
        ensures
            final(self).wf(),
            final(self).spec_n_cells() == old(self).spec_n_cells(),
            final(self)@ == Seq::<CellIndex>::empty(),
    {
        self.list.clear();
        self.is_dirty.fill(false);
    }

    /// Puts every cell in the list, in index order.
    pub fn mark_all_dirty(&mut self)
        ensures
            final(self).wf(),
            final(self).spec_n_cells() == old(self).spec_n_cells(),
            final(self)@ == Seq::new(
                old(self).spec_n_cells() as nat,
                |i: int| CellIndex { base: i as usize },
            ),
    {
        let n_cells = self.is_dirty.len();
        self.list.clear();
        let mut i: usize = 0;
        while i < n_cells
            invariant
                i <= n_cells,
                n_cells == self.spec_n_cells(),
                self.spec_n_cells() == old(self).spec_n_cells(),
                self.list@ == Seq::new(i as nat, |k: int| CellIndex { base: k as usize }),
                forall|c: int| 0 <= c < i ==> #[trigger] self.flagged(c),
            decreases n_cells - i,
        {
            let idx = CellIndex { base: i };
            let ghost before = *self;
            self.list.push(idx);
            self.is_dirty.set(idx, true);
            i += 1;
            assert(self.list@ =~= Seq::new(i as nat, |k: int| CellIndex { base: k as usize }));
            assert forall|c: int| 0 <= c < i implies #[trigger] self.flagged(c) by {
                if c < i - 1 {
                    assert(before.flagged(c));
                }
            }
        }
        proof {
            assert forall|c: int| 0 <= c < self.spec_n_cells() implies (#[trigger] self.flagged(c)
                <==> self@.contains(CellIndex { base: c as usize })) by {
                assert(self@[c] == CellIndex { base: c as usize });
            }
        }
    }
}

} // verus!
