//! The compatibility counts: for every cell, pattern and direction, how many
//! patterns of the neighbour on that side still support the pattern.
//!
//! The counts are stored direction-major: one lane per direction, and within
//! a lane one run of `t_count` counts per cell.

use crate::bits::{lemma_flat_index, lemma_vec_len_bound};
use crate::cell::CellIndex;
use crate::direction::Direction;
use crate::pattern_collection::PatternIndex;
use crate::propagator::Propagator;
use vstd::prelude::*;

verus! {

/// Position of the count of `(cell, t, d)` in the direction-major table.
pub open spec fn flat_index(n_cells: int, t_count: int, cell: int, t: int, d: Direction) -> int {
    d.spec_index() * (n_cells * t_count) + cell * t_count + t
}

/// The table in which every count is the recorded length of its pattern and
/// direction.
pub open spec fn initial_counts(lengths: Seq<i32>, n_cells: int, t_count: int) -> Seq<u16> {
    Seq::new(
        (4 * (n_cells * t_count)) as nat,
        |k: int| lengths[(k / (n_cells * t_count)) * t_count + k % t_count] as u16,
    )
}

/// Where a position of the table lies: inside the table, in the lane of its
/// direction, at the offset of its pattern.
pub proof fn lemma_flat_index_parts(n_cells: int, t_count: int, cell: int, t: int, d: Direction)
    requires
        0 <= cell < n_cells,
        0 <= t < t_count,
    ensures
        0 <= flat_index(n_cells, t_count, cell, t, d) < 4 * (n_cells * t_count),
        0 <= cell * t_count + t < n_cells * t_count,
        flat_index(n_cells, t_count, cell, t, d) / (n_cells * t_count) == d.spec_index(),
        flat_index(n_cells, t_count, cell, t, d) % (n_cells * t_count) == cell * t_count + t,
        flat_index(n_cells, t_count, cell, t, d) % t_count == t,
        (cell * t_count + t) / t_count == cell,
{
    let cpd = n_cells * t_count;
    lemma_flat_index(cell, n_cells, t, t_count);
    lemma_flat_index(d.spec_index(), 4, cell * t_count + t, cpd);
    assert(d.spec_index() * cpd + cell * t_count + t == (d.spec_index() * n_cells + cell) * t_count
        + t) by (nonlinear_arith)
        requires
            cpd == n_cells * t_count,
    ;
    assert(0 <= d.spec_index() * n_cells + cell) by (nonlinear_arith)
        requires
            0 <= d.spec_index(),
            0 <= cell < n_cells,
    ;
    lemma_flat_index(
        d.spec_index() * n_cells + cell,
        d.spec_index() * n_cells + cell + 1,
        t,
        t_count,
    );
}

/// Different cells, patterns or directions have different positions.
pub proof fn lemma_flat_index_distinct(
    n_cells: int,
    t_count: int,
    c1: int,
    t1: int,
    d1: Direction,
    c2: int,
    t2: int,
    d2: Direction,
)
    requires
        0 <= c1 < n_cells,
        0 <= t1 < t_count,
        0 <= c2 < n_cells,
        0 <= t2 < t_count,
        flat_index(n_cells, t_count, c1, t1, d1) == flat_index(n_cells, t_count, c2, t2, d2),
    ensures
        c1 == c2,
        t1 == t2,
        d1 == d2,
{
    lemma_flat_index_parts(n_cells, t_count, c1, t1, d1);
    lemma_flat_index_parts(n_cells, t_count, c2, t2, d2);
}

/// The table of compatibility counts.
#[derive(Clone)]
pub struct Compatible {
    pub(crate) data: Vec<u16>,
    pub(crate) t_count: usize,
    pub(crate) cells_per_dir: usize,
    pub(crate) n_cells: usize,
}

/// Position of a count in the table.
#[derive(Copy, Clone, Debug)]
pub struct CompatibleIndex {
    pub base: usize,
}

impl View for Compatible {
    type V = Seq<u16>;

    /// The counts in storage order.
    open(crate) spec fn view(&self) -> Seq<u16> {
        self.data@
    }
}

impl Compatible {
    /// Size of the pattern vocabulary.
    pub open(crate) spec fn spec_t_count(&self) -> int {
        self.t_count as int
    }

    /// Number of cells.
    pub open(crate) spec fn spec_n_cells(&self) -> int {
        self.n_cells as int
    }

    /// One count for every cell, pattern and direction.
    pub open(crate) spec fn wf(&self) -> bool {
        &&& self.cells_per_dir == self.n_cells * self.t_count
        &&& self.data@.len() == 4 * (self.n_cells * self.t_count)
    }

    /// The count of `(cell, t, d)`.
    pub open spec fn at(&self, cell: int, t: int, d: Direction) -> int {
        self@[flat_index(self.spec_n_cells(), self.spec_t_count(), cell, t, d)] as int
    }

    /// A table set to the recorded lengths of the rules.
    pub fn new(n_cells: usize, t_count: usize, propagator: &Propagator) -> (r: Self)
        requires
            4 * (n_cells * t_count) <= usize::MAX,
            propagator.wf(),
            propagator.spec_t_count() == t_count,
            forall|k: int|
                0 <= k < 4 * t_count ==> 0 <= #[trigger] propagator.spec_lengths()[k] <= u16::MAX,
        ensures
            r.wf(),
            r.spec_n_cells() == n_cells,
            r.spec_t_count() == t_count,
            r@ == initial_counts(propagator.spec_lengths(), n_cells as int, t_count as int),
    {
        let mut compatible = Self::new_empty(n_cells, t_count);
        compatible.reset(propagator);
        compatible
    }

    /// A table of zeros.
    #[inline(always)]
    pub fn new_empty(n_cells: usize, t_count: usize) -> (r: Self)
        requires
            4 * (n_cells * t_count) <= usize::MAX,
        ensures
            r.wf(),
            r.spec_n_cells() == n_cells,
            r.spec_t_count() == t_count,
            r@ == Seq::new((4 * (n_cells * t_count)) as nat, |k: int| 0u16),
    {
        assert(n_cells * t_count <= 4 * (n_cells * t_count)) by (nonlinear_arith)
            requires
                n_cells >= 0,
                t_count >= 0,
        ;
        let cells_per_dir: usize = n_cells * t_count;
        let total: usize = cells_per_dir * 4;
        let mut data: Vec<u16> = Vec::with_capacity(total);
        let mut k: usize = 0;
        while k < total
            invariant
                k <= total,
                data@.len() == k,
                forall|j: int| 0 <= j < k ==> data@[j] == 0u16,
            decreases total - k,
        {
            data.push(0u16);
            k += 1;
        }
        assert(data@ =~= Seq::new((4 * (n_cells * t_count)) as nat, |k: int| 0u16));
        Self { data, t_count, cells_per_dir, n_cells }
    }

    /// Position of the count of a cell, pattern and direction.
    #[inline(always)]
    pub fn get_index(&self, cell: CellIndex, pattern: PatternIndex, direction: Direction) -> (r:
        CompatibleIndex)
        requires
            self.wf(),
            cell.base < self.spec_n_cells(),
            pattern.base < self.spec_t_count(),
        ensures
            r.base == flat_index(
                self.spec_n_cells(),
                self.spec_t_count(),
                cell.base as int,
                pattern.base as int,
                direction,
            ),
            r.base < self@.len(),
    {
        proof {
            lemma_vec_len_bound(&self.data);
            lemma_flat_index_parts(
                self.n_cells as int,
                self.t_count as int,
                cell.base as int,
                pattern.base as int,
                direction,
            );
            let cpd = self.n_cells * self.t_count;
            assert(direction.spec_index() * cpd <= 3 * cpd) by (nonlinear_arith)
                requires
                    0 <= direction.spec_index() <= 3,
                    cpd >= 0,
            ;
            assert(cell.base * self.t_count <= cpd) by (nonlinear_arith)
                requires
                    cell.base < self.n_cells,
                    cpd == self.n_cells * self.t_count,
                    self.t_count >= 0,
            ;
        }
        let dir_offset = direction.index() * self.cells_per_dir;
        let cell_offset = cell.base * self.t_count;
        let base = dir_offset + cell_offset + pattern.base;
        CompatibleIndex { base }
    }

    /// The count of a cell, pattern and direction.
    pub fn get(&self, cell: CellIndex, pattern: PatternIndex, direction: Direction) -> (r: u16)
        requires
            self.wf(),
            cell.base < self.spec_n_cells(),
            pattern.base < self.spec_t_count(),
        ensures
            r == self.at(cell.base as int, pattern.base as int, direction),
    {
        let idx = self.get_index(cell, pattern, direction);
        self.data[idx.base]
    }

    /// Lowers the count at a position by one, stopping at zero, and returns the new count.
    pub fn decrement_by_index(&mut self, idx: CompatibleIndex) -> (r: u16)
        requires
            idx.base < old(self)@.len(),
        ensures
            final(self).spec_n_cells() == old(self).spec_n_cells(),
            final(self).spec_t_count() == old(self).spec_t_count(),
            final(self).wf() == old(self).wf(),
            r == if old(self)@[idx.base as int] > 0 {
                (old(self)@[idx.base as int] - 1) as u16
            } else {
                0u16
            },
            final(self)@ == old(self)@.update(idx.base as int, r),
    {
        let current_val = self.data[idx.base];
        if current_val > 0 {
            self.data[idx.base] = current_val - 1;
        }
        assert(self.data@ =~= old(self).data@.update(idx.base as int, self.data@[idx.base as int]));
        self.data[idx.base]
    }

    /// Lowers the count of a cell, pattern and direction by one, stopping at
    /// zero, and returns the new count.
    #[inline(always)]
    pub fn decrement(&mut self, cell: CellIndex, pattern: PatternIndex, direction: Direction) -> (r:
        u16)
        requires
            old(self).wf(),
            cell.base < old(self).spec_n_cells(),
            pattern.base < old(self).spec_t_count(),
        ensures
            final(self).wf(),
            final(self).spec_n_cells() == old(self).spec_n_cells(),
            final(self).spec_t_count() == old(self).spec_t_count(),
            r == if old(self).at(cell.base as int, pattern.base as int, direction) > 0 {
                old(self).at(cell.base as int, pattern.base as int, direction) - 1
            } else {
                0
            },
            final(self)@ == old(self)@.update(
                flat_index(
                    old(self).spec_n_cells(),
                    old(self).spec_t_count(),
                    cell.base as int,
                    pattern.base as int,
                    direction,
                ),
                r,
            ),
    {
        let idx = self.get_index(cell, pattern, direction);
        self.decrement_by_index(idx)
    }

    /// Sets every count back to the recorded length of its pattern and direction.
    pub fn reset(&mut self, propagator: &Propagator)
        requires
            old(self).wf(),
            propagator.wf(),
            propagator.spec_t_count() == old(self).spec_t_count(),
            forall|k: int|
                0 <= k < 4 * old(self).spec_t_count()
                    ==> 0 <= #[trigger] propagator.spec_lengths()[k]
                    <= u16::MAX,
        ensures
            final(self).wf(),
            final(self).spec_n_cells() == old(self).spec_n_cells(),
            final(self).spec_t_count() == old(self).spec_t_count(),
            final(self)@ == initial_counts(
                propagator.spec_lengths(),
                old(self).spec_n_cells(),
                old(self).spec_t_count(),
            ),
    {
        let t_count = self.t_count;
        let cells_per_dir = self.cells_per_dir;
        let n_cells = self.n_cells;
        let ghost target = initial_counts(propagator.spec_lengths(), n_cells as int, t_count as int);
        proof {
            lemma_vec_len_bound(&self.data);
        }
        let mut d_idx: usize = 0;
        while d_idx < 4
            invariant
                d_idx <= 4,
                self.wf(),
                propagator.wf(),
                propagator.spec_t_count() == t_count,
                self.t_count == t_count,
                self.n_cells == n_cells,
                self.cells_per_dir == cells_per_dir,
                4 * cells_per_dir <= usize::MAX,
                forall|k: int|
                    0 <= k < 4 * t_count
                        ==> 0 <= #[trigger] propagator.spec_lengths()[k] <= u16::MAX,
                target == initial_counts(propagator.spec_lengths(), n_cells as int, t_count as int),
                forall|k: int| 0 <= k < d_idx * cells_per_dir ==> self.data@[k] == target[k],
            decreases 4 - d_idx,
        {
            let d = Direction::from_index(d_idx);
            let mut dir_template: Vec<u16> = Vec::with_capacity(t_count);
            let mut t: usize = 0;
            while t < t_count
                invariant
                    t <= t_count,
                    propagator.wf(),
                    propagator.spec_t_count() == t_count,
                    d.spec_index() == d_idx,
                    dir_template@.len() == t,
                    forall|k: int|
                        0 <= k < 4 * t_count ==> 0 <= #[trigger] propagator.spec_lengths()[k]
                            <= u16::MAX,
                    forall|j: int|
                        0 <= j < t ==> dir_template@[j] == propagator.spec_lengths()[d_idx * t_count
                            + j] as u16,
                decreases t_count - t,
            {
                let p_idx = PatternIndex { base: t };
                let val = propagator.get_compatible_count(p_idx, d) as u16;
                dir_template.push(val);
                t += 1;
            }
            assert(d_idx * cells_per_dir + cells_per_dir == (d_idx + 1) * cells_per_dir
                && (d_idx + 1) * cells_per_dir <= 4 * cells_per_dir) by (nonlinear_arith)
                requires
                    d_idx < 4,
            ;
            let dir_start: usize = d_idx * cells_per_dir;
            let mut cell: usize = 0;
            while cell < n_cells
                invariant
                    cell <= n_cells,
                    d_idx < 4,
                    d.spec_index() == d_idx,
                    self.wf(),
                    self.t_count == t_count,
                    self.n_cells == n_cells,
                    self.cells_per_dir == cells_per_dir,
                    dir_start == d_idx * cells_per_dir,
                    dir_start + cells_per_dir <= 4 * cells_per_dir <= usize::MAX,
                    dir_template@.len() == t_count,
                    forall|j: int|
                        0 <= j < t_count ==> dir_template@[j] == propagator.spec_lengths()[d_idx
                            * t_count + j] as u16,
                    target == initial_counts(
                        propagator.spec_lengths(),
                        n_cells as int,
                        t_count as int,
                    ),
                    forall|k: int|
                        0 <= k < dir_start + cell * t_count ==> self.data@[k] == target[k],
                decreases n_cells - cell,
            {
                assert(cell * t_count + t_count <= cells_per_dir) by (nonlinear_arith)
                    requires
                        cell < n_cells,
                        cells_per_dir == n_cells * t_count,
                ;
                let chunk_start: usize = dir_start + cell * t_count;
                let mut t: usize = 0;
                while t < t_count
                    invariant
                        t <= t_count,
                        cell < n_cells,
                        d_idx < 4,
                        d.spec_index() == d_idx,
                        self.wf(),
                        self.t_count == t_count,
                        self.n_cells == n_cells,
                        self.cells_per_dir == cells_per_dir,
                        dir_start == d_idx * cells_per_dir,
                        chunk_start == dir_start + cell * t_count,
                        chunk_start + t_count <= 4 * cells_per_dir <= usize::MAX,
                        dir_template@.len() == t_count,
                        forall|j: int|
                            0 <= j < t_count ==> dir_template@[j] == propagator.spec_lengths()[d_idx
                                * t_count + j] as u16,
                        target == initial_counts(
                            propagator.spec_lengths(),
                            n_cells as int,
                            t_count as int,
                        ),
                        forall|k: int| 0 <= k < chunk_start + t ==> self.data@[k] == target[k],
                    decreases t_count - t,
                {
                    proof {
                        lemma_flat_index_parts(
                            n_cells as int,
                            t_count as int,
                            cell as int,
                            t as int,
                            d,
                        );
                    }
                    self.data[chunk_start + t] = dir_template[t];
                    t += 1;
                }
                assert(cell * t_count + t_count == (cell + 1) * t_count) by (nonlinear_arith);
                cell += 1;
            }
            d_idx += 1;
        }
        assert(self.data@ =~= target);
    }
}

/// In the initial table the count of every cell, pattern and direction is
/// the recorded length of the pattern and direction.
pub proof fn lemma_initial_counts(
    lengths: Seq<i32>,
    n_cells: int,
    t_count: int,
    cell: int,
    t: int,
    d: Direction,
)
    requires
        0 <= cell < n_cells,
        0 <= t < t_count,
    ensures
        initial_counts(lengths, n_cells, t_count)[flat_index(n_cells, t_count, cell, t, d)]
            == lengths[d.spec_index() * t_count + t] as u16,
{
    lemma_flat_index_parts(n_cells, t_count, cell, t, d);
}

} // verus!
