//! Per-cell count of the patterns that are still candidates.
//!
//! The real-valued weight sums and entropies that accompany these counts are
//! kept by the host of the solver; every change they need is a ban, and the
//! solver reports its bans in order. [`EntropyTracker::counts_after`] tells
//! the host what count each ban of a log left behind.

use crate::bits::{
    count_true, lemma_count_bounds, lemma_count_ext, lemma_count_none, lemma_count_remove,
};
use crate::cell::CellIndex;
use crate::cell_collection::CellCollection;
use crate::pattern_collection::PatternIndex;
use vstd::prelude::*;

verus! {

/// Number of bans of cell `c` in `log` at position `k` or later.
pub open spec fn bans_from(log: Seq<(CellIndex, PatternIndex)>, k: int, c: int) -> int {
    count_true(|m: int| m >= k && log[m].0.base == c, log.len() as int)
}

/// The count that the ban at position `k` of `log` left in its cell, where
/// `counts` holds the counts after all the bans of the log: the count of
/// the cell and one more for every later ban of the cell, but no more than
/// fits in an `i32`.
pub open spec fn count_after_ban(log: Seq<(CellIndex, PatternIndex)>, counts: Seq<i32>, k: int) -> int {
    let left = counts[log[k].0.base as int] + bans_from(log, k + 1, log[k].0.base as int);
    if left > i32::MAX {
        i32::MAX as int
    } else {
        left
    }
}

/// The number of candidates that each cell has left.
#[derive(Clone)]
pub struct EntropyTracker {
    pub(crate) possible_pattern_count: CellCollection<i32>,
    pub(crate) t_count: usize,
}

impl EntropyTracker {
    /// The candidate count of every cell.
    pub open(crate) spec fn counts(&self) -> Seq<i32> {
        self.possible_pattern_count.data@
    }

    /// Size of the pattern vocabulary.
    pub open(crate) spec fn spec_t_count(&self) -> int {
        self.t_count as int
    }

    /// A tracker for `n_cells` cells that all hold the full vocabulary.
    pub fn new(n_cells: usize, t_count: usize) -> (r: Self)
        requires
            t_count <= i32::MAX,
        ensures
            r.spec_t_count() == t_count,
            r.counts() == Seq::new(n_cells as nat, |i: int| t_count as i32),
    {
        Self {
            possible_pattern_count: CellCollection::new_with_value(n_cells, t_count as i32),
            t_count,
        }
    }

    /// Records that one candidate pattern of `cell` was banned.
    pub fn ban_pattern(&mut self, cell: CellIndex, pattern: PatternIndex)
        requires
            cell.base < old(self).counts().len(),
            pattern.base < old(self).spec_t_count(),
            old(self).counts()[cell.base as int] > i32::MIN,
        ensures
            final(self).spec_t_count() == old(self).spec_t_count(),
            final(self).counts() == old(self).counts().update(
                cell.base as int,
                (old(self).counts()[cell.base as int] - 1) as i32,
            ),
    {
        let count = self.possible_pattern_count.get(cell);
        self.possible_pattern_count.set(cell, count - 1);
    }

    /// Whether exactly one candidate is left in `cell`.
    #[inline(always)]
    pub fn pattern_determined(&self, cell: CellIndex) -> (r: bool)
        requires
            cell.base < self.counts().len(),
        ensures
            r == (self.counts()[cell.base as int] == 1),
    {
        let count = self.possible_pattern_count.get(cell);
        count == 1
    }

    /// Whether no candidate is left in `cell`.
    #[inline(always)]
    pub fn has_no_possible_patterns(&self, cell: CellIndex) -> (r: bool)
        requires
            cell.base < self.counts().len(),
        ensures
            r == (self.counts()[cell.base as int] == 0),
    {
        self.possible_pattern_count.get(cell) == 0
    }

    /// Number of candidates left in `cell`.
    #[inline(always)]
    pub fn possible_pattern_count(&self, cell: CellIndex) -> (r: i32)
        requires
            cell.base < self.counts().len(),
        ensures
            r == self.counts()[cell.base as int],
    {
        self.possible_pattern_count.get(cell)
    }

    /// Puts every cell back to the full vocabulary.
    pub fn reset(&mut self)
        requires
            old(self).spec_t_count() <= i32::MAX,
        ensures
            final(self).spec_t_count() == old(self).spec_t_count(),
            final(self).counts() == Seq::new(
                old(self).counts().len(),
                |i: int| old(self).spec_t_count() as i32,
            ),
    {
        self.possible_pattern_count.fill(self.t_count as i32);
    }

    /// For every ban of a log, the count that the ban left in its cell,
    /// where the tracker holds the counts after all the bans of the log.
    pub fn counts_after(&self, log: &Vec<(CellIndex, PatternIndex)>) -> (r: Vec<i32>)
        requires
            forall|k: int| 0 <= k < log@.len() ==> (#[trigger] log@[k]).0.base < self.counts().len(),
        ensures
            r@.len() == log@.len(),
            forall|k: int|
                0 <= k < log@.len() ==> #[trigger] r@[k] == count_after_ban(log@, self.counts(), k),
    {
        let n = self.possible_pattern_count.len();
        let len = log.len();
        let mut later: Vec<usize> = Vec::with_capacity(n);
        let mut c: usize = 0;
        while c < n
            invariant
                c <= n,
                len == log@.len(),
                later@.len() == c,
                forall|j: int| 0 <= j < c ==> #[trigger] later@[j] == bans_from(log@, len as int, j),
            decreases n - c,
        {
            proof {
                lemma_count_none(|m: int| m >= len && log@[m].0.base == c, len as int);
            }
            later.push(0);
            c += 1;
        }
        let mut r: Vec<i32> = Vec::with_capacity(len);
        let mut k: usize = 0;
        while k < len
            invariant
                k <= len,
                r@.len() == k,
            decreases len - k,
        {
            r.push(0);
            k += 1;
        }
        while k > 0
            invariant
                k <= len,
                len == log@.len(),
                n == self.counts().len(),
                r@.len() == len,
                later@.len() == n,
                forall|j: int| 0 <= j < log@.len() ==> (#[trigger] log@[j]).0.base < n,
                forall|j: int| 0 <= j < n ==> #[trigger] later@[j] == bans_from(log@, k as int, j),
                forall|j: int|
                    k <= j < len ==> #[trigger] r@[j] == count_after_ban(log@, self.counts(), j),
            decreases k,
        {
            k -= 1;
            let cell = log[k].0;
            let count = self.possible_pattern_count.get(cell);
            let seen = later[cell.base];
            let ghost before = later@;
            proof {
                let f = |m: int| m >= k && log@[m].0.base == cell.base;
                let g = |m: int| m >= k + 1 && log@[m].0.base == cell.base;
                lemma_count_bounds(f, len as int);
                lemma_count_bounds(g, len as int);
                lemma_count_remove(f, g, len as int, k as int);
            }
            let left: i32 = if seen > u32::MAX as usize {
                i32::MAX
            } else {
                let total: i64 = count as i64 + seen as i64;
                if total > i32::MAX as i64 {
                    i32::MAX
                } else {
                    total as i32
                }
            };
            r[k] = left;
            later[cell.base] = seen + 1;
            proof {
                assert forall|j: int| 0 <= j < n implies #[trigger] later@[j] == bans_from(
                    log@,
                    k as int,
                    j,
                ) by {
                    let f = |m: int| m >= k && log@[m].0.base == j;
                    let g = |m: int| m >= k + 1 && log@[m].0.base == j;
                    assert(before[j] == bans_from(log@, k + 1, j));
                    if j == cell.base {
                        lemma_count_remove(f, g, len as int, k as int);
                    } else {
                        lemma_count_ext(f, g, len as int);
                    }
                }
            }
        }
        r
    }
}

} // verus!
