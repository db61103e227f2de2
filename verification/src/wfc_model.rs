//! The solver: observation targets, collapse, propagation, snapshots and revert.

use crate::bits::{
    count_true, lemma_count_bounds, lemma_count_ext, lemma_count_full, lemma_count_none,
    lemma_count_remove, words_for,
};
use crate::cell::{Cell, CellIndex};
use crate::cell_collapsed_collection::{lemma_retain_uniform, CellCollapsedCollection};
use crate::cell_collection::CellCollection;
use crate::compatible::{initial_counts, lemma_initial_counts, Compatible};
use crate::direction::Direction;
use crate::dirty_cells::DirtyCells;
use crate::entropy_tracker::EntropyTracker;
use crate::grid::{lemma_coords, lemma_neighbor_in_range, lemma_wrap};
use crate::pattern_collection::PatternIndex;
use crate::propagator::{adjacency_in_bounds, listed, Propagator};
use crate::support::{counts_match, lemma_support_full, support, Grid};
use crate::wave::{data_has, data_wf, full_data, lemma_full_data, Wave};
use vstd::prelude::*;

verus! {

/// Outcome of one iteration of the solver.
#[derive(Clone, Copy, PartialEq, Eq, Structural, Debug)]
pub enum IterationResult {
    /// A contradiction was met and the state was rewound to a snapshot.
    REVERT,
    /// Nothing was left to collapse: the grid is complete.
    SUCCESS,
    /// One cell was collapsed and the consequences were propagated.
    STEP,
    /// A contradiction was met and no snapshot was left.
    FAIL,
}

/// What is kept to rewind the solver: the wave, the uncollapsed cells, the
/// choice that was about to be tried, and the progress marker of that moment.
#[derive(Clone)]
pub struct WaveSnapshot {
    pub(crate) wave_data: Vec<u64>,
    pub(crate) cells_collapsed_indices: Vec<CellIndex>,
    pub(crate) tried_pattern: PatternIndex,
    pub(crate) target_cell: CellIndex,
    pub(crate) last_snapshot_progress: usize,
}

impl WaveSnapshot {
    /// The wave words held by the snapshot.
    pub open(crate) spec fn spec_wave_data(&self) -> Seq<u64> {
        self.wave_data@
    }

    /// The cells that were uncollapsed when the snapshot was taken.
    pub open(crate) spec fn spec_cells(&self) -> Seq<CellIndex> {
        self.cells_collapsed_indices@
    }

    /// The cell that was about to be collapsed.
    pub open(crate) spec fn spec_target(&self) -> CellIndex {
        self.target_cell
    }

    /// The pattern that the cell was about to be collapsed to.
    pub open(crate) spec fn spec_tried(&self) -> PatternIndex {
        self.tried_pattern
    }

    /// The progress marker that was current before the snapshot was taken.
    pub open(crate) spec fn spec_progress(&self) -> int {
        self.last_snapshot_progress as int
    }

    /// The wave words held by the snapshot.
    pub fn wave_data(&self) -> (r: &[u64])
        ensures
            r@ == self.spec_wave_data(),
    {
        self.wave_data.as_slice()
    }

    /// The cells that were uncollapsed when the snapshot was taken.
    pub fn uncollapsed_cells(&self) -> (r: &[CellIndex])
        ensures
            r@ == self.spec_cells(),
    {
        self.cells_collapsed_indices.as_slice()
    }

    /// The cell that was about to be collapsed.
    pub fn target_cell(&self) -> (r: CellIndex)
        ensures
            r == self.spec_target(),
    {
        self.target_cell
    }

    /// The pattern that the cell was about to be collapsed to.
    pub fn tried_pattern(&self) -> (r: PatternIndex)
        ensures
            r == self.spec_tried(),
    {
        self.tried_pattern
    }

    /// Whether `t` was a candidate of cell `i` when the snapshot was taken.
    pub open spec fn has(&self, t_count: int, i: int, t: int) -> bool {
        data_has(self.spec_wave_data(), t_count, i, t)
    }

    /// The snapshot fits a grid of `n_cells` cells and `t_count` patterns:
    /// its wave is well formed, its cells are cells of the grid, each named
    /// once, among them every cell that had more than one candidate, and the
    /// pattern it tried was a candidate of its target.
    pub open spec fn wf(&self, n_cells: int, t_count: int) -> bool {
        &&& data_wf(self.spec_wave_data(), n_cells, t_count)
        &&& self.spec_cells().len() <= n_cells
        &&& self.spec_cells().no_duplicates()
        &&& forall|k: int|
            0 <= k < self.spec_cells().len() ==> (#[trigger] self.spec_cells()[k]).base < n_cells
        &&& forall|i: int|
            0 <= i < n_cells && count_true(|t: int| self.has(t_count, i, t), t_count) > 1
                ==> self.spec_cells().contains(#[trigger] cell_of(i))
        &&& self.spec_target().base < n_cells
        &&& self.spec_tried().base < t_count
        &&& self.has(t_count, self.spec_target().base as int, self.spec_tried().base as int)
    }
}

/// The index of cell `i`.
pub open spec fn cell_of(i: int) -> CellIndex {
    CellIndex { base: i as usize }
}

/// The cells `0, 1, .., n - 1` in order.
pub open spec fn all_cells(n: int) -> Seq<CellIndex> {
    Seq::new(n as nat, |i: int| CellIndex { base: i as usize })
}

/// Which patterns are live for the compatibility counts, given the wave and
/// the bans that wait to be propagated.
pub open spec fn live_of(wave: Wave, stack: Seq<Ban>) -> spec_fn(int, int) -> bool {
    |i: int, t: int| wave.has(i, t) || stack.contains(ban_of(i, t))
}

/// A ban: a cell and the pattern that stopped being its candidate.
pub type Ban = (CellIndex, PatternIndex);

/// The ban of pattern `t` at cell `i`.
pub open spec fn ban_of(i: int, t: int) -> Ban {
    (CellIndex { base: i as usize }, PatternIndex { base: t as usize })
}

/// Whether `b` stands in `log` at position `from` or later.
pub open spec fn logged_after(log: Seq<Ban>, from: int, b: Ban) -> bool {
    exists|k: int| from <= k < log.len() && #[trigger] log[k] == b
}

/// Sum of a sequence of candidate counts.
pub open spec fn sum_counts(s: Seq<i32>) -> int
    decreases s.len(),
{
    if s.len() == 0 {
        0
    } else {
        sum_counts(s.drop_last()) + s.last()
    }
}

/// Replacing one count changes the sum by the difference.
pub proof fn lemma_sum_update(s: Seq<i32>, i: int, v: i32)
    requires
        0 <= i < s.len(),
    ensures
        sum_counts(s.update(i, v)) == sum_counts(s) - s[i] + v,
    decreases s.len(),
{
    let u = s.update(i, v);
    if i == s.len() - 1 {
        assert(u.drop_last() =~= s.drop_last());
    } else {
        lemma_sum_update(s.drop_last(), i, v);
        assert(u.drop_last() =~= s.drop_last().update(i, v));
    }
}

/// The mutable heart of the solver: the wave and everything derived from it.
#[derive(Clone)]
pub struct WFCState {
    pub wave: Wave,
    pub compatible: Compatible,
    pub entropy_tracker: EntropyTracker,
    pub observed: CellCollection<i32>,
    pub dirty_cells: DirtyCells,
    /// Bans whose consequences have not been propagated yet.
    pub stack: Vec<Ban>,
    /// Every ban since the log was last taken or the counts were last reset,
    /// in the order in which the bans were made.
    pub ban_log: Vec<Ban>,
}

impl WFCState {
    /// Number of cells.
    pub open spec fn n_cells(&self) -> int {
        self.wave.spec_n_cells()
    }

    /// Size of the pattern vocabulary.
    pub open spec fn t_count(&self) -> int {
        self.wave.spec_t_count()
    }

    /// Number of candidates of cell `i`, counted in the wave.
    pub open spec fn popcount(&self, i: int) -> int {
        self.wave.popcount(i)
    }

    /// Whether the ban of `t` at `i` waits on the stack.
    pub open spec fn pending(&self, i: int, t: int) -> bool {
        self.stack@.contains(ban_of(i, t))
    }

    /// Whether `t` still counts as present at `i` for the compatibility
    /// counts: it is a candidate, or its ban has not been propagated yet.
    pub open spec fn live(&self, i: int, t: int) -> bool {
        self.wave.has(i, t) || self.pending(i, t)
    }

    /// The candidate counts as the tracker holds them.
    pub open spec fn counts(&self) -> Seq<i32> {
        self.entropy_tracker.counts()
    }

    /// The observed pattern of every cell, `-1` where none is recorded.
    pub open spec fn observed_view(&self) -> Seq<i32> {
        self.observed.data@
    }

    /// What is counted by the termination measure of propagation: the
    /// candidates of all cells and the bans that wait on the stack.
    pub open spec fn measure(&self) -> int {
        sum_counts(self.counts()) + self.stack@.len()
    }

    /// The parts have matching sizes.
    pub open spec fn sizes_ok(&self) -> bool {
        &&& self.wave.wf()
        &&& 0 < self.t_count() <= i32::MAX
        &&& self.compatible.wf()
        &&& self.compatible.spec_n_cells() == self.n_cells()
        &&& self.compatible.spec_t_count() == self.t_count()
        &&& self.entropy_tracker.counts().len() == self.n_cells()
        &&& self.entropy_tracker.spec_t_count() == self.t_count()
        &&& self.observed.data@.len() == self.n_cells()
        &&& self.dirty_cells.wf()
        &&& self.dirty_cells.spec_n_cells() == self.n_cells()
    }

    /// The tracker counts what the wave holds.
    pub open spec fn counts_ok(&self) -> bool {
        forall|i: int| 0 <= i < self.n_cells() ==> #[trigger] self.counts()[i] == self.popcount(i)
    }

    /// The observed pattern of a cell with one candidate is that candidate;
    /// a cell with several candidates has none.
    pub open spec fn observed_ok(&self) -> bool {
        forall|i: int|
            0 <= i < self.n_cells() ==> {
                &&& -1 <= #[trigger] self.observed_view()[i] < self.t_count()
                &&& self.counts()[i] == 1 ==> self.wave.has(i, self.observed_view()[i] as int)
                &&& self.counts()[i] > 1 ==> self.observed_view()[i] == -1
            }
    }

    /// Every ban on the stack names a cell and a pattern, is on the stack
    /// once, and has left the wave.
    pub open spec fn stack_ok(&self) -> bool {
        &&& forall|k: int|
            0 <= k < self.stack@.len() ==> {
                &&& (#[trigger] self.stack@[k]).0.base < self.n_cells()
                &&& self.stack@[k].1.base < self.t_count()
                &&& !self.wave.has(self.stack@[k].0.base as int, self.stack@[k].1.base as int)
            }
        &&& self.stack@.no_duplicates()
    }

    /// Whether the log of this state is the log of `old` followed by the
    /// bans that lead from the wave of `old` to this wave: each names a
    /// candidate of `old` that this wave no longer holds, none is named
    /// twice, and every candidate that was lost is named.
    pub open spec fn log_records_from(&self, old: &WFCState) -> bool {
        &&& old.ban_log@.is_prefix_of(self.ban_log@)
        &&& forall|k: int|
            old.ban_log@.len() <= k < self.ban_log@.len() ==> {
                &&& (#[trigger] self.ban_log@[k]).0.base < self.n_cells()
                &&& old.wave.has(self.ban_log@[k].0.base as int, self.ban_log@[k].1.base as int)
                &&& !self.wave.has(self.ban_log@[k].0.base as int, self.ban_log@[k].1.base as int)
            }
        &&& forall|a: int, b: int|
            old.ban_log@.len() <= a < b < self.ban_log@.len() ==> #[trigger] self.ban_log@[a]
                != #[trigger] self.ban_log@[b]
        &&& forall|c: int, t: int|
            0 <= c < self.n_cells() && #[trigger] old.wave.has(c, t) && !self.wave.has(c, t)
                ==> logged_after(self.ban_log@, old.ban_log@.len() as int, ban_of(c, t))
    }

    /// Whether the log lists what the wave lacks: every entry names a
    /// pattern that is no candidate of its cell, none is named twice, and
    /// every pattern that is no candidate of a cell is named.
    pub open spec fn log_lists_absent(&self) -> bool {
        &&& forall|k: int|
            0 <= k < self.ban_log@.len() ==> {
                &&& (#[trigger] self.ban_log@[k]).0.base < self.n_cells()
                &&& self.ban_log@[k].1.base < self.t_count()
                &&& !self.wave.has(self.ban_log@[k].0.base as int, self.ban_log@[k].1.base as int)
            }
        &&& self.ban_log@.no_duplicates()
        &&& forall|c: int, t: int|
            0 <= c < self.n_cells() && 0 <= t < self.t_count() && !#[trigger] self.wave.has(c, t)
                ==> logged_after(self.ban_log@, 0, ban_of(c, t))
    }

    /// The state is consistent: the counts, the observed patterns and the
    /// stack agree with the wave.
    pub open spec fn wf(&self) -> bool {
        &&& self.sizes_ok()
        &&& self.counts_ok()
        &&& self.observed_ok()
        &&& self.stack_ok()
    }

    /// Removes `pattern_idx` from the candidates of `cell_idx` and records
    /// the consequences: the cell becomes dirty, its count drops, its
    /// observed pattern is set where one candidate is left, and the ban is
    /// put on the stack and in the log. Where the pattern is no candidate,
    /// nothing changes.
    pub fn ban(&mut self, cell_idx: CellIndex, pattern_idx: PatternIndex)
        requires
            old(self).wf(),
            cell_idx.base < old(self).n_cells(),
        ensures
            final(self).wf(),
            final(self).n_cells() == old(self).n_cells(),
            final(self).t_count() == old(self).t_count(),
            final(self).compatible == old(self).compatible,
            !old(self).wave.has(cell_idx.base as int, pattern_idx.base as int) ==> *final(self)
                == *old(self),
            old(self).wave.has(cell_idx.base as int, pattern_idx.base as int) ==> {
                &&& forall|c: int, t: int|
                    0 <= c < old(self).n_cells()
                        ==> (#[trigger] final(self).wave.has(c, t) <==> old(self).wave.has(c, t) && !(c == cell_idx.base && t == pattern_idx.base))
                &&& final(self).counts() == old(self).counts().update(
                    cell_idx.base as int,
                    (old(self).counts()[cell_idx.base as int] - 1) as i32,
                )
                &&& forall|c: int|
                    0 <= c < old(self).n_cells() && c != cell_idx.base
                        ==> final(self).observed_view()[c] == old(self).observed_view()[c]
                &&& final(self).counts()[cell_idx.base as int] != 1 ==> final(self).observed_view()
                    == old(self).observed_view()
                &&& final(self).stack@ == old(self).stack@.push((cell_idx, pattern_idx))
                &&& final(self).ban_log@ == old(self).ban_log@.push((cell_idx, pattern_idx))
                &&& final(self).dirty_cells@ == if old(self).dirty_cells@.contains(cell_idx) {
                    old(self).dirty_cells@
                } else {
                    old(self).dirty_cells@.push(cell_idx)
                }
                &&& final(self).measure() == old(self).measure()
            },
    {
        if !self.wave.is_candidate(cell_idx, pattern_idx) {
            return ;
        }
        let ghost i = cell_idx.base as int;
        let ghost p = pattern_idx.base as int;
        let ghost tc = self.t_count();
        let ghost n = self.n_cells();
        proof {
            lemma_count_bounds(|t: int| old(self).wave.has(i, t), tc);
            crate::bits::lemma_count_positive(|t: int| old(self).wave.has(i, t), tc, p);
            assert(old(self).counts()[i] == old(self).popcount(i));
        }
        self.wave.eliminate_candidate(cell_idx, pattern_idx);
        self.dirty_cells.mark_dirty(cell_idx);
        self.entropy_tracker.ban_pattern(cell_idx, pattern_idx);
        proof {
            assert forall|c: int| 0 <= c < n implies #[trigger] self.counts()[c] == self.popcount(
                c,
            ) by {
                let f = |t: int| old(self).wave.has(c, t);
                let g = |t: int| self.wave.has(c, t);
                assert(old(self).counts()[c] == old(self).popcount(c));
                if c == i {
                    lemma_count_remove(f, g, tc, p);
                } else {
                    lemma_count_ext(f, g, tc);
                }
            }
            assert(self.counts_ok());
        }
        let ghost mid = *self;
        if self.entropy_tracker.pattern_determined(cell_idx) {
            let remaining = self.wave.find_remaining_pattern(cell_idx);
            proof {
                let f = |t: int| self.wave.has(i, t);
                assert(self.counts()[i] == self.popcount(i));
                assert(count_true(f, tc) == 1);
                if remaining == -1 {
                    lemma_count_none(f, tc);
                    assert forall|t: int| 0 <= t < tc implies !#[trigger] f(t) by {
                        assert(!self.wave.has(i, t));
                    }
                }
                assert(remaining >= 0);
            }
            self.observed.set(cell_idx, remaining);
        }
        self.stack.push((cell_idx, pattern_idx));
        self.ban_log.push((cell_idx, pattern_idx));
        proof {
            lemma_sum_update(
                old(self).counts(),
                i,
                (old(self).counts()[i] - 1) as i32,
            );
            assert forall|c: int| 0 <= c < n implies {
                &&& -1 <= #[trigger] self.observed_view()[c] < tc
                &&& self.counts()[c] == 1 ==> self.wave.has(c, self.observed_view()[c] as int)
                &&& self.counts()[c] > 1 ==> self.observed_view()[c] == -1
            } by {
                assert(-1 <= old(self).observed_view()[c] < tc);
                if c != i {
                    assert(self.observed_view()[c] == old(self).observed_view()[c]);
                    assert(self.counts()[c] == old(self).counts()[c]);
                    if self.counts()[c] == 1 {
                        let o = old(self).observed_view()[c] as int;
                        assert(old(self).wave.has(c, o));
                        assert(self.wave.has(c, o));
                    }
                } else {
                    assert(self.counts()[c] == old(self).counts()[c] - 1);
                    if self.counts()[c] == 1 {
                    } else {
                        assert(self.observed_view()[c] == old(self).observed_view()[c]);
                        if self.counts()[c] > 1 {
                            assert(old(self).counts()[c] > 1);
                        }
                    }
                }
            }
            assert(self.wave == mid.wave);
            assert(self.entropy_tracker == mid.entropy_tracker);
            assert(self.counts_ok()) by {
                assert forall|c: int| 0 <= c < n implies #[trigger] self.counts()[c]
                    == self.popcount(c) by {
                    assert(mid.counts()[c] == mid.popcount(c));
                }
            }
            let prev = old(self).stack@;
            let entry = (cell_idx, pattern_idx);
            assert forall|k: int| 0 <= k < prev.len() implies prev[k] != entry by {
                assert(!old(self).wave.has(prev[k].0.base as int, prev[k].1.base as int));
            }
            assert forall|k: int| 0 <= k < self.stack@.len() implies {
                &&& (#[trigger] self.stack@[k]).0.base < self.n_cells()
                &&& self.stack@[k].1.base < self.t_count()
                &&& !self.wave.has(self.stack@[k].0.base as int, self.stack@[k].1.base as int)
            } by {
                if k < prev.len() {
                    assert(self.stack@[k] == prev[k]);
                    assert(!old(self).wave.has(prev[k].0.base as int, prev[k].1.base as int));
                }
            }
        }
    }
}

impl WFCState {
    /// Nothing has to be logged to lead from a state to itself.
    pub proof fn lemma_log_records_self(&self)
        ensures
            self.log_records_from(self),
    {
        assert(self.ban_log@.subrange(0, self.ban_log@.len() as int) =~= self.ban_log@);
    }

    /// What is logged from `old` to `mid` and then from `mid` to this state
    /// is what leads from `old` to this state, where no candidate comes back.
    pub proof fn lemma_log_records_chain(&self, mid: &WFCState, old: &WFCState)
        requires
            mid.log_records_from(old),
            self.log_records_from(mid),
            self.n_cells() == mid.n_cells(),
            forall|c: int, t: int|
                0 <= c < self.n_cells() && #[trigger] self.wave.has(c, t) ==> mid.wave.has(c, t),
            forall|c: int, t: int|
                0 <= c < self.n_cells() && #[trigger] mid.wave.has(c, t) ==> old.wave.has(c, t),
        ensures
            self.log_records_from(old),
    {
        let a = old.ban_log@;
        let b = mid.ban_log@;
        let c = self.ban_log@;
        assert(a =~= b.subrange(0, a.len() as int));
        assert(b =~= c.subrange(0, b.len() as int));
        assert(a =~= c.subrange(0, a.len() as int));
        assert forall|k: int| a.len() <= k < c.len() implies {
            &&& (#[trigger] c[k]).0.base < self.n_cells()
            &&& old.wave.has(c[k].0.base as int, c[k].1.base as int)
            &&& !self.wave.has(c[k].0.base as int, c[k].1.base as int)
        } by {
            if k < b.len() {
                assert(c[k] == b[k]);
                assert(!mid.wave.has(b[k].0.base as int, b[k].1.base as int));
            } else {
                assert(mid.wave.has(c[k].0.base as int, c[k].1.base as int));
            }
        }
        assert forall|x: int, y: int| a.len() <= x < y < c.len() implies #[trigger] c[x]
            != #[trigger] c[y] by {
            if y < b.len() {
                assert(c[x] == b[x] && c[y] == b[y]);
            } else if x < b.len() {
                assert(c[x] == b[x]);
                assert(!mid.wave.has(b[x].0.base as int, b[x].1.base as int));
                assert(mid.wave.has(c[y].0.base as int, c[y].1.base as int));
            }
        }
        assert forall|i: int, t: int|
            0 <= i < self.n_cells() && #[trigger] old.wave.has(i, t) && !self.wave.has(
                i,
                t,
            ) implies logged_after(c, a.len() as int, ban_of(i, t)) by {
            if mid.wave.has(i, t) {
                let k = choose|k: int| b.len() <= k < c.len() && #[trigger] c[k] == ban_of(i, t);
                assert(a.len() <= k < c.len() && c[k] == ban_of(i, t));
            } else {
                let k = choose|k: int| a.len() <= k < b.len() && #[trigger] b[k] == ban_of(i, t);
                assert(c[k] == b[k]);
            }
        }
    }
}

/// The whole state of a solver as plain values.
pub struct ModelView {
    pub wave: Seq<u64>,
    pub compatible: Seq<u16>,
    pub counts: Seq<i32>,
    pub observed: Seq<i32>,
    pub dirty: Seq<CellIndex>,
    pub stack: Seq<Ban>,
    pub ban_log: Seq<Ban>,
    pub uncollapsed: Seq<CellIndex>,
    pub uncollapsed_storage: Seq<CellIndex>,
    pub history: Seq<WaveSnapshot>,
    pub generation_complete: bool,
    pub last_snapshot_progress: int,
    pub to_ban_queue: Seq<Ban>,
}

/// The state of a solver on which nothing has been done yet: every pattern
/// is a candidate everywhere, every count is the recorded length of its
/// rule, nothing is dirty, banned or remembered. With a vocabulary of one
/// pattern every cell is collapsed to it from the start.
pub open spec fn fresh_view(n_cells: int, t_count: int, lengths: Seq<i32>) -> ModelView {
    ModelView {
        wave: full_data(n_cells, t_count),
        compatible: initial_counts(lengths, n_cells, t_count),
        counts: Seq::new(n_cells as nat, |i: int| t_count as i32),
        observed: Seq::new(
            n_cells as nat,
            |i: int|
                if t_count == 1 {
                    0i32
                } else {
                    -1i32
                },
        ),
        dirty: Seq::empty(),
        stack: Seq::empty(),
        ban_log: Seq::empty(),
        uncollapsed: if t_count == 1 {
            Seq::empty()
        } else {
            all_cells(n_cells)
        },
        uncollapsed_storage: all_cells(n_cells),
        history: Seq::empty(),
        generation_complete: false,
        last_snapshot_progress: 0,
        to_ban_queue: Seq::empty(),
    }
}

/// The solver: a grid, its rules, the state, and the history of snapshots.
pub struct WFCModel {
    pub(crate) width: usize,
    pub(crate) height: usize,
    pub(crate) n_cells: usize,
    pub(crate) periodic: bool,
    pub(crate) max_snapshots: usize,
    pub(crate) snapshot_interval: usize,
    pub(crate) cell: Cell,
    pub(crate) cells_collapsed: CellCollapsedCollection,
    pub(crate) history: Vec<WaveSnapshot>,
    pub(crate) propagator: Propagator,
    pub(crate) state: WFCState,
    pub(crate) generation_complete: bool,
    pub(crate) last_snapshot_progress: usize,
    pub(crate) to_ban_queue: Vec<Ban>,
    pub(crate) t_count: usize,
}

impl View for WFCModel {
    type V = ModelView;

    /// The state of the solver as plain values.
    open(crate) spec fn view(&self) -> ModelView {
        ModelView {
            wave: self.state.wave@,
            compatible: self.state.compatible@,
            counts: self.state.counts(),
            observed: self.state.observed_view(),
            dirty: self.state.dirty_cells@,
            stack: self.state.stack@,
            ban_log: self.state.ban_log@,
            uncollapsed: self.cells_collapsed@,
            uncollapsed_storage: self.cells_collapsed.storage(),
            history: self.history@,
            generation_complete: self.generation_complete,
            last_snapshot_progress: self.last_snapshot_progress as int,
            to_ban_queue: self.to_ban_queue@,
        }
    }
}

impl WFCModel {
    /// Shape of the grid.
    pub open(crate) spec fn grid(&self) -> Grid {
        Grid { width: self.width as int, height: self.height as int, periodic: self.periodic }
    }

    /// Number of cells.
    pub open(crate) spec fn spec_n_cells(&self) -> int {
        self.n_cells as int
    }

    /// Size of the pattern vocabulary.
    pub open(crate) spec fn spec_t_count(&self) -> int {
        self.t_count as int
    }

    /// The adjacency rules.
    pub open(crate) spec fn spec_propagator(&self) -> Propagator {
        self.propagator
    }

    /// The state.
    pub open(crate) spec fn spec_state(&self) -> WFCState {
        self.state
    }

    /// The most snapshots that are kept; zero keeps none.
    pub open(crate) spec fn spec_max_snapshots(&self) -> int {
        self.max_snapshots as int
    }

    /// The number of cells that have to collapse before another snapshot is taken.
    pub open(crate) spec fn spec_snapshot_interval(&self) -> int {
        self.snapshot_interval as int
    }

    /// Whether `t` is a candidate of cell `i`.
    pub open spec fn has(&self, i: int, t: int) -> bool {
        self.spec_state().wave.has(i, t)
    }

    /// Number of cells that count as collapsed: the cells that are not
    /// listed as uncollapsed.
    pub open spec fn filled(&self) -> int {
        self.spec_n_cells() - self@.uncollapsed.len()
    }

    /// What stays as the solver was built: the grid, the rules and the
    /// snapshot settings.
    pub open(crate) spec fn same_setup(&self, other: &WFCModel) -> bool {
        &&& self.width == other.width
        &&& self.height == other.height
        &&& self.n_cells == other.n_cells
        &&& self.periodic == other.periodic
        &&& self.max_snapshots == other.max_snapshots
        &&& self.snapshot_interval == other.snapshot_interval
        &&& self.cell == other.cell
        &&& self.propagator == other.propagator
        &&& self.t_count == other.t_count
    }

    /// The sizes fit the machine and each other.
    pub open(crate) spec fn dims_ok(&self) -> bool {
        &&& 0 < self.width <= i32::MAX
        &&& 0 < self.height <= i32::MAX
        &&& self.n_cells == self.width * self.height
        &&& self.n_cells <= i32::MAX
        &&& 0 < self.t_count <= i32::MAX
        &&& 4 * (self.n_cells * self.t_count) <= usize::MAX
        &&& self.cell.spec_width() == self.width
        &&& self.propagator.wf()
        &&& self.propagator.spec_t_count() == self.t_count
        &&& forall|k: int|
            0 <= k < 4 * self.t_count ==> 0 <= #[trigger] self.propagator.spec_lengths()[k]
                <= u16::MAX
        &&& self.state.n_cells() == self.n_cells
        &&& self.state.t_count() == self.t_count
    }

    /// The uncollapsed list names cells of the grid, each once, among them
    /// every cell with more than one candidate.
    pub open(crate) spec fn uncollapsed_ok(&self) -> bool {
        &&& self.cells_collapsed.wf()
        &&& self.cells_collapsed.spec_n_cells() == self.n_cells
        &&& forall|i: int|
            0 <= i < self.n_cells && self.state.counts()[i] > 1 ==> self.cells_collapsed@.contains(
                #[trigger] cell_of(i),
            )
    }

    /// Every snapshot fits the grid, no more are kept than allowed, and no
    /// snapshot lists fewer uncollapsed cells than a later one or than are
    /// uncollapsed now.
    pub open(crate) spec fn history_ok(&self) -> bool {
        &&& self.history@.len() <= self.max_snapshots
        &&& forall|k: int|
            0 <= k < self.history@.len() ==> (#[trigger] self.history@[k]).wf(
                self.n_cells as int,
                self.t_count as int,
            )
        &&& forall|a: int, b: int|
            0 <= a <= b < self.history@.len() ==> (#[trigger] self.history@[a]).spec_cells().len()
                >= (#[trigger] self.history@[b]).spec_cells().len()
        &&& forall|k: int|
            0 <= k < self.history@.len() ==> (#[trigger] self.history@[k]).spec_cells().len()
                >= self.cells_collapsed@.len()
    }

    /// Every ban that waits in the queue names a cell and a pattern.
    pub open(crate) spec fn queue_ok(&self) -> bool {
        forall|k: int|
            0 <= k < self.to_ban_queue@.len() ==> (#[trigger] self.to_ban_queue@[k]).0.base
                < self.n_cells && self.to_ban_queue@[k].1.base < self.t_count
    }

    /// What holds of the solver at every moment, also in the middle of an operation.
    pub open(crate) spec fn inv(&self) -> bool {
        &&& self.dims_ok()
        &&& self.state.wf()
        &&& self.uncollapsed_ok()
        &&& self.history_ok()
        &&& self.queue_ok()
    }

    /// What holds of the solver between operations: the parts agree with
    /// each other, no ban waits in the queue, and where the rules are
    /// consistent the compatibility counts are exact.
    pub open spec fn wf(&self) -> bool {
        &&& self.inv()
        &&& self@.to_ban_queue.len() == 0
        &&& self.spec_propagator().consistent() ==> self.counts_exact()
    }

    /// Which patterns are live for the compatibility counts.
    pub open(crate) spec fn live(&self) -> spec_fn(int, int) -> bool {
        live_of(self.state.wave, self.state.stack@)
    }

    /// The rules are consistent, and every compatibility count is the number
    /// of live patterns of the neighbour that may stand next to its pattern.
    pub open(crate) spec fn counts_exact(&self) -> bool {
        &&& self.propagator.consistent()
        &&& counts_match(self.state.compatible, self.propagator, self.grid(), self.live())
    }

    /// Every candidate of every cell has support from every side on which
    /// the cell has a neighbour: its compatibility count from that side is
    /// not zero, or its ban waits in the ban queue.
    pub open(crate) spec fn supported(&self) -> bool {
        forall|j: int, t2: int, e: Direction|
            0 <= j < self.n_cells && self.state.wave.has(j, t2) && self.grid().neighbor(j, e)
                is Some ==> #[trigger] self.state.compatible.at(j, t2, e) >= 1
                || self.to_ban_queue@.contains(ban_of(j, t2))
    }

    /// Whether some cell of the grid has a neighbour on side `e`.
    pub open(crate) spec fn side_in_use(&self, e: Direction) -> bool {
        exists|j: int| 0 <= j < self.n_cells && (#[trigger] self.grid().neighbor(j, e)) is Some
    }

    /// The rules give every pattern at least one neighbour on every side on
    /// which some cell of the grid has a neighbour.
    pub open(crate) spec fn rules_cover_grid(&self) -> bool {
        forall|t2: int, e: Direction|
            0 <= t2 < self.t_count && self.side_in_use(e) ==> #[trigger] self.propagator.count(
                t2,
                e,
            ) >= 1
    }

    /// What an operation that only bans leaves as it was or moves one way:
    /// the setup, the uncollapsed list, the history and the markers stay;
    /// candidates are never added, so no count rises; the dirty list and
    /// the ban log only grow, every cell that lost a candidate is dirty,
    /// and exact counts stay exact.
    pub open(crate) spec fn advanced_from(&self, old: &WFCModel) -> bool {
        &&& self.same_setup(old)
        &&& self.cells_collapsed == old.cells_collapsed
        &&& self.history == old.history
        &&& self.generation_complete == old.generation_complete
        &&& self.last_snapshot_progress == old.last_snapshot_progress
        &&& forall|c: int, t: int|
            0 <= c < self.n_cells && #[trigger] self.state.wave.has(c, t)
                ==> old.state.wave.has(c, t)
        &&& forall|c: int|
            0 <= c < self.n_cells ==> #[trigger] self.state.counts()[c] <= old.state.counts()[c]
        &&& forall|c: CellIndex| #[trigger]
            old.state.dirty_cells@.contains(c) ==> self.state.dirty_cells@.contains(c)
        &&& forall|c: int|
            0 <= c < self.n_cells && self.state.counts()[c] < old.state.counts()[c]
                ==> self.state.dirty_cells@.contains(#[trigger] cell_of(c))
        &&& self.state.log_records_from(&old.state)
        &&& old.counts_exact() ==> self.counts_exact()
    }

    /// A solver in the fresh state is well formed, and its counts are exact
    /// where its rules are consistent.
    pub(crate) proof fn lemma_fresh(&self)
        requires
            self.dims_ok(),
            self.state.sizes_ok(),
            self.cells_collapsed.wf(),
            self.cells_collapsed.spec_n_cells() == self.n_cells,
            self@ == fresh_view(self.n_cells as int, self.t_count as int, self.propagator.spec_lengths()),
            self.max_snapshots >= 0,
        ensures
            self.wf(),
            self.rules_cover_grid() ==> self.supported(),
    {
        let n = self.n_cells as int;
        let tc = self.t_count as int;
        lemma_full_data(n, tc);
        if self.rules_cover_grid() {
            assert forall|j: int, t2: int, e: Direction|
                0 <= j < self.n_cells && self.state.wave.has(j, t2) && self.grid().neighbor(j, e)
                    is Some implies #[trigger] self.state.compatible.at(j, t2, e) >= 1 by {
                lemma_initial_counts(self.propagator.spec_lengths(), n, tc, j, t2, e);
                assert(0 <= e.spec_index() * tc + t2 < 4 * tc) by (nonlinear_arith)
                    requires
                        0 <= e.spec_index() <= 3,
                        0 <= t2 < tc,
                ;
                assert(0 <= self.propagator.spec_lengths()[e.spec_index() * tc + t2] <= u16::MAX);
                assert(self.side_in_use(e));
                assert(self.propagator.count(t2, e) >= 1);
            }
        }
        assert forall|i: int| 0 <= i < n implies #[trigger] self.state.counts()[i]
            == self.state.popcount(i) by {
            lemma_count_full(|t: int| self.state.wave.has(i, t), tc);
            assert forall|t: int| 0 <= t < tc implies self.state.wave.has(i, t) by {
                assert(data_has(full_data(n, tc), tc, i, t));
            }
        }
        assert forall|i: int| 0 <= i < n implies {
            &&& -1 <= #[trigger] self.state.observed_view()[i] < tc
            &&& self.state.counts()[i] == 1 ==> self.state.wave.has(
                i,
                self.state.observed_view()[i] as int,
            )
            &&& self.state.counts()[i] > 1 ==> self.state.observed_view()[i] == -1
        } by {
            if tc == 1 {
                assert(data_has(full_data(n, tc), tc, i, 0));
            }
        }
        assert forall|i: int|
            0 <= i < n && self.state.counts()[i] > 1 implies self.cells_collapsed@.contains(
            #[trigger] cell_of(i),
        ) by {
            assert(self.cells_collapsed@[i] == cell_of(i));
        }
        if self.propagator.consistent() {
            let live = self.live();
            assert forall|j: int, t2: int, e: Direction|
                0 <= j < self.grid().n_cells() && 0
                    <= t2 < tc implies #[trigger] self.state.compatible.at(
                j,
                t2,
                e,
            ) == support(live, self.propagator, self.grid().neighbor(j, e), t2, e) by {
                lemma_initial_counts(self.propagator.spec_lengths(), n, tc, j, t2, e);
                assert(self.propagator.spec_lengths()[e.spec_index() * tc + t2] >= 0) by {
                    assert(0 <= e.spec_index() * tc + t2 < 4 * tc) by (nonlinear_arith)
                        requires
                            0 <= e.spec_index() <= 3,
                            0 <= t2 < tc,
                    ;
                }
                lemma_neighbor_in_range(self.width as int, self.height as int, self.periodic, j, e);
                if let Some(i) = self.grid().neighbor(j, e) {
                    assert forall|t: int| 0 <= t < tc implies #[trigger] live(i, t) by {
                        assert(data_has(full_data(n, tc), tc, i, t));
                    }
                }
                lemma_support_full(live, self.propagator, self.grid().neighbor(j, e), t2, e);
            }
        }
    }
}

impl WFCModel {
    /// A solver for a grid of `width` by `height` cells over a vocabulary of
    /// `t_count` patterns, with the adjacency rules given as flat arrays
    /// (see [`Propagator::new`]). At most `max_snapshots` snapshots are kept,
    /// and after the first a new one is taken only when at least
    /// `snapshot_interval` more cells have collapsed since the last.
    ///
    /// Coordinates, cell numbers and candidate counts are 32-bit integers and
    /// compatibility counts are 16-bit integers, so the sizes and the lengths
    /// of the rules have to fit in them.
    pub fn new(
        width: usize,
        height: usize,
        t_count: usize,
        prop_data: Vec<i32>,
        prop_offsets: Vec<i32>,
        prop_lengths: Vec<i32>,
        periodic: bool,
        max_snapshots: usize,
        snapshot_interval: usize,
    ) -> (r: Self)
        requires
            0 < width <= i32::MAX,
            0 < height <= i32::MAX,
            width * height <= i32::MAX,
            0 < t_count <= i32::MAX,
            4 * (width * height * t_count) <= usize::MAX,
            adjacency_in_bounds(prop_data@, prop_offsets@, prop_lengths@, t_count as int),
            forall|k: int| 0 <= k < 4 * t_count ==> #[trigger] prop_lengths@[k] <= u16::MAX,
        ensures
            r.wf(),
            r.grid() == (Grid { width: width as int, height: height as int, periodic }),
            r.spec_n_cells() == width * height,
            r.spec_t_count() == t_count,
            r.spec_max_snapshots() == max_snapshots,
            r.spec_snapshot_interval() == snapshot_interval,
            r.spec_propagator().spec_lengths() == prop_lengths@,
            forall|t: int, d: Direction, t2: int|
                0 <= t < t_count ==> (#[trigger] r.spec_propagator().allows(t, d, t2) <==> 0 <= t2
                    < t_count && listed(
                    prop_data@,
                    prop_offsets@,
                    prop_lengths@,
                    r.spec_propagator().lookup(t, d),
                    t2,
                )),
            r@ == fresh_view(width * height, t_count as int, prop_lengths@),
            r.rules_cover_grid() ==> r.supported(),
    {
        let n_cells = width * height;
        proof {
            assert(n_cells * words_for(t_count as int) <= n_cells * t_count) by (nonlinear_arith)
                requires
                    0 <= n_cells,
                    0 <= words_for(t_count as int) <= t_count,
            ;
            assert(n_cells * t_count <= 4 * (n_cells * t_count)) by (nonlinear_arith)
                requires
                    0 <= n_cells,
                    0 <= t_count,
            ;
        }
        let ghost lengths = prop_lengths@;
        proof {
            assert forall|k: int| 0 <= k < 4 * t_count implies 0 <= #[trigger] lengths[k]
                <= u16::MAX by {
                assert(0 <= prop_offsets@[k]);
            }
        }
        let propagator = Propagator::new(prop_data, prop_offsets, prop_lengths, t_count);
        let unobserved: i32 = if t_count == 1 {
            0
        } else {
            -1
        };
        let state = WFCState {
            wave: Wave::new(n_cells, t_count),
            compatible: Compatible::new(n_cells, t_count, &propagator),
            entropy_tracker: EntropyTracker::new(n_cells, t_count),
            observed: CellCollection::new_with_value(n_cells, unobserved),
            dirty_cells: DirtyCells::new(n_cells),
            stack: Vec::new(),
            ban_log: Vec::new(),
        };
        let mut cells_collapsed = CellCollapsedCollection::new(n_cells);
        proof {
            lemma_retain_uniform(cells_collapsed@, state.counts());
        }
        cells_collapsed.refresh(&state.entropy_tracker);
        let r = Self {
            width,
            height,
            n_cells,
            periodic,
            max_snapshots,
            snapshot_interval,
            cell: Cell::new(width),
            cells_collapsed,
            history: Vec::new(),
            propagator,
            state,
            t_count,
            generation_complete: false,
            last_snapshot_progress: 0,
            to_ban_queue: Vec::new(),
        };
        proof {
            assert(r@.observed =~= fresh_view(n_cells as int, t_count as int, prop_lengths@).observed);
            assert(r@.uncollapsed_storage =~= all_cells(n_cells as int));
            assert(r@.uncollapsed =~= fresh_view(
                n_cells as int,
                t_count as int,
                prop_lengths@,
            ).uncollapsed);
            assert(r@ == fresh_view(n_cells as int, t_count as int, prop_lengths@));
            r.lemma_fresh();
        }
        r
    }

    /// Puts the solver back into the state in which it was built.
    pub fn clear(&mut self)
        requires
            old(self).wf(),
        ensures
            final(self).wf(),
            final(self).same_setup(old(self)),
            final(self)@ == fresh_view(
                old(self).spec_n_cells(),
                old(self).spec_t_count(),
                old(self).spec_propagator().spec_lengths(),
            ),
            final(self).rules_cover_grid() ==> final(self).supported(),
    {
        let unobserved: i32 = if self.t_count == 1 {
            0
        } else {
            -1
        };
        self.generation_complete = false;
        self.state.wave.fill(1);
        self.state.observed.fill(unobserved);
        self.history.clear();
        self.cells_collapsed.reset(self.n_cells);
        self.state.dirty_cells.clear();
        self.state.compatible.reset(&self.propagator);
        self.state.entropy_tracker.reset();
        self.state.stack.clear();
        self.state.ban_log.clear();
        self.to_ban_queue.clear();
        self.last_snapshot_progress = 0;
        proof {
            lemma_retain_uniform(self.cells_collapsed@, self.state.counts());
        }
        self.cells_collapsed.refresh(&self.state.entropy_tracker);
        proof {
            let fresh = fresh_view(
                self.n_cells as int,
                self.t_count as int,
                self.propagator.spec_lengths(),
            );
            assert(self@.observed =~= fresh.observed);
            assert(self@.uncollapsed_storage =~= all_cells(self.n_cells as int));
            assert(self@.uncollapsed =~= fresh.uncollapsed);
            assert(self@.history =~= fresh.history);
            assert(self@ == fresh);
            self.lemma_fresh();
        }
    }

    /// Whether an iteration has found nothing left to collapse.
    pub fn is_generation_complete(&self) -> (r: bool)
        ensures
            r == self@.generation_complete,
    {
        self.generation_complete
    }

    /// Number of cells that count as collapsed.
    pub fn get_filled_count(&self) -> (r: usize)
        requires
            self.wf(),
        ensures
            r == self.filled(),
    {
        self.cells_collapsed.collapsed_count()
    }

    /// Number of cells of the grid.
    pub fn get_total_cells(&self) -> (r: usize)
        ensures
            r == self.spec_n_cells(),
    {
        self.n_cells
    }

    /// Hands out the numbers of the cells that changed since the last call,
    /// in the order in which they changed, and forgets them.
    pub fn get_changes(&mut self) -> (r: Vec<i32>)
        requires
            old(self).wf(),
        ensures
            final(self).wf(),
            final(self).same_setup(old(self)),
            r@ == crate::dirty_cells::cell_numbers(old(self)@.dirty),
            final(self)@ == (ModelView { dirty: Seq::empty(), ..old(self)@ }),
    {
        self.state.dirty_cells.flush_to_js()
    }

    /// The numbers of the cells that changed since they were last handed out.
    pub fn peek_changes(&self) -> (r: Vec<i32>)
        requires
            self.wf(),
        ensures
            r@ == crate::dirty_cells::cell_numbers(self@.dirty),
    {
        self.state.dirty_cells.peek_changes()
    }

    /// Hands out the bans made since the last call, in the order in which
    /// they were made, and forgets them. A revert empties the log and then
    /// logs every pattern that the restored wave lacks, so that a host that
    /// starts from the full vocabulary can follow.
    pub fn take_ban_log(&mut self) -> (r: Vec<Ban>)
        requires
            old(self).wf(),
        ensures
            final(self).wf(),
            final(self).same_setup(old(self)),
            r@ == old(self)@.ban_log,
            final(self)@ == (ModelView { ban_log: Seq::empty(), ..old(self)@ }),
    {
        let mut log: Vec<Ban> = Vec::new();
        core::mem::swap(&mut log, &mut self.state.ban_log);
        log
    }

    /// The state: the wave and what is derived from it.
    pub fn state(&self) -> (r: &WFCState)
        ensures
            *r == self.spec_state(),
    {
        &self.state
    }

    /// The cells that are listed as uncollapsed.
    pub fn uncollapsed_cells(&self) -> (r: &[CellIndex])
        requires
            self.wf(),
        ensures
            r@ == self@.uncollapsed,
    {
        self.cells_collapsed.get_uncollapsed_cells()
    }

    /// The adjacency rules.
    pub fn propagator(&self) -> (r: &Propagator)
        ensures
            *r == self.spec_propagator(),
    {
        &self.propagator
    }

    /// The most recent snapshot, if one is held.
    pub fn latest_snapshot(&self) -> (r: Option<&WaveSnapshot>)
        ensures
            match r {
                Some(s) => self@.history.len() > 0 && *s == self@.history.last(),
                None => self@.history.len() == 0,
            },
    {
        let held = self.history.len();
        if held == 0 {
            None
        } else {
            Some(&self.history[held - 1])
        }
    }

    /// Number of snapshots that are kept at the moment.
    pub fn snapshot_count(&self) -> (r: usize)
        ensures
            r == self@.history.len(),
    {
        self.history.len()
    }

    /// The coordinates `(x, y)` if they lie on the grid, wrapped around on a
    /// periodic grid; nothing where a bounded grid ends.
    #[inline(always)]
    fn wrap_coords(&self, x: i32, y: i32) -> (r: Option<(i32, i32)>)
        requires
            self.dims_ok(),
            -1 <= x <= self.width,
            -1 <= y <= self.height,
        ensures
            self.periodic ==> r == Some(((x as int % self.width as int) as i32, (y as int
                % self.height as int) as i32)),
            !self.periodic ==> r == if 0 <= x < self.width && 0 <= y < self.height {
                Some((x, y))
            } else {
                None::<(i32, i32)>
            },
    {
        let (w, h) = (self.width as i32, self.height as i32);
        proof {
            lemma_wrap(x as int, w as int);
            lemma_wrap(y as int, h as int);
        }
        if self.periodic {
            let nx: i32 = if x < 0 {
                x + w
            } else if x >= w {
                x - w
            } else {
                x
            };
            let ny: i32 = if y < 0 {
                y + h
            } else if y >= h {
                y - h
            } else {
                y
            };
            Some((nx, ny))
        } else if x >= 0 && y >= 0 && x < w && y < h {
            Some((x, y))
        } else {
            None
        }
    }

    /// The neighbour of a cell on one side, if it has one.
    pub(crate) fn neighbor(&self, cell_idx: CellIndex, d: Direction) -> (r: Option<CellIndex>)
        requires
            self.dims_ok(),
            cell_idx.base < self.n_cells,
        ensures
            match r {
                Some(j) => self.grid().neighbor(cell_idx.base as int, d) == Some(j.base as int)
                    && j.base < self.n_cells,
                None => self.grid().neighbor(cell_idx.base as int, d) == None::<int>,
            },
    {
        proof {
            lemma_coords(self.width as int, self.height as int, cell_idx.base as int);
            lemma_neighbor_in_range(
                self.width as int,
                self.height as int,
                self.periodic,
                cell_idx.base as int,
                d,
            );
        }
        let coords = self.cell.get_coords(cell_idx);
        let info = d.info();
        match self.wrap_coords(coords.0 + info.dx, coords.1 + info.dy) {
            Some((x2, y2)) => {
                proof {
                    lemma_wrap(coords.0 + info.dx, self.width as int);
                    lemma_wrap(coords.1 + info.dy, self.height as int);
                    assert(x2 + y2 * self.width == y2 * self.width + x2);
                }
                Some(self.cell.get_index(x2, y2))
            },
            None => None,
        }
    }
}

/// A sum of counts of which none is negative is not negative.
pub proof fn lemma_sum_nonnegative(s: Seq<i32>)
    requires
        forall|i: int| 0 <= i < s.len() ==> #[trigger] s[i] >= 0,
    ensures
        sum_counts(s) >= 0,
    decreases s.len(),
{
    if s.len() > 0 {
        lemma_sum_nonnegative(s.drop_last());
    }
}

impl WFCModel {
    /// The termination measure of propagation is never negative.
    pub(crate) proof fn lemma_measure_nonnegative(&self)
        requires
            self.inv(),
        ensures
            self.state.measure() >= 0,
    {
        assert forall|i: int| 0 <= i < self.state.counts().len() implies
        #[trigger] self.state.counts()[i]
            >= 0 by {
            assert(self.state.counts()[i] == self.state.popcount(i));
            lemma_count_bounds(|t: int| self.state.wave.has(i, t), self.state.t_count());
        }
        lemma_sum_nonnegative(self.state.counts());
    }

    /// Bans one pattern at one cell, as [`WFCState::ban`] does, and keeps
    /// what holds of the solver as a whole.
    pub(crate) fn ban_cell(&mut self, cell_idx: CellIndex, pattern_idx: PatternIndex)
        requires
            old(self).inv(),
            cell_idx.base < old(self).n_cells,
        ensures
            final(self).inv(),
            final(self).advanced_from(old(self)),
            final(self).to_ban_queue == old(self).to_ban_queue,
            final(self).state.compatible == old(self).state.compatible,
            final(self).state.measure() == old(self).state.measure(),
            old(self).supported() ==> final(self).supported(),
            old(self).queue_doomed() ==> final(self).queue_doomed(),
            !old(self).state.wave.has(cell_idx.base as int, pattern_idx.base as int)
                ==> final(self).state == old(self).state,
            old(self).state.wave.has(cell_idx.base as int, pattern_idx.base as int) ==> {
                &&& forall|c: int, t: int|
                    0 <= c < old(self).n_cells ==> (#[trigger] final(self).state.wave.has(c, t)
                        <==> old(self).state.wave.has(c, t) && !(c == cell_idx.base && t
                        == pattern_idx.base))
                &&& final(self).state.counts() == old(self).state.counts().update(
                    cell_idx.base as int,
                    (old(self).state.counts()[cell_idx.base as int] - 1) as i32,
                )
                &&& final(self).state.stack@ == old(self).state.stack@.push((cell_idx, pattern_idx))
                &&& final(self).state.ban_log@ == old(self).state.ban_log@.push(
                    (cell_idx, pattern_idx),
                )
                &&& final(self).state.dirty_cells@ == if old(self).state.dirty_cells@.contains(
                    cell_idx,
                ) {
                    old(self).state.dirty_cells@
                } else {
                    old(self).state.dirty_cells@.push(cell_idx)
                }
            },
    {
        let ghost was = old(self).state.wave.has(cell_idx.base as int, pattern_idx.base as int);
        self.state.ban(cell_idx, pattern_idx);
        proof {
            let o = old(self);
            o.state.lemma_log_records_self();
            if was {
                let ci = cell_idx.base as int;
                assert(o.state.counts()[ci] == o.state.popcount(ci));
                lemma_count_bounds(|t: int| o.state.wave.has(ci, t), o.state.t_count());
                crate::bits::lemma_count_positive(
                    |t: int| o.state.wave.has(ci, t),
                    o.state.t_count(),
                    pattern_idx.base as int,
                );
                assert(self.state.log_records_from(&o.state)) by {
                    let log = self.state.ban_log@;
                    let from = o.state.ban_log@.len() as int;
                    assert(log.subrange(0, from) =~= o.state.ban_log@);
                    assert(log[from] == (cell_idx, pattern_idx));
                    assert forall|c: int, t: int|
                        0 <= c < self.state.n_cells() && #[trigger] o.state.wave.has(c, t)
                            && !self.state.wave.has(c, t) implies logged_after(
                        log,
                        from,
                        ban_of(c, t),
                    ) by {
                        assert(c == cell_idx.base && t == pattern_idx.base);
                        assert(log[from] == ban_of(c, t));
                    }
                }
                assert(self.state.dirty_cells@.contains(cell_idx)) by {
                    if o.state.dirty_cells@.contains(cell_idx) {
                    } else {
                        assert(self.state.dirty_cells@[o.state.dirty_cells@.len() as int]
                            == cell_idx);
                    }
                }
                assert forall|c: CellIndex| #[trigger]
                    o.state.dirty_cells@.contains(c) implies self.state.dirty_cells@.contains(c) by {
                    let k = choose|k: int|
                        0 <= k < o.state.dirty_cells@.len() && o.state.dirty_cells@[k] == c;
                    assert(self.state.dirty_cells@[k] == c);
                }
                assert forall|c: int|
                    0 <= c < self.n_cells && self.state.counts()[c]
                        < o.state.counts()[c] implies self.state.dirty_cells@.contains(
                    #[trigger] cell_of(c),
                ) by {
                    assert(c == cell_idx.base);
                    assert(cell_of(c) == cell_idx);
                }
                assert forall|i: int|
                    0 <= i < self.n_cells && self.state.counts()[i]
                        > 1 implies self.cells_collapsed@.contains(#[trigger] cell_of(i)) by {
                    assert(o.state.counts()[i] > 1);
                }
                let live1 = o.live();
                let live2 = self.live();
                {
                    assert forall|i: int, t: int|
                        0 <= i < self.grid().n_cells() && 0 <= t
                            < self.propagator.spec_t_count() implies #[trigger] live1(i, t)
                        == live2(i, t) by {
                        let entry = (cell_idx, pattern_idx);
                        let b = ban_of(i, t);
                        if o.state.stack@.contains(b) {
                            let k = choose|k: int|
                                0 <= k < o.state.stack@.len() && o.state.stack@[k] == b;
                            assert(self.state.stack@[k] == b);
                        }
                        if self.state.stack@.contains(b) {
                            let k = choose|k: int|
                                0 <= k < self.state.stack@.len() && self.state.stack@[k] == b;
                            if k < o.state.stack@.len() {
                                assert(o.state.stack@[k] == b);
                            } else {
                                assert(b == entry);
                            }
                        }
                        if i == cell_idx.base && t == pattern_idx.base {
                            assert(b == entry);
                            assert(self.state.stack@[o.state.stack@.len() as int] == entry);
                        }
                    }
                }
                if o.counts_exact() {
                    crate::support::lemma_counts_match_ext(
                        self.state.compatible,
                        self.propagator,
                        self.grid(),
                        live1,
                        live2,
                    );
                }
                if o.queue_doomed() {
                    assert forall|k: int| 0 <= k < self.to_ban_queue@.len() implies self.doomed(
                        (#[trigger] self.to_ban_queue@[k]).0.base as int,
                        self.to_ban_queue@[k].1.base as int,
                    ) by {
                        let j = self.to_ban_queue@[k].0.base as int;
                        let t2 = self.to_ban_queue@[k].1.base as int;
                        assert(o.doomed(j, t2));
                        let e = choose|e: Direction| #[trigger] o.doomed_from(j, t2, e);
                        let i = self.grid().neighbor(j, e).unwrap();
                        lemma_neighbor_in_range(
                            self.width as int,
                            self.height as int,
                            self.periodic,
                            j,
                            e,
                        );
                        assert forall|t: int|
                            0 <= t < self.t_count && #[trigger] self.propagator.allows(
                                t2,
                                e,
                                t,
                            ) implies !self.state.live(i, t) by {
                            assert(!o.state.live(i, t));
                            assert(live1(i, t) == live2(i, t));
                        }
                        assert(self.doomed_from(j, t2, e));
                    }
                }
            }
        }
    }
}

} // verus!
