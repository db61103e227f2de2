//! Snapshots of the wave, and the revert that rewinds the solver to one.

use crate::bits::{
    count_true, lemma_count_ext, lemma_count_none, lemma_count_positive, lemma_count_remove,
};
use crate::cell::CellIndex;
use crate::compatible::{initial_counts, lemma_initial_counts};
use crate::direction::Direction;
use crate::grid::lemma_neighbor_in_range;
use crate::pattern_collection::PatternIndex;
use crate::propagator::Propagator;
use crate::support::{counts_match, lemma_counts_match_ext, lemma_support_full, support, without};
use crate::wave::Wave;
use crate::wfc_model::{all_cells, ban_of, cell_of, logged_after, WFCModel, WaveSnapshot};
use vstd::prelude::*;

verus! {

/// Number of candidates of cell `i` in a snapshot that may stand on side `e` of pattern `t2`.
pub open spec fn snapshot_support(
    s: &WaveSnapshot,
    propagator: Propagator,
    i: int,
    t2: int,
    e: Direction,
) -> int {
    count_true(
        |t: int| s.has(propagator.spec_t_count(), i, t) && propagator.allows(t2, e, t),
        propagator.spec_t_count(),
    )
}

/// Which patterns count as live while the derived state is rebuilt from the
/// wave cell by cell: the candidates, and every pattern that the rebuild
/// has not come to yet (it is at pattern `t` of cell `i`).
pub open spec fn rebuild_live(wave: Wave, i: int, t: int) -> spec_fn(int, int) -> bool {
    |c: int, u: int| wave.has(c, u) || c > i || (c == i && u >= t)
}

impl WFCModel {
    /// Whether a snapshot is due before the next collapse: snapshots are
    /// kept at all, and either none is held or at least the snapshot
    /// interval of cells has collapsed since the last one was taken.
    pub open spec fn snapshot_due(&self) -> bool {
        self.spec_max_snapshots() > 0 && (self@.history.len() == 0 || self.filled()
            - self@.last_snapshot_progress >= self.spec_snapshot_interval())
    }

    /// The snapshots that stay when one more is about to be added: all of
    /// them, or all but the oldest where the history is full.
    pub open spec fn history_with_room(&self) -> Seq<WaveSnapshot> {
        if self@.history.len() >= self.spec_max_snapshots() {
            self@.history.subrange(1, self@.history.len() as int)
        } else {
            self@.history
        }
    }

    /// Whether `s` records this state before the collapse of `target` to `tried`.
    pub open spec fn recorded_in(
        &self,
        s: &WaveSnapshot,
        target: CellIndex,
        tried: PatternIndex,
    ) -> bool {
        &&& s.spec_wave_data() == self@.wave
        &&& s.spec_cells() == self@.uncollapsed
        &&& s.spec_target() == target
        &&& s.spec_tried() == tried
        &&& s.spec_progress() == self@.last_snapshot_progress
    }

    /// Whether the wave of a snapshot is arc consistent under the rules of
    /// this solver: next to every candidate, on every side on which its
    /// cell has a neighbour, the neighbour has a candidate that may stand
    /// there.
    pub open spec fn snapshot_arc_consistent(&self, s: &WaveSnapshot) -> bool {
        forall|j: int, t2: int, e: Direction|
            0 <= j < self.spec_n_cells() && s.has(self.spec_t_count(), j, t2)
                && self.grid().neighbor(j, e) is Some ==> #[trigger] snapshot_support(
                s,
                self.spec_propagator(),
                self.grid().neighbor(j, e).unwrap(),
                t2,
                e,
            ) >= 1
    }

    /// Records the state before the collapse of cell `i` to pattern `t`,
    /// where a snapshot is due; the oldest snapshot makes room where the
    /// history is full.
    pub(crate) fn take_snapshot(&mut self, i: CellIndex, t: PatternIndex)
        requires
            old(self).wf(),
            i.base < old(self).n_cells,
            old(self).state.wave.has(i.base as int, t.base as int),
        ensures
            final(self).wf(),
            final(self).same_setup(old(self)),
            final(self).state == old(self).state,
            final(self).cells_collapsed == old(self).cells_collapsed,
            final(self).generation_complete == old(self).generation_complete,
            !old(self).snapshot_due() ==> final(self)@ == old(self)@,
            old(self).snapshot_due() ==> {
                &&& final(self)@.history.len() == old(self).history_with_room().len() + 1
                &&& final(self)@.history.drop_last() == old(self).history_with_room()
                &&& old(self).recorded_in(&final(self)@.history.last(), i, t)
                &&& final(self)@.last_snapshot_progress == old(self).filled()
            },
    {
        if self.max_snapshots == 0 {
            return ;
        }
        let current_progress = self.cells_collapsed.collapsed_count();
        let reached = current_progress >= self.last_snapshot_progress && current_progress
            - self.last_snapshot_progress >= self.snapshot_interval;
        if !reached && self.history.len() > 0 {
            return ;
        }
        let ghost n = self.n_cells as int;
        let ghost tc = self.t_count as int;
        if self.history.len() >= self.max_snapshots {
            let ghost before = self.history@;
            self.history.remove(0);
            proof {
                assert(self.history@ =~= before.subrange(1, before.len() as int));
                assert forall|k: int| 0 <= k < self.history@.len() implies (
                #[trigger] self.history@[k]).wf(n, tc) by {
                    assert(self.history@[k] == before[k + 1]);
                }
                assert forall|a: int, b: int|
                    0 <= a <= b < self.history@.len() implies (
                #[trigger] self.history@[a]).spec_cells().len() >= (
                #[trigger] self.history@[b]).spec_cells().len() by {
                    assert(self.history@[a] == before[a + 1]);
                    assert(self.history@[b] == before[b + 1]);
                }
                assert forall|k: int| 0 <= k < self.history@.len() implies (
                #[trigger] self.history@[k]).spec_cells().len() >= self.cells_collapsed@.len() by {
                    assert(self.history@[k] == before[k + 1]);
                }
            }
        }
        let snapshot = WaveSnapshot {
            wave_data: self.state.wave.clone_data(),
            cells_collapsed_indices: vstd::slice::slice_to_vec(
                self.cells_collapsed.get_uncollapsed_cells(),
            ),
            tried_pattern: t,
            target_cell: i,
            last_snapshot_progress: self.last_snapshot_progress,
        };
        proof {
            assert forall|c: int|
                0 <= c < n && count_true(|u: int| snapshot.has(tc, c, u), tc)
                    > 1 implies snapshot.spec_cells().contains(#[trigger] cell_of(c)) by {
                lemma_count_ext(
                    |u: int| snapshot.has(tc, c, u),
                    |u: int| self.state.wave.has(c, u),
                    tc,
                );
                assert(self.state.counts()[c] == self.state.popcount(c));
            }
            assert forall|k: int| 0 <= k < snapshot.spec_cells().len() implies (
            #[trigger] snapshot.spec_cells()[k]).base < n by {
                assert(snapshot.spec_cells()[k] == self.cells_collapsed.storage()[k]);
            }
            assert(snapshot.wf(n, tc));
        }
        let ghost before = self.history@;
        self.history.push(snapshot);
        self.last_snapshot_progress = current_progress;
        proof {
            assert(self.history@.drop_last() =~= before);
            assert forall|k: int| 0 <= k < self.history@.len() implies (
            #[trigger] self.history@[k]).wf(n, tc) by {
                if k < before.len() {
                    assert(self.history@[k] == before[k]);
                }
            }
            assert forall|a: int, b: int| 0 <= a <= b < self.history@.len() implies (
            #[trigger] self.history@[a]).spec_cells().len() >= (
            #[trigger] self.history@[b]).spec_cells().len() by {
                if a < before.len() {
                    assert(self.history@[a] == before[a]);
                }
                if b < before.len() {
                    assert(self.history@[b] == before[b]);
                }
            }
            assert forall|k: int| 0 <= k < self.history@.len() implies (
            #[trigger] self.history@[k]).spec_cells().len() >= self.cells_collapsed@.len() by {
                if k < before.len() {
                    assert(self.history@[k] == before[k]);
                }
            }
        }
    }
}

/// Number of patterns of cell `i` that are candidates or that the rebuild,
/// standing at pattern `t` of the cell, has not come to yet.
pub open spec fn rebuild_count(wave: Wave, i: int, t: int) -> int {
    count_true(|u: int| wave.has(i, u) || u >= t, wave.spec_t_count())
}

impl WFCModel {
    /// The log while the derived state is rebuilt and the rebuild stands at
    /// pattern `t` of cell `i`: it lists, each once, the patterns that the
    /// wave lacks among those that the rebuild has passed.
    pub open(crate) spec fn logged_before(&self, wave: Wave, i: int, t: int) -> bool {
        let log = self.state.ban_log@;
        &&& forall|k: int|
            0 <= k < log.len() ==> {
                &&& (#[trigger] log[k]).0.base < self.n_cells
                &&& log[k].1.base < self.t_count
                &&& !wave.has(log[k].0.base as int, log[k].1.base as int)
                &&& (log[k].0.base < i || (log[k].0.base == i && log[k].1.base < t))
            }
        &&& log.no_duplicates()
        &&& forall|c: int, u: int|
            0 <= c < self.n_cells && 0 <= u < self.t_count && !#[trigger] wave.has(c, u) && (c < i
                || (c == i && u < t)) ==> logged_after(log, 0, ban_of(c, u))
    }

    /// What the rebuild of the derived state leaves as it was.
    pub open(crate) spec fn same_but_derived(&self, old: &WFCModel) -> bool {
        &&& self.same_setup(old)
        &&& self.cells_collapsed == old.cells_collapsed
        &&& self.history == old.history
        &&& self.generation_complete == old.generation_complete
        &&& self.last_snapshot_progress == old.last_snapshot_progress
        &&& self.to_ban_queue == old.to_ban_queue
        &&& self.state.wave == old.state.wave
        &&& self.state.dirty_cells == old.state.dirty_cells
        &&& self.state.stack == old.state.stack
    }

    /// Brings the counts, the observed patterns and the compatibility
    /// counts, all in their initial state, in line with the wave: for every
    /// pattern that the wave does not hold at a cell, the counts of the
    /// neighbours and the count of the cell are lowered, and the ban is
    /// logged. A cell that is left with one candidate gets it as its
    /// observed pattern.
    pub(crate) fn rebuild_state_from_wave(&mut self)
        requires
            old(self).dims_ok(),
            old(self).state.sizes_ok(),
            old(self).queue_ok(),
            old(self).state.counts() == Seq::new(
                old(self).n_cells as nat,
                |i: int| old(self).t_count as i32,
            ),
            old(self).state.observed_view() == Seq::new(old(self).n_cells as nat, |i: int| -1i32),
            old(self).state.compatible@ == initial_counts(
                old(self).propagator.spec_lengths(),
                old(self).n_cells as int,
                old(self).t_count as int,
            ),
            old(self).state.stack@.len() == 0,
            old(self).state.ban_log@.len() == 0,
        ensures
            final(self).same_but_derived(old(self)),
            final(self).dims_ok(),
            final(self).state.wf(),
            final(self).propagator.consistent() ==> final(self).counts_exact(),
            final(self).state.log_lists_absent(),
    {
        let n_cells = self.n_cells;
        let t_count = self.t_count;
        let ghost n = n_cells as int;
        let ghost tc = t_count as int;
        let ghost wave = self.state.wave;
        let ghost grid = self.grid();
        let ghost prop = self.propagator;
        proof {
            assert(grid.n_cells() == n);
            assert(self.state.compatible.spec_n_cells() == n);
            assert(self.state.compatible.spec_t_count() == tc);
            if prop.consistent() {
                let live = rebuild_live(wave, 0, 0);
                assert forall|j: int, t2: int, e: Direction|
                    0 <= j < grid.n_cells() && 0
                        <= t2 < tc implies #[trigger] self.state.compatible.at(
                    j,
                    t2,
                    e,
                ) == support(live, prop, grid.neighbor(j, e), t2, e) by {
                    lemma_initial_counts(prop.spec_lengths(), n, tc, j, t2, e);
                    assert(0 <= e.spec_index() * tc + t2 < 4 * tc) by (nonlinear_arith)
                        requires
                            0 <= e.spec_index() <= 3,
                            0 <= t2 < tc,
                    ;
                    assert(0 <= prop.spec_lengths()[e.spec_index() * tc + t2] <= u16::MAX);
                    assert(prop.count(t2, e) == prop.spec_lengths()[e.spec_index() * tc + t2]);
                    lemma_neighbor_in_range(grid.width, grid.height, grid.periodic, j, e);
                    if let Some(i) = grid.neighbor(j, e) {
                        assert forall|t: int| 0 <= t < tc implies #[trigger] live(i, t) by {}
                    }
                    lemma_support_full(live, prop, grid.neighbor(j, e), t2, e);
                }
            }
        }
        let mut scratch: Vec<PatternIndex> = Vec::new();
        let mut i: usize = 0;
        while i < n_cells
            invariant
                i <= n_cells,
                n == n_cells,
                tc == t_count,
                n_cells == self.n_cells,
                t_count == self.t_count,
                wave == self.state.wave,
                grid == self.grid(),
                prop == self.propagator,
                self.same_but_derived(old(self)),
                self.dims_ok(),
                self.state.sizes_ok(),
                self.queue_ok(),
                self.logged_before(wave, i as int, 0),
                forall|c: int| 0 <= c < i ==> #[trigger] self.state.counts()[c] == wave.popcount(c),
                forall|c: int| i <= c < n ==> #[trigger] self.state.counts()[c] == tc,
                forall|c: int|
                    0 <= c < i ==> {
                        &&& -1 <= #[trigger] self.state.observed_view()[c] < tc
                        &&& self.state.counts()[c] == 1 ==> wave.has(
                            c,
                            self.state.observed_view()[c] as int,
                        )
                        &&& self.state.counts()[c] > 1 ==> self.state.observed_view()[c] == -1
                    },
                forall|c: int| i <= c < n ==> #[trigger] self.state.observed_view()[c] == -1,
                prop.consistent() ==> counts_match(
                    self.state.compatible,
                    prop,
                    grid,
                    rebuild_live(wave, i as int, 0),
                ),
            decreases n_cells - i,
        {
            let cell_idx = CellIndex { base: i };
            proof {
                crate::bits::lemma_count_full(|u: int| wave.has(i as int, u) || u >= 0, tc);
            }
            let mut t: usize = 0;
            while t < t_count
                invariant
                    t <= t_count,
                    i < n_cells,
                    cell_idx.base == i,
                    n == n_cells,
                    tc == t_count,
                    n_cells == self.n_cells,
                    t_count == self.t_count,
                    wave == self.state.wave,
                    grid == self.grid(),
                    prop == self.propagator,
                    self.same_but_derived(old(self)),
                    self.dims_ok(),
                    self.state.sizes_ok(),
                    self.queue_ok(),
                    self.logged_before(wave, i as int, t as int),
                    forall|c: int|
                        0 <= c < i ==> #[trigger] self.state.counts()[c] == wave.popcount(c),
                    forall|c: int| i < c < n ==> #[trigger] self.state.counts()[c] == tc,
                    self.state.counts()[i as int] == rebuild_count(wave, i as int, t as int),
                    forall|c: int|
                        0 <= c < i ==> {
                            &&& -1 <= #[trigger] self.state.observed_view()[c] < tc
                            &&& self.state.counts()[c] == 1 ==> wave.has(
                                c,
                                self.state.observed_view()[c] as int,
                            )
                            &&& self.state.counts()[c] > 1 ==> self.state.observed_view()[c] == -1
                        },
                    forall|c: int| i <= c < n ==> #[trigger] self.state.observed_view()[c] == -1,
                    prop.consistent() ==> counts_match(
                        self.state.compatible,
                        prop,
                        grid,
                        rebuild_live(wave, i as int, t as int),
                    ),
                decreases t_count - t,
            {
                let pattern_idx = PatternIndex { base: t };
                let ghost live = rebuild_live(wave, i as int, t as int);
                let ghost next = rebuild_live(wave, i as int, t + 1);
                let ghost f = |u: int| wave.has(i as int, u) || u >= t;
                let ghost g = |u: int| wave.has(i as int, u) || u >= t + 1;
                if !self.state.wave.is_candidate(cell_idx, pattern_idx) {
                    let ghost before = *self;
                    self.manually_propagate_ban(cell_idx, pattern_idx, &mut scratch, Ghost(live));
                    proof {
                        lemma_count_positive(f, tc, t as int);
                        lemma_count_remove(f, g, tc, t as int);
                    }
                    let ghost mid = *self;
                    self.state.entropy_tracker.ban_pattern(cell_idx, pattern_idx);
                    let ghost log = self.state.ban_log@;
                    self.state.ban_log.push((cell_idx, pattern_idx));
                    proof {
                        assert(self.logged_before(wave, i as int, t + 1)) by {
                            let now = self.state.ban_log@;
                            assert(now[log.len() as int] == (cell_idx, pattern_idx));
                            assert forall|k: int| 0 <= k < now.len() implies {
                                &&& (#[trigger] now[k]).0.base < n
                                &&& now[k].1.base < tc
                                &&& !wave.has(now[k].0.base as int, now[k].1.base as int)
                                &&& (now[k].0.base < i || (now[k].0.base == i && now[k].1.base < t
                                    + 1))
                            } by {
                                if k < log.len() {
                                    assert(now[k] == log[k]);
                                }
                            }
                            assert forall|a: int, b: int|
                                0 <= a < now.len() && 0 <= b < now.len() && a != b implies now[a]
                                != now[b] by {
                                if a < log.len() {
                                    assert(now[a] == log[a]);
                                }
                                if b < log.len() {
                                    assert(now[b] == log[b]);
                                }
                            }
                            assert forall|c: int, u: int|
                                0 <= c < n && 0 <= u < tc && !#[trigger] wave.has(c, u) && (c < i
                                    || (c == i && u < t + 1)) implies logged_after(
                                now,
                                0,
                                ban_of(c, u),
                            ) by {
                                if c == i && u == t {
                                    assert(now[log.len() as int] == ban_of(c, u));
                                } else {
                                    let k = choose|k: int|
                                        0 <= k < log.len() && #[trigger] log[k] == ban_of(c, u);
                                    assert(now[k] == ban_of(c, u));
                                }
                            }
                        }
                        assert forall|c: int| 0 <= c < i implies #[trigger] self.state.counts()[c]
                            == wave.popcount(c) by {
                            assert(before.state.counts()[c] == wave.popcount(c));
                        }
                        assert forall|c: int| i < c < n implies #[trigger] self.state.counts()[c]
                            == tc by {
                            assert(before.state.counts()[c] == tc);
                        }
                        assert forall|c: int| 0 <= c < i implies {
                            &&& -1 <= #[trigger] self.state.observed_view()[c] < tc
                            &&& self.state.counts()[c] == 1 ==> wave.has(
                                c,
                                self.state.observed_view()[c] as int,
                            )
                            &&& self.state.counts()[c] > 1 ==> self.state.observed_view()[c] == -1
                        } by {
                            assert(-1 <= before.state.observed_view()[c] < tc);
                            assert(before.state.counts()[c] == self.state.counts()[c]);
                        }
                        assert forall|c: int| i <= c < n implies
                        #[trigger] self.state.observed_view()[c] == -1 by {
                            assert(before.state.observed_view()[c] == -1);
                        }
                        if prop.consistent() {
                            lemma_counts_match_ext(
                                self.state.compatible,
                                prop,
                                grid,
                                without(live, i as int, t as int),
                                next,
                            );
                        }
                    }
                } else {
                    proof {
                        lemma_count_ext(f, g, tc);
                        if prop.consistent() {
                            lemma_counts_match_ext(self.state.compatible, prop, grid, live, next);
                        }
                        assert(self.logged_before(wave, i as int, t + 1));
                    }
                }
                t += 1;
            }
            proof {
                lemma_count_ext(
                    |u: int| wave.has(i as int, u) || u >= tc,
                    |u: int| wave.has(i as int, u),
                    tc,
                );
                assert(self.state.counts()[i as int] == wave.popcount(i as int));
            }
            let ghost before = *self;
            if self.state.entropy_tracker.pattern_determined(cell_idx) {
                let p = self.state.wave.find_remaining_pattern(cell_idx);
                proof {
                    let h = |u: int| wave.has(i as int, u);
                    if p == -1 {
                        lemma_count_none(h, tc);
                        assert forall|u: int| 0 <= u < tc implies !#[trigger] h(u) by {
                            assert(!wave.has(i as int, u));
                        }
                    }
                }
                self.state.observed.set(cell_idx, p);
            }
            proof {
                assert forall|c: int| 0 <= c < i + 1 implies #[trigger] self.state.counts()[c]
                    == wave.popcount(c) by {
                    if c < i {
                        assert(before.state.counts()[c] == wave.popcount(c));
                    }
                }
                assert forall|c: int| i + 1 <= c < n implies #[trigger] self.state.counts()[c]
                    == tc by {
                    assert(before.state.counts()[c] == tc);
                }
                assert forall|c: int| 0 <= c < i + 1 implies {
                    &&& -1 <= #[trigger] self.state.observed_view()[c] < tc
                    &&& self.state.counts()[c] == 1 ==> wave.has(
                        c,
                        self.state.observed_view()[c] as int,
                    )
                    &&& self.state.counts()[c] > 1 ==> self.state.observed_view()[c] == -1
                } by {
                    if c < i {
                        assert(-1 <= before.state.observed_view()[c] < tc);
                        assert(before.state.counts()[c] == self.state.counts()[c]);
                    } else {
                        assert(before.state.observed_view()[c] == -1);
                    }
                }
                assert forall|c: int| i + 1 <= c < n implies
                #[trigger] self.state.observed_view()[c]
                    == -1 by {
                    assert(before.state.observed_view()[c] == -1);
                }
                if prop.consistent() {
                    lemma_counts_match_ext(
                        self.state.compatible,
                        prop,
                        grid,
                        rebuild_live(wave, i as int, tc),
                        rebuild_live(wave, i + 1, 0),
                    );
                }
            }
            i += 1;
        }
        proof {
            assert(self.state.counts_ok());
            assert(self.state.observed_ok());
            if prop.consistent() {
                lemma_counts_match_ext(
                    self.state.compatible,
                    prop,
                    grid,
                    rebuild_live(wave, n, 0),
                    self.live(),
                );
            }
            assert(self.state.log_lists_absent());
        }
    }
}

impl WFCModel {
    /// Whether this state is what a revert to snapshot `s` leaves, with `rest`
    /// as the remaining history: the wave of the snapshot without the
    /// pattern that was tried, the uncollapsed cells and the progress marker
    /// of the snapshot, every cell dirty, and the ban of the tried pattern
    /// waiting to be propagated.
    pub open spec fn reverted_to(&self, s: &WaveSnapshot, rest: Seq<WaveSnapshot>) -> bool {
        &&& self@.history == rest
        &&& forall|c: int, t: int|
            0 <= c < self.spec_n_cells() ==> (#[trigger] self.has(c, t) <==> s.has(
                self.spec_t_count(),
                c,
                t,
            ) && !(c == s.spec_target().base && t == s.spec_tried().base))
        &&& self@.uncollapsed == s.spec_cells()
        &&& self@.last_snapshot_progress == s.spec_progress()
        &&& self@.dirty == all_cells(self.spec_n_cells())
        &&& self@.stack == seq![(s.spec_target(), s.spec_tried())]
        &&& self.spec_state().log_lists_absent()
    }

    /// Rewinds the solver to the most recent snapshot and bans the pattern
    /// that was tried from it, so that the same choice cannot be made again.
    /// The counts, the observed patterns and the compatibility counts are
    /// rebuilt from the wave of the snapshot. Returns `false`, and changes
    /// nothing, where no snapshot is held.
    pub fn revert(&mut self) -> (r: bool)
        requires
            old(self).wf(),
        ensures
            final(self).wf(),
            final(self).same_setup(old(self)),
            r == (old(self)@.history.len() > 0),
            !r ==> final(self)@ == old(self)@,
            r ==> final(self).reverted_to(
                &old(self)@.history.last(),
                old(self)@.history.drop_last(),
            ),
            r ==> final(self)@.generation_complete == old(self)@.generation_complete,
            r ==> final(self).filled() <= old(self).filled(),
            r && old(self).spec_propagator().consistent() && old(self).snapshot_arc_consistent(
                &old(self)@.history.last(),
            ) ==> final(self).supported(),
            !r && old(self).supported() ==> final(self).supported(),
    {
        if self.history.len() == 0 {
            return false;
        }
        let ghost n = self.n_cells as int;
        let ghost tc = self.t_count as int;
        let ghost hist = self.history@;
        let s = self.history.pop().unwrap();
        proof {
            assert(s == hist[hist.len() - 1]);
            assert(s.wf(n, tc));
            assert(self.history@ =~= hist.drop_last());
            assert(s.spec_cells().len() >= self.cells_collapsed@.len());
        }
        self.state.wave.set_data(&s);
        self.state.compatible.reset(&self.propagator);
        self.state.entropy_tracker.reset();
        self.state.observed.fill(-1);
        self.state.stack.clear();
        self.to_ban_queue.clear();
        self.state.ban_log.clear();
        self.rebuild_state_from_wave();
        let ghost rebuilt = *self;
        self.cells_collapsed.reset_from_snapshot(&s.cells_collapsed_indices);
        self.last_snapshot_progress = s.last_snapshot_progress;
        self.state.dirty_cells.mark_all_dirty();
        proof {
            assert(self.state.wave == rebuilt.state.wave);
            assert(self.state.entropy_tracker == rebuilt.state.entropy_tracker);
            assert(self.state.observed == rebuilt.state.observed);
            assert(self.state.stack == rebuilt.state.stack);
            assert(self.state.compatible == rebuilt.state.compatible);
            assert(self.state.counts_ok()) by {
                assert forall|i: int| 0 <= i < n implies #[trigger] self.state.counts()[i]
                    == self.state.popcount(i) by {
                    assert(rebuilt.state.counts()[i] == rebuilt.state.popcount(i));
                }
            }
            assert(self.state.observed_ok()) by {
                assert forall|i: int| 0 <= i < n implies {
                    &&& -1 <= #[trigger] self.state.observed_view()[i] < tc
                    &&& self.state.counts()[i] == 1 ==> self.state.wave.has(
                        i,
                        self.state.observed_view()[i] as int,
                    )
                    &&& self.state.counts()[i] > 1 ==> self.state.observed_view()[i] == -1
                } by {
                    assert(-1 <= rebuilt.state.observed_view()[i] < tc);
                }
            }
            assert(self.state.wf());
            assert forall|c: int, t: int| 0 <= c < n implies (#[trigger] self.state.wave.has(c, t)
                <==> s.has(tc, c, t)) by {}
            assert forall|i: int|
                0 <= i < n && self.state.counts()[i] > 1 implies self.cells_collapsed@.contains(
                #[trigger] cell_of(i),
            ) by {
                assert(self.state.counts()[i] == self.state.popcount(i));
                lemma_count_ext(
                    |t: int| s.has(tc, i, t),
                    |t: int| self.state.wave.has(i, t),
                    tc,
                );
            }
            assert forall|k: int| 0 <= k < self.history@.len() implies (
            #[trigger] self.history@[k]).wf(n, tc) by {
                assert(self.history@[k] == hist[k]);
            }
            assert forall|a: int, b: int| 0 <= a <= b < self.history@.len() implies (
            #[trigger] self.history@[a]).spec_cells().len() >= (
            #[trigger] self.history@[b]).spec_cells().len() by {
                assert(self.history@[a] == hist[a]);
                assert(self.history@[b] == hist[b]);
            }
            assert forall|k: int| 0 <= k < self.history@.len() implies (
            #[trigger] self.history@[k]).spec_cells().len() >= self.cells_collapsed@.len() by {
                assert(self.history@[k] == hist[k]);
                assert(hist[k].spec_cells().len() >= hist[hist.len() - 1].spec_cells().len());
            }
            assert(self.inv());
            assert(self.state.dirty_cells@.contains(s.target_cell)) by {
                assert(self.state.dirty_cells@[s.target_cell.base as int] == s.target_cell);
            }
            if self.propagator.consistent() && old(self).snapshot_arc_consistent(&s) {
                let live = self.live();
                assert forall|j: int, t2: int, e: Direction|
                    0 <= j < self.n_cells && self.state.wave.has(j, t2)
                        && self.grid().neighbor(j, e)
                        is Some implies #[trigger] self.state.compatible.at(j, t2, e) >= 1 by {
                    let i = self.grid().neighbor(j, e).unwrap();
                    lemma_neighbor_in_range(
                        self.grid().width,
                        self.grid().height,
                        self.grid().periodic,
                        j,
                        e,
                    );
                    assert(snapshot_support(&s, self.propagator, i, t2, e) >= 1);
                    lemma_count_ext(
                        |t: int| s.has(tc, i, t) && self.propagator.allows(t2, e, t),
                        |t: int| live(i, t) && self.propagator.allows(t2, e, t),
                        tc,
                    );
                }
                assert(self.supported());
            }
        }
        let ghost mid = *self;
        self.ban_cell(s.target_cell, s.tried_pattern);
        proof {
            assert(self.state.log_lists_absent()) by {
                let log = mid.state.ban_log@;
                let now = self.state.ban_log@;
                let entry = (s.target_cell, s.tried_pattern);
                assert(now[log.len() as int] == entry);
                assert(mid.state.wave.has(s.target_cell.base as int, s.tried_pattern.base as int));
                assert forall|k: int| 0 <= k < now.len() implies {
                    &&& (#[trigger] now[k]).0.base < self.state.n_cells()
                    &&& now[k].1.base < self.state.t_count()
                    &&& !self.state.wave.has(now[k].0.base as int, now[k].1.base as int)
                } by {
                    if k < log.len() {
                        assert(now[k] == log[k]);
                        assert(!mid.state.wave.has(log[k].0.base as int, log[k].1.base as int));
                    }
                }
                assert forall|a: int, b: int|
                    0 <= a < now.len() && 0 <= b < now.len() && a != b implies now[a] != now[b] by {
                    if a < log.len() {
                        assert(now[a] == log[a]);
                        assert(!mid.state.wave.has(log[a].0.base as int, log[a].1.base as int));
                    }
                    if b < log.len() {
                        assert(now[b] == log[b]);
                        assert(!mid.state.wave.has(log[b].0.base as int, log[b].1.base as int));
                    }
                }
                assert forall|c: int, u: int|
                    0 <= c < self.state.n_cells() && 0 <= u < self.state.t_count()
                        && !#[trigger] self.state.wave.has(c, u) implies logged_after(
                    now,
                    0,
                    ban_of(c, u),
                ) by {
                    if mid.state.wave.has(c, u) {
                        assert(c == s.target_cell.base && u == s.tried_pattern.base);
                        assert(now[log.len() as int] == ban_of(c, u));
                    } else {
                        let k = choose|k: int|
                            0 <= k < log.len() && #[trigger] log[k] == ban_of(c, u);
                        assert(now[k] == ban_of(c, u));
                    }
                }
            }
            assert(self.state.stack@ =~= seq![(s.target_cell, s.tried_pattern)]);
            assert forall|c: int, t: int| 0 <= c < n implies (#[trigger] self.has(c, t) <==> s.has(
                tc,
                c,
                t,
            ) && !(c == s.spec_target().base && t == s.spec_tried().base)) by {
                assert(self.state.wave.has(c, t) <==> mid.state.wave.has(c, t) && !(c
                    == s.target_cell.base && t == s.tried_pattern.base));
                assert(mid.state.wave.has(c, t) <==> s.has(tc, c, t));
            }
        }
        true
    }
}

} // verus!
