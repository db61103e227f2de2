//! One iteration of the solver: observe, collapse, propagate, and rewind on
//! a contradiction.
//!
//! The random part of an iteration is decided outside: the caller scores
//! the uncollapsed cells, asks [`WFCModel::find_observe_target`] for the
//! cell to collapse, draws one of its candidates, and hands both to
//! [`WFCModel::single_iteration_with_snapshots`].

use crate::bits::lemma_count_none;
use crate::cell::CellIndex;
use crate::cell_collapsed_collection::{lemma_retain_open, retain_open};
use crate::pattern_collection::PatternIndex;
use crate::wfc_model::{all_cells, cell_of, IterationResult, ModelView, WFCModel};
use vstd::prelude::*;

verus! {

/// Whether position `k` of the uncollapsed cells is the one to observe: its
/// score is below `u64::MAX`, no cell of the list has a lower score, and
/// every cell before it has a higher one.
pub open spec fn is_observe_target(uncollapsed: Seq<CellIndex>, scores: Seq<u64>, k: int) -> bool {
    &&& 0 <= k < uncollapsed.len()
    &&& scores[uncollapsed[k].base as int] < u64::MAX
    &&& forall|j: int|
        0 <= j < uncollapsed.len() ==> scores[(#[trigger] uncollapsed[j]).base as int]
            >= scores[uncollapsed[k].base as int]
    &&& forall|j: int|
        0 <= j < k ==> scores[(#[trigger] uncollapsed[j]).base as int]
            > scores[uncollapsed[k].base as int]
}

impl WFCModel {
    /// The uncollapsed cell with the lowest score, the first of them where
    /// several share it. `scores` holds one score per cell of the grid; a
    /// cell whose score is `u64::MAX` is never chosen. Returns nothing
    /// where no cell can be chosen, in particular where none is uncollapsed.
    pub fn find_observe_target(&self, scores: &Vec<u64>) -> (r: Option<CellIndex>)
        requires
            self.wf(),
            scores@.len() == self.spec_n_cells(),
        ensures
            match r {
                Some(c) => exists|k: int|
                    is_observe_target(self@.uncollapsed, scores@, k)
                        && #[trigger] self@.uncollapsed[k]
                        == c,
                None => forall|k: int|
                    0 <= k < self@.uncollapsed.len() ==> scores@[(
                    #[trigger] self@.uncollapsed[k]).base as int] == u64::MAX,
            },
    {
        let mut min_score: u64 = u64::MAX;
        let mut min_idx: Option<CellIndex> = None;
        let cells = self.cells_collapsed.get_uncollapsed_cells();
        let ghost list = self@.uncollapsed;
        let ghost best: int = -1;
        let mut k: usize = 0;
        while k < cells.len()
            invariant
                k <= cells@.len(),
                cells@ == list,
                scores@.len() == self.spec_n_cells(),
                forall|j: int| 0 <= j < list.len()
                    ==> (#[trigger] list[j]).base < self.spec_n_cells(),
                min_idx is None ==> min_score == u64::MAX && best == -1,
                min_idx matches Some(c) ==> 0 <= best < k && list[best] == c && min_score
                    == scores@[c.base as int] && min_score < u64::MAX,
                forall|j: int| 0 <= j < k
                    ==> scores@[(#[trigger] list[j]).base as int] >= min_score,
                forall|j: int|
                    0 <= j < best ==> scores@[(#[trigger] list[j]).base as int] > min_score,
            decreases cells@.len() - k,
        {
            let idx = cells[k];
            assert(idx == list[k as int]);
            let score = scores[idx.base];
            if score < min_score {
                min_score = score;
                min_idx = Some(idx);
                proof {
                    best = k as int;
                }
            }
            k += 1;
        }
        proof {
            if min_idx is Some {
                assert(is_observe_target(list, scores@, best));
            }
        }
        min_idx
    }

    /// What a step leaves: nothing waits to be propagated, the target holds
    /// the chosen pattern and no other, no cell gained a candidate or lost
    /// its last one, the uncollapsed cells are exactly the cells with more
    /// than one candidate, in their old order, and no fewer cells count as
    /// collapsed than before.
    pub open spec fn stepped_from(
        &self,
        old: &WFCModel,
        target: CellIndex,
        chosen: PatternIndex,
    ) -> bool {
        &&& self@.stack.len() == 0
        &&& forall|t: int| #[trigger] self.has(target.base as int, t) <==> t == chosen.base
        &&& forall|c: int, t: int|
            0 <= c < self.spec_n_cells() && #[trigger] self.has(c, t) ==> old.has(c, t)
        &&& forall|c: int|
            0 <= c < self.spec_n_cells() && #[trigger] self@.counts[c] == 0 ==> old@.counts[c] == 0
        &&& self@.uncollapsed == retain_open(old@.uncollapsed, self@.counts)
        &&& forall|c: int|
            0 <= c < self.spec_n_cells() ==> (self@.uncollapsed.contains(#[trigger] cell_of(c))
                <==> self@.counts[c] > 1)
        &&& self@.generation_complete == old@.generation_complete
        &&& self.filled() >= old.filled()
        &&& self.spec_state().log_records_from(&old.spec_state())
        &&& self.spec_propagator().consistent() ==> self.bans_forced_since(
            old,
            Some((target, chosen)),
        )
    }

    /// Whether the history and the progress marker are those of `old` after
    /// one snapshot was taken before the collapse of `target` to `chosen`.
    pub open spec fn snapshot_added(
        &self,
        old: &WFCModel,
        target: CellIndex,
        chosen: PatternIndex,
    ) -> bool {
        &&& self@.history.len() == old.history_with_room().len() + 1
        &&& self@.history.drop_last() == old.history_with_room()
        &&& old.recorded_in(&self@.history.last(), target, chosen)
        &&& self@.last_snapshot_progress == old.filled()
    }

    /// What a revert to a snapshot taken in the same iteration leaves: the
    /// state before the iteration with the chosen pattern banned at the
    /// target, the ban waiting to be propagated, every cell dirty, and the
    /// history as it was but for the snapshot that made room.
    pub open spec fn pruned_from(
        &self,
        old: &WFCModel,
        target: CellIndex,
        chosen: PatternIndex,
    ) -> bool {
        &&& self@.history == old.history_with_room()
        &&& forall|c: int, t: int|
            0 <= c < self.spec_n_cells() ==> (#[trigger] self.has(c, t) <==> old.has(c, t) && !(c
                == target.base && t == chosen.base))
        &&& self@.uncollapsed == old@.uncollapsed
        &&& self@.last_snapshot_progress == old@.last_snapshot_progress
        &&& self@.dirty == all_cells(self.spec_n_cells())
        &&& self@.stack == seq![(target, chosen)]
        &&& self.spec_state().log_lists_absent()
    }

    /// What a failed iteration leaves: a cell without candidates, no
    /// snapshot, and no cell with a candidate that it did not have.
    pub open spec fn failed_from(
        &self,
        old: &WFCModel,
        target: CellIndex,
        chosen: PatternIndex,
    ) -> bool {
        &&& self@.history.len() == 0
        &&& exists|c: int| 0 <= c < self.spec_n_cells() && #[trigger] self@.counts[c] == 0
        &&& forall|c: int, t: int|
            0 <= c < self.spec_n_cells() && #[trigger] self.has(c, t) ==> old.has(c, t)
        &&& self@.uncollapsed == old@.uncollapsed
        &&& self@.generation_complete == old@.generation_complete
        &&& self.spec_state().log_records_from(&old.spec_state())
        &&& self.spec_propagator().consistent() ==> self.bans_forced_since(
            old,
            Some((target, chosen)),
        )
    }

    /// Whether a revert in an iteration from this state leads to a
    /// supported state: the rules are consistent, and the snapshot that the
    /// iteration would revert to is arc consistent. That is the snapshot of
    /// the iteration itself where one is taken, which is arc consistent
    /// where this state is supported and nothing waits to be propagated,
    /// and else the most recent one that is held.
    pub open spec fn revert_is_sound(&self, target: Option<CellIndex>, snapshots: bool) -> bool {
        &&& self.spec_propagator().consistent()
        &&& if snapshots && self.snapshot_due() && (target matches Some(i)
            && self@.counts[i.base as int]
            != 0) {
            self.supported() && self@.stack.len() == 0
        } else {
            self.snapshot_arc_consistent(&self@.history.last())
        }
    }

    /// What one iteration with the given target and chosen pattern makes of
    /// `old`, by its result. `snapshots` says whether the iteration takes
    /// snapshots.
    ///
    /// - Without a target the result is `SUCCESS`, and only the completion
    ///   flag changes.
    /// - A target without candidates makes the iteration revert to the most
    ///   recent snapshot (`REVERT`), or fail with nothing changed (`FAIL`)
    ///   where none is held.
    /// - Otherwise a snapshot is taken first where one is due, the target is
    ///   collapsed to the chosen pattern, and the bans are propagated.
    ///   `STEP`: see [`WFCModel::stepped_from`]. `REVERT`: the state is
    ///   rewound to the most recent snapshot, which is the one of this
    ///   iteration where one was taken. `FAIL`: no snapshot was held.
    ///   Under consistent rules the iteration reverts or fails only where
    ///   the choice was hopeless: where some filling of the grid within the
    ///   wave obeys the rules and keeps to the choice, the result is `STEP`.
    pub open spec fn iteration_outcome(
        &self,
        old: &WFCModel,
        target: Option<CellIndex>,
        chosen: PatternIndex,
        snapshots: bool,
        r: IterationResult,
    ) -> bool {
        match target {
            None => r == IterationResult::SUCCESS && self@ == (ModelView {
                generation_complete: true,
                ..old@
            }),
            Some(i) => if old@.counts[i.base as int] == 0 {
                if old@.history.len() > 0 {
                    &&& r == IterationResult::REVERT
                    &&& self.reverted_to(&old@.history.last(), old@.history.drop_last())
                    &&& self@.generation_complete == old@.generation_complete
                } else {
                    &&& r == IterationResult::FAIL
                    &&& self@ == old@
                }
            } else {
                let due = snapshots && old.snapshot_due();
                match r {
                    IterationResult::STEP => {
                        &&& self.stepped_from(old, i, chosen)
                        &&& if due {
                            self.snapshot_added(old, i, chosen)
                        } else {
                            &&& self@.history == old@.history
                            &&& self@.last_snapshot_progress == old@.last_snapshot_progress
                        }
                    },
                    IterationResult::REVERT => {
                        &&& if due {
                            self.pruned_from(old, i, chosen)
                        } else {
                            &&& old@.history.len() > 0
                            &&& self.reverted_to(&old@.history.last(), old@.history.drop_last())
                        }
                        &&& self@.generation_complete == old@.generation_complete
                        &&& self.spec_propagator().consistent() ==> old.hopeless(Some((i, chosen)))
                    },
                    IterationResult::FAIL => {
                        &&& !due
                        &&& old@.history.len() == 0
                        &&& self.failed_from(old, i, chosen)
                        &&& self.spec_propagator().consistent() ==> old.hopeless(Some((i, chosen)))
                    },
                    IterationResult::SUCCESS => false,
                }
            },
        }
    }

    /// One iteration, with or without snapshots.
    fn iterate(&mut self, target: Option<CellIndex>, chosen_t: PatternIndex, snapshots: bool) -> (r:
        IterationResult)
        requires
            old(self).wf(),
            target matches Some(i)
                ==> i.base < old(self).spec_n_cells() && (old(self)@.counts[i.base as int]
                != 0 ==> old(self).has(i.base as int, chosen_t.base as int)),
        ensures
            final(self).wf(),
            final(self).same_setup(old(self)),
            final(self).iteration_outcome(old(self), target, chosen_t, snapshots, r),
            r == IterationResult::STEP ==> final(self).filled() >= old(self).filled(),
            r == IterationResult::REVERT ==> final(self).filled() <= old(self).filled(),
            r == IterationResult::STEP && old(self).supported() ==> final(self).supported(),
            r == IterationResult::SUCCESS && old(self).supported() ==> final(self).supported(),
            r == IterationResult::REVERT && old(self).revert_is_sound(target, snapshots)
                ==> final(self).supported(),
    {
        match target {
            None => {
                self.generation_complete = true;
                IterationResult::SUCCESS
            },
            Some(i) => {
                if self.state.entropy_tracker.has_no_possible_patterns(i) {
                    return if self.revert() {
                        IterationResult::REVERT
                    } else {
                        IterationResult::FAIL
                    };
                }
                let ghost n = self.n_cells as int;
                let ghost tc = self.t_count as int;
                let ghost due = snapshots && self.snapshot_due();
                if snapshots {
                    self.take_snapshot(i, chosen_t);
                }
                let ghost taken = *self;
                self.collapse_cell(i, chosen_t);
                let ghost collapsed = *self;
                proof {
                    assert(self.wf());
                    // the target holds the chosen pattern alone
                    assert(self.state.counts()[i.base as int]
                        == self.state.popcount(i.base as int));
                    crate::bits::lemma_count_single(
                        |t: int| self.state.wave.has(i.base as int, t),
                        tc,
                        chosen_t.base as int,
                    );
                }
                if self.propagate() {
                    let ghost propagated = *self;
                    self.cells_collapsed.refresh(&self.state.entropy_tracker);
                    proof {
                        lemma_retain_open(propagated.cells_collapsed@, self.state.counts());
                        propagated.lemma_advanced_chain(&collapsed, &taken);
                        if self.propagator.consistent() {
                            collapsed.lemma_forced_same_log(&collapsed, &taken, Some((i, chosen_t)));
                            assert forall|k: int|
                                collapsed.state.ban_log@.len() <= k
                                    < propagated.state.ban_log@.len() implies (
                            #[trigger] propagated.state.ban_log@[k]).0.base
                                < propagated.n_cells by {}
                            propagated.lemma_forced_chain(&collapsed, &taken, Some((i, chosen_t)));
                            self.lemma_forced_same_log(&propagated, &taken, Some((i, chosen_t)));
                            self.lemma_forced_rebased_on_same_state(&taken, old(self), Some((i, chosen_t)));
                        }
                        assert forall|c: int|
                            0 <= c < n && self.state.counts()[c]
                                > 1 implies self.cells_collapsed@.contains(#[trigger] cell_of(c)) by {
                            assert(propagated.cells_collapsed@.contains(cell_of(c)));
                        }
                        assert forall|c: int| 0 <= c < n implies (self@.uncollapsed.contains(
                            #[trigger] cell_of(c),
                        ) <==> self@.counts[c] > 1) by {
                            if self@.counts[c] > 1 {
                                assert(propagated.cells_collapsed@.contains(cell_of(c)));
                            }
                        }
                        assert forall|k: int| 0 <= k < self.history@.len() implies (
                        #[trigger] self.history@[k]).spec_cells().len()
                            >= self.cells_collapsed@.len() by {
                            assert(propagated.history@[k].spec_cells().len()
                                >= propagated.cells_collapsed@.len());
                        }
                        assert(self.state.counts()[i.base as int] != 0) by {
                            assert(collapsed.state.counts()[i.base as int] == 1);
                        }
                        assert forall|t: int| #[trigger]
                            self.has(i.base as int, t) <==> t == chosen_t.base by {
                            if self.has(i.base as int, t) {
                                assert(collapsed.state.wave.has(i.base as int, t));
                            }
                            if t == chosen_t.base && !self.has(i.base as int, t) {
                                let f = |u: int| self.state.wave.has(i.base as int, u);
                                assert(self.state.counts()[i.base as int] == self.state.popcount(
                                    i.base as int,
                                ));
                                lemma_count_none(f, tc);
                                assert forall|u: int| 0 <= u < tc implies !#[trigger] f(u) by {
                                    if self.state.wave.has(i.base as int, u) {
                                        assert(collapsed.state.wave.has(i.base as int, u));
                                    }
                                }
                            }
                        }
                        assert forall|c: int|
                            0 <= c < n && #[trigger] self@.counts[c]
                                == 0 implies old(self)@.counts[c]
                            == 0 by {
                            assert(collapsed.state.counts()[c] == 0);
                            if c == i.base {
                            } else {
                                assert(taken.state.counts()[c] == 0);
                            }
                        }
                        assert forall|c: int, t: int|
                            0 <= c < n && #[trigger] self.has(c, t) implies old(self).has(c, t) by {
                            assert(collapsed.state.wave.has(c, t));
                            assert(taken.state.wave.has(c, t));
                        }
                        assert(self.inv());
                        assert(self.stepped_from(old(self), i, chosen_t));
                    }
                    IterationResult::STEP
                } else {
                    let ghost failed = *self;
                    proof {
                        failed.lemma_advanced_chain(&collapsed, &taken);
                        if self.propagator.consistent() {
                            let c = choose|c: int|
                                0 <= c < failed.n_cells && #[trigger] failed.state.counts()[c] == 0;
                            assert(failed@.counts[c] == 0);
                            assert forall|k: int|
                                collapsed.state.ban_log@.len()
                                    <= k < failed.state.ban_log@.len() implies (
                            #[trigger] failed.state.ban_log@[k]).0.base < failed.n_cells by {}
                            failed.lemma_forced_chain(&collapsed, &taken, Some((i, chosen_t)));
                            failed.lemma_forced_rebased_on_same_state(&taken, old(self), Some((i, chosen_t)));
                            assert(failed.state.log_records_from(&old(self).state));
                            failed.lemma_contradiction_shows_hopeless(old(self), Some((i, chosen_t)));
                        }
                    }
                    proof {
                        if due && old(self).spec_propagator().consistent() && old(self).supported()
                            && old(self)@.stack.len() == 0 {
                            old(self).lemma_quiet_snapshot_is_arc_consistent(
                                &failed@.history.last(),
                                i,
                                chosen_t,
                            );
                        }
                    }
                    if self.revert() {
                        proof {
                            let s = failed@.history.last();
                            if due {
                                assert(old(self).recorded_in(&s, i, chosen_t));
                                assert forall|c: int, t: int| 0 <= c < n implies (
                                #[trigger] self.has(c, t) <==> old(self).has(c, t) && !(c == i.base
                                    && t == chosen_t.base)) by {
                                    assert(self.has(c, t) <==> s.has(tc, c, t) && !(c
                                        == s.spec_target().base && t == s.spec_tried().base));
                                }
                            }
                        }
                        IterationResult::REVERT
                    } else {
                        proof {
                            if self.propagator.consistent() {
                                self.lemma_forced_same_log(
                                    &failed,
                                    old(self),
                                    Some((i, chosen_t)),
                                );
                            }
                            assert forall|c: int, t: int|
                                0 <= c < n && #[trigger] self.has(c, t) implies old(self).has(
                                c,
                                t,
                            ) by {
                                assert(failed.state.wave.has(c, t));
                                assert(taken.state.wave.has(c, t));
                            }
                            let c = choose|c: int|
                                0 <= c < failed.n_cells && #[trigger] failed.state.counts()[c] == 0;
                            assert(self@.counts[c] == 0);
                        }
                        IterationResult::FAIL
                    }
                }
            },
        }
    }

    /// Runs one iteration without taking a snapshot. `target` is the cell
    /// that the observation chose (see [`WFCModel::find_observe_target`]),
    /// `chosen_t` the candidate drawn for it; see
    /// [`WFCModel::iteration_outcome`] for what each result means.
    pub fn single_iteration(&mut self, target: Option<CellIndex>, chosen_t: PatternIndex) -> (r:
        IterationResult)
        requires
            old(self).wf(),
            target matches Some(i)
                ==> i.base < old(self).spec_n_cells() && (old(self)@.counts[i.base as int]
                != 0 ==> old(self).has(i.base as int, chosen_t.base as int)),
        ensures
            final(self).wf(),
            final(self).same_setup(old(self)),
            final(self).iteration_outcome(old(self), target, chosen_t, false, r),
            r == IterationResult::STEP ==> final(self).filled() >= old(self).filled(),
            r == IterationResult::REVERT ==> final(self).filled() <= old(self).filled(),
            r == IterationResult::STEP && old(self).supported() ==> final(self).supported(),
            r == IterationResult::SUCCESS && old(self).supported() ==> final(self).supported(),
            r == IterationResult::REVERT && old(self).revert_is_sound(target, false)
                ==> final(self).supported(),
    {
        self.iterate(target, chosen_t, false)
    }

    /// Runs one iteration, taking a snapshot before the collapse where one
    /// is due. `target` is the cell that the observation chose (see
    /// [`WFCModel::find_observe_target`]), `chosen_t` the candidate drawn
    /// for it; see [`WFCModel::iteration_outcome`] for what each result
    /// means.
    pub fn single_iteration_with_snapshots(
        &mut self,
        target: Option<CellIndex>,
        chosen_t: PatternIndex,
    ) -> (r: IterationResult)
        requires
            old(self).wf(),
            target matches Some(i)
                ==> i.base < old(self).spec_n_cells() && (old(self)@.counts[i.base as int]
                != 0 ==> old(self).has(i.base as int, chosen_t.base as int)),
        ensures
            final(self).wf(),
            final(self).same_setup(old(self)),
            final(self).iteration_outcome(old(self), target, chosen_t, true, r),
            r == IterationResult::STEP ==> final(self).filled() >= old(self).filled(),
            r == IterationResult::REVERT ==> final(self).filled() <= old(self).filled(),
            r == IterationResult::STEP && old(self).supported() ==> final(self).supported(),
            r == IterationResult::SUCCESS && old(self).supported() ==> final(self).supported(),
            r == IterationResult::REVERT && old(self).revert_is_sound(target, true)
                ==> final(self).supported(),
    {
        self.iterate(target, chosen_t, true)
    }
}

} // verus!
