//! What holds of every well-formed solver, stated for its users.

use crate::bits::{
    count_true, lemma_count_bounds, lemma_count_ext, lemma_count_single, lemma_count_witness,
    words_for,
};
use crate::cell::CellIndex;
use crate::direction::Direction;
use crate::forcing::{forced, forced_from, present_before};
use crate::grid::lemma_neighbor_in_range;
use crate::pattern_collection::PatternIndex;
use crate::snapshots::snapshot_support;
use crate::wave::raw_bit;
use crate::wfc_model::{ban_of, logged_after, Ban, WFCModel, WaveSnapshot};
use vstd::prelude::*;

verus! {

impl WFCModel {
    /// The count that the tracker holds for a cell is the number of
    /// candidates that the wave holds for it.
    pub proof fn lemma_count_is_popcount(&self, i: int)
        requires
            self.wf(),
            0 <= i < self.spec_n_cells(),
        ensures
            self@.counts[i] == count_true(|t: int| self.has(i, t), self.spec_t_count()),
            0 <= self@.counts[i] <= self.spec_t_count(),
    {
        assert(self.state.counts()[i] == self.state.popcount(i));
        lemma_count_bounds(|t: int| self.state.wave.has(i, t), self.spec_t_count());
        lemma_count_ext(
            |t: int| self.state.wave.has(i, t),
            |t: int| self.has(i, t),
            self.spec_t_count(),
        );
    }

    /// No bit beyond the vocabulary is set in the words of a cell.
    pub proof fn lemma_padding_is_clear(&self, i: int, p: int)
        requires
            self.wf(),
            0 <= i < self.spec_n_cells(),
            self.spec_t_count() <= p < words_for(self.spec_t_count()) * 64,
        ensures
            !raw_bit(self@.wave, self.spec_t_count(), i, p),
    {
    }

    /// A cell that has an observed pattern, and has not lost all its
    /// candidates, has that pattern as its one candidate.
    pub proof fn lemma_observed_is_sole_candidate(&self, i: int)
        requires
            self.wf(),
            0 <= i < self.spec_n_cells(),
            self@.observed[i] != -1,
            self@.counts[i] != 0,
        ensures
            self@.counts[i] == 1,
            forall|t: int| #[trigger] self.has(i, t) <==> t == self@.observed[i],
    {
        self.lemma_count_is_popcount(i);
        let o = self.state.observed_view()[i];
        assert(-1 <= o < self.spec_t_count());
        assert(self.state.counts()[i] == 1);
        assert(self.state.wave.has(i, o as int));
        let f = |t: int| self.state.wave.has(i, t);
        lemma_count_single(f, self.spec_t_count(), o as int);
        assert forall|t: int| #[trigger] self.has(i, t) <==> t == o by {
            if self.has(i, t) && t != o {
                assert(0 <= t < self.spec_t_count());
                assert(!f(t));
            }
        }
    }

    /// The observed pattern of a cell with one candidate is that candidate,
    /// and a cell with several candidates has no observed pattern.
    pub proof fn lemma_sole_candidate_is_observed(&self, i: int)
        requires
            self.wf(),
            0 <= i < self.spec_n_cells(),
        ensures
            self@.counts[i] == 1 ==> self.has(i, self@.observed[i] as int),
            self@.counts[i] > 1 ==> self@.observed[i] == -1,
    {
        assert(-1 <= self.state.observed_view()[i] < self.spec_t_count());
    }

    /// Under consistent rules, the compatibility count of a pattern at a
    /// cell from one side is the number of patterns of the neighbour on
    /// that side that may stand next to it and are candidates or wait on
    /// the stack to be propagated. Where the cell has no neighbour on that
    /// side, the count is the recorded length of the rule.
    pub proof fn lemma_compatible_counts_live(&self, j: int, t2: int, e: Direction)
        requires
            self.wf(),
            self.spec_propagator().consistent(),
            0 <= j < self.spec_n_cells(),
            0 <= t2 < self.spec_t_count(),
        ensures
            self.spec_state().compatible.at(j, t2, e) == match self.grid().neighbor(j, e) {
                Some(i) => count_true(
                    |t: int|
                        (self.has(i, t) || self@.stack.contains(ban_of(i, t)))
                            && self.spec_propagator().allows(t2, e, t),
                    self.spec_t_count(),
                ),
                None => self.spec_propagator().count(t2, e),
            },
    {
        let live = self.live();
        if let Some(i) = self.grid().neighbor(j, e) {
            lemma_count_ext(
                |t: int| live(i, t) && self.propagator.allows(t2, e, t),
                |t: int|
                    (self.has(i, t) || self@.stack.contains(ban_of(i, t)))
                        && self.spec_propagator().allows(t2, e, t),
                self.spec_t_count(),
            );
        }
    }

    /// Under consistent rules and with nothing waiting to be propagated,
    /// the compatibility count of a pattern at a cell from one side is the
    /// number of candidates of the neighbour on that side that may stand
    /// next to it.
    pub proof fn lemma_compatible_is_recount(&self, j: int, t2: int, e: Direction)
        requires
            self.wf(),
            self.spec_propagator().consistent(),
            self@.stack.len() == 0,
            0 <= j < self.spec_n_cells(),
            0 <= t2 < self.spec_t_count(),
        ensures
            self.spec_state().compatible.at(j, t2, e) == match self.grid().neighbor(j, e) {
                Some(i) => count_true(
                    |t: int| self.has(i, t) && self.spec_propagator().allows(t2, e, t),
                    self.spec_t_count(),
                ),
                None => self.spec_propagator().count(t2, e),
            },
    {
        self.lemma_compatible_counts_live(j, t2, e);
        if let Some(i) = self.grid().neighbor(j, e) {
            lemma_count_ext(
                |t: int|
                    (self.has(i, t) || self@.stack.contains(ban_of(i, t)))
                        && self.spec_propagator().allows(t2, e, t),
                |t: int| self.has(i, t) && self.spec_propagator().allows(t2, e, t),
                self.spec_t_count(),
            );
        }
    }

    /// Under consistent rules and with nothing waiting to be propagated, a
    /// supported solver is arc consistent: next to every candidate, on every
    /// side on which its cell has a neighbour, the neighbour has a candidate
    /// that may stand there.
    pub proof fn lemma_supported_is_arc_consistent(&self, j: int, t2: int, e: Direction)
        requires
            self.wf(),
            self.spec_propagator().consistent(),
            self.supported(),
            self@.stack.len() == 0,
            0 <= j < self.spec_n_cells(),
            self.has(j, t2),
            self.grid().neighbor(j, e) is Some,
        ensures
            exists|t: int|
                #[trigger] self.has(self.grid().neighbor(j, e).unwrap(), t)
                    && self.spec_propagator().allows(t2, e, t),
    {
        let i = self.grid().neighbor(j, e).unwrap();
        self.lemma_compatible_is_recount(j, t2, e);
        assert(self.state.compatible.at(j, t2, e) >= 1);
        let f = |t: int| self.has(i, t) && self.spec_propagator().allows(t2, e, t);
        lemma_count_witness(f, self.spec_t_count());
        let t = choose|t: int| 0 <= t < self.spec_t_count() && #[trigger] f(t);
        assert(self.has(i, t) && self.spec_propagator().allows(t2, e, t));
    }

    /// Under consistent rules and with nothing waiting to be propagated, the
    /// observed patterns of two neighbouring cells of a supported solver,
    /// each with one candidate, may stand next to each other.
    pub proof fn lemma_collapsed_neighbours_obey_rules(&self, j: int, e: Direction)
        requires
            self.wf(),
            self.spec_propagator().consistent(),
            self.supported(),
            self@.stack.len() == 0,
            0 <= j < self.spec_n_cells(),
            self.grid().neighbor(j, e) is Some,
            self@.counts[j] == 1,
            self@.counts[self.grid().neighbor(j, e).unwrap()] == 1,
        ensures
            self.spec_propagator().allows(
                self@.observed[j] as int,
                e,
                self@.observed[self.grid().neighbor(j, e).unwrap()] as int,
            ),
    {
        let i = self.grid().neighbor(j, e).unwrap();
        lemma_neighbor_in_range(
            self.grid().width,
            self.grid().height,
            self.grid().periodic,
            j,
            e,
        );
        self.lemma_sole_candidate_is_observed(j);
        self.lemma_sole_candidate_is_observed(i);
        let oj = self@.observed[j] as int;
        let oi = self@.observed[i] as int;
        assert(-1 <= self.state.observed_view()[i] < self.spec_t_count());
        self.lemma_supported_is_arc_consistent(j, oj, e);
        let t = choose|t: int|
            #[trigger] self.has(i, t) && self.spec_propagator().allows(oj, e, t);
        self.lemma_observed_is_sole_candidate(i);
        assert(t == oi);
    }

    /// A snapshot that records a supported solver with consistent rules
    /// and nothing waiting to be propagated is arc consistent.
    pub proof fn lemma_quiet_snapshot_is_arc_consistent(
        &self,
        s: &WaveSnapshot,
        target: CellIndex,
        tried: PatternIndex,
    )
        requires
            self.wf(),
            self.spec_propagator().consistent(),
            self.supported(),
            self@.stack.len() == 0,
            self.recorded_in(s, target, tried),
        ensures
            self.snapshot_arc_consistent(s),
    {
        let tc = self.spec_t_count();
        assert forall|j: int, t2: int, e: Direction|
            0 <= j < self.spec_n_cells() && s.has(tc, j, t2) && self.grid().neighbor(j, e)
                is Some implies #[trigger] snapshot_support(
            s,
            self.spec_propagator(),
            self.grid().neighbor(j, e).unwrap(),
            t2,
            e,
        ) >= 1 by {
            let i = self.grid().neighbor(j, e).unwrap();
            assert(self.has(j, t2));
            self.lemma_compatible_is_recount(j, t2, e);
            assert(self.state.compatible.at(j, t2, e) >= 1);
            lemma_count_ext(
                |t: int| self.has(i, t) && self.spec_propagator().allows(t2, e, t),
                |t: int| s.has(tc, i, t) && self.spec_propagator().allows(t2, e, t),
                tc,
            );
        }
    }

    /// A revert to a snapshot gives back the state that the snapshot
    /// recorded, with the pattern that was tried banned at its target: the
    /// same candidates but for that one, the same uncollapsed cells and the
    /// same progress marker.
    pub proof fn lemma_revert_prunes_recorded(
        &self,
        recorded: &WFCModel,
        s: &WaveSnapshot,
        rest: Seq<WaveSnapshot>,
        target: CellIndex,
        tried: PatternIndex,
    )
        requires
            self.wf(),
            recorded.wf(),
            recorded.recorded_in(s, target, tried),
            self.reverted_to(s, rest),
            self.spec_n_cells() == recorded.spec_n_cells(),
            self.spec_t_count() == recorded.spec_t_count(),
        ensures
            forall|c: int, t: int|
                0 <= c < self.spec_n_cells() ==> (#[trigger] self.has(c, t) <==> recorded.has(c, t)
                    && !(c == target.base && t == tried.base)),
            self@.uncollapsed == recorded@.uncollapsed,
            self@.last_snapshot_progress == recorded@.last_snapshot_progress,
            self@.stack == seq![(target, tried)],
            self.filled() == recorded.filled(),
    {
        assert forall|c: int, t: int| 0 <= c < self.spec_n_cells() implies
        (#[trigger] self.has(c, t)
            <==> recorded.has(c, t) && !(c == target.base && t == tried.base)) by {
            assert(s.has(self.spec_t_count(), c, t) <==> recorded.has(c, t));
        }
    }
}

impl WFCModel {
    /// Whether, in the assignment `a` of patterns to cells, pattern `t2` of
    /// cell `j` has a partner on side `e`: a pattern of the neighbour on
    /// that side that may stand next to it.
    pub open spec fn partner_in(
        &self,
        a: spec_fn(int, int) -> bool, j: int, t2: int, e: Direction,
    ) -> bool {
        exists|t: int|
            0 <= t < self.spec_t_count() && #[trigger] a(self.grid().neighbor(j, e).unwrap(), t)
                && self.spec_propagator().allows(t2, e, t)
    }

    /// Whether the assignment `a` of patterns to cells is arc consistent:
    /// every pattern of every cell has a partner on every side on which the
    /// cell has a neighbour.
    pub open spec fn arc_consistent(&self, a: spec_fn(int, int) -> bool) -> bool {
        forall|j: int, t2: int, e: Direction|
            0 <= j < self.spec_n_cells() && a(j, t2) && self.grid().neighbor(j, e) is Some
                ==> #[trigger] self.partner_in(a, j, t2, e)
    }

    /// Under consistent rules and with nothing waiting to be propagated,
    /// the wave of a supported solver is itself an arc consistent
    /// assignment. With [`WFCModel::lemma_forced_bans_are_sound`] this makes
    /// the wave after a step the largest arc consistent assignment within
    /// the wave before it that keeps to the choice.
    pub proof fn lemma_wave_is_arc_consistent(&self)
        requires
            self.wf(),
            self.spec_propagator().consistent(),
            self.supported(),
            self@.stack.len() == 0,
        ensures
            self.arc_consistent(|c: int, u: int| self.has(c, u)),
    {
        let a = |c: int, u: int| self.has(c, u);
        assert forall|j: int, t2: int, e: Direction|
            0 <= j < self.spec_n_cells() && a(j, t2) && self.grid().neighbor(j, e)
                is Some implies #[trigger] self.partner_in(a, j, t2, e) by {
            self.lemma_supported_is_arc_consistent(j, t2, e);
            let i = self.grid().neighbor(j, e).unwrap();
            let t = choose|t: int|
                #[trigger] self.has(i, t) && self.spec_propagator().allows(t2, e, t);
            assert(0 <= t < self.spec_t_count() && a(i, t));
        }
    }

    /// Whether the assignment `a` is a way to go on from this state: it is
    /// arc consistent, holds no pattern that is not a candidate, and holds
    /// at the cell of `choice` no pattern but the chosen one.
    pub open spec fn fits_within(&self, a: spec_fn(int, int) -> bool, choice: Option<Ban>) -> bool {
        &&& self.arc_consistent(a)
        &&& forall|c: int, u: int|
            0 <= c < self.spec_n_cells() && #[trigger] a(c, u) ==> self.has(c, u)
        &&& choice matches Some(b) ==> forall|u: int|
            #[trigger] a(b.0.base as int, u) ==> u == b.1.base
    }

    /// Whether the assignment `a` holds no pattern at cell `c`.
    pub open spec fn empty_at(&self, a: spec_fn(int, int) -> bool, c: int) -> bool {
        forall|u: int| !#[trigger] a(c, u)
    }

    /// Whether the assignment `a` leaves some cell of the grid without a pattern.
    pub open spec fn leaves_cell_empty(&self, a: spec_fn(int, int) -> bool) -> bool {
        exists|c: int| 0 <= c < self.spec_n_cells() && #[trigger] self.empty_at(a, c)
    }

    /// Whether this state is hopeless under `choice`: every arc consistent
    /// assignment within its wave that keeps to the choice leaves a cell
    /// empty, so that no filling of the grid obeys the rules.
    pub open spec fn hopeless(&self, choice: Option<Ban>) -> bool {
        forall|a: spec_fn(int, int) -> bool| #[trigger]
            self.fits_within(a, choice) ==> self.leaves_cell_empty(a)
    }

    /// No ban among the first `k` of the log is of a pattern of `a`, where
    /// the bans since `old` were forced but for those of a choice, and `a`
    /// is an arc consistent part of the wave of `old` that holds at the
    /// cell of the choice no pattern but the chosen one.
    proof fn lemma_unlogged(
        &self,
        old: &WFCModel,
        choice: Option<Ban>,
        a: spec_fn(int, int) -> bool, k: int,
    )
        requires
            self.wf(),
            old.wf(),
            self.same_setup(old),
            self.spec_state().log_records_from(&old.spec_state()),
            self.bans_forced_since(old, choice),
            self.arc_consistent(a),
            forall|c: int, u: int| 0 <= c < self.spec_n_cells() && #[trigger] a(c, u)
                ==> old.has(c, u),
            choice matches Some(b) ==> forall|u: int| #[trigger] a(b.0.base as int, u)
                ==> u == b.1.base,
            old@.ban_log.len() <= k <= self@.ban_log.len(),
        ensures
            forall|m: int|
                old@.ban_log.len() <= m < k ==> !a(
                    (#[trigger] self@.ban_log[m]).0.base as int,
                    self@.ban_log[m].1.base as int,
                ),
        decreases k,
    {
        let from = old@.ban_log.len() as int;
        let log = self@.ban_log;
        if k > from {
            self.lemma_unlogged(old, choice, a, k - 1);
            let m = k - 1;
            let j = log[m].0.base as int;
            let t2 = log[m].1.base as int;
            assert(self.state.ban_log@[m].0.base < self.state.n_cells());
            if a(j, t2) {
                assert(self.ban_accounted(old, choice, m));
                if forced(self.grid(), self.propagator, old.state.wave, log, from, m) {
                    let e = choose|e: Direction| #[trigger]
                        forced_from(self.grid(), self.propagator, old.state.wave, log, from, m, e);
                    let i = self.grid().neighbor(j, e).unwrap();
                    lemma_neighbor_in_range(
                        self.grid().width,
                        self.grid().height,
                        self.grid().periodic,
                        j,
                        e,
                    );
                    assert(self.partner_in(a, j, t2, e));
                    let t = choose|t: int|
                        0 <= t < self.spec_t_count() && #[trigger] a(i, t)
                            && self.spec_propagator().allows(t2, e, t);
                    assert(old.has(i, t));
                    assert(self.propagator.allows(log[m].1.base as int, e, t));
                    assert(!present_before(old.state.wave, log, from, m, i, t));
                    let m2 = choose|m2: int| from <= m2 < m && #[trigger] log[m2] == ban_of(i, t);
                    assert(!a(log[m2].0.base as int, log[m2].1.base as int));
                } else {
                    let b = choice.unwrap();
                    assert(log[m].0 == b.0 && log[m].1 != b.1);
                    assert(a(b.0.base as int, t2));
                }
            }
        }
    }

    /// Forced bans are sound. Where this state has come from `old` by bans
    /// that the rules forced, but for the bans that collapsed a cell to a
    /// chosen pattern, every arc consistent assignment that lies within the
    /// wave of `old` and keeps to the choice lies within this wave: no ban
    /// took away a pattern that a consistent filling of the grid could use.
    pub proof fn lemma_forced_bans_are_sound(
        &self,
        old: &WFCModel,
        choice: Option<Ban>,
        a: spec_fn(int, int) -> bool,
    )
        requires
            self.wf(),
            old.wf(),
            self.same_setup(old),
            self.spec_state().log_records_from(&old.spec_state()),
            self.bans_forced_since(old, choice),
            self.arc_consistent(a),
            forall|c: int, u: int| 0 <= c < self.spec_n_cells() && #[trigger] a(c, u)
                ==> old.has(c, u),
            choice matches Some(b) ==> forall|u: int| #[trigger] a(b.0.base as int, u)
                ==> u == b.1.base,
        ensures
            forall|c: int, u: int| 0 <= c < self.spec_n_cells() && #[trigger] a(c, u)
                ==> self.has(c, u),
    {
        let from = old@.ban_log.len() as int;
        let log = self@.ban_log;
        self.lemma_unlogged(old, choice, a, log.len() as int);
        assert forall|c: int, u: int| 0 <= c < self.spec_n_cells() && #[trigger] a(c, u) implies
        self.has(
            c,
            u,
        ) by {
            assert(old.has(c, u));
            if !self.has(c, u) {
                assert(old.state.wave.has(c, u));
                assert(logged_after(log, from, ban_of(c, u)));
                let m = choose|m: int| from <= m < log.len() && #[trigger] log[m] == ban_of(c, u);
                assert(!a(log[m].0.base as int, log[m].1.base as int));
            }
        }
    }

    /// A contradiction that forced bans lead to is a true one: where a cell
    /// of this state has no candidate, every arc consistent assignment
    /// within the wave of `old` that keeps to the choice leaves that cell
    /// empty too.
    pub proof fn lemma_contradiction_is_sound(
        &self,
        old: &WFCModel,
        choice: Option<Ban>,
        a: spec_fn(int, int) -> bool,
        c: int,
    )
        requires
            self.wf(),
            old.wf(),
            self.same_setup(old),
            self.spec_state().log_records_from(&old.spec_state()),
            self.bans_forced_since(old, choice),
            self.arc_consistent(a),
            forall|c: int, u: int| 0 <= c < self.spec_n_cells() && #[trigger] a(c, u)
                ==> old.has(c, u),
            choice matches Some(b) ==> forall|u: int| #[trigger] a(b.0.base as int, u)
                ==> u == b.1.base,
            0 <= c < self.spec_n_cells(),
            self@.counts[c] == 0,
        ensures
            forall|u: int| !#[trigger] a(c, u),
    {
        self.lemma_forced_bans_are_sound(old, choice, a);
        self.lemma_count_is_popcount(c);
        crate::bits::lemma_count_none(|t: int| self.has(c, t), self.spec_t_count());
        assert forall|u: int| !#[trigger] a(c, u) by {
            if a(c, u) {
                assert(self.has(c, u));
                let f = |t: int| self.has(c, t);
                assert(0 <= u < self.spec_t_count());
                assert(!f(u));
            }
        }
    }

    /// A contradiction that forced bans lead to shows that the state they
    /// started from was hopeless under the choice.
    pub proof fn lemma_contradiction_shows_hopeless(&self, old: &WFCModel, choice: Option<Ban>)
        requires
            self.wf(),
            old.wf(),
            self.same_setup(old),
            self.spec_state().log_records_from(&old.spec_state()),
            self.bans_forced_since(old, choice),
            exists|c: int| 0 <= c < self.spec_n_cells() && #[trigger] self@.counts[c] == 0,
        ensures
            old.hopeless(choice),
    {
        let c = choose|c: int| 0 <= c < self.spec_n_cells() && #[trigger] self@.counts[c] == 0;
        assert forall|a: spec_fn(int, int) -> bool| #[trigger]
            old.fits_within(a, choice) implies old.leaves_cell_empty(a) by {
            assert(self.arc_consistent(a)) by {
                assert forall|j: int, t2: int, e: Direction|
                    0 <= j < self.spec_n_cells() && a(j, t2) && self.grid().neighbor(j, e)
                        is Some implies #[trigger] self.partner_in(a, j, t2, e) by {
                    assert(old.partner_in(a, j, t2, e));
                }
            }
            self.lemma_contradiction_is_sound(old, choice, a, c);
            assert(old.empty_at(a, c));
        }
    }
}

} // verus!
