//! When a ban is forced by the rules, and what follows where every logged
//! ban was forced.

use crate::direction::Direction;
use crate::propagator::Propagator;
use crate::support::Grid;
use crate::wave::Wave;
use crate::wfc_model::{ban_of, logged_after, Ban, WFCModel, WFCState};
use vstd::prelude::*;

verus! {

/// Whether `b` stands in `log` at a position from `from` up to, but not at, `to`.
pub open spec fn logged_between(log: Seq<Ban>, from: int, to: int, b: Ban) -> bool {
    exists|m: int| from <= m < to && #[trigger] log[m] == b
}

/// Whether `t` was a candidate of cell `i` just before the ban at position
/// `k` of the log was made: it is a candidate in `wave`, and no ban from
/// position `from` up to `k` took it away.
pub open spec fn present_before(
    wave: Wave,
    log: Seq<Ban>,
    from: int,
    k: int,
    i: int,
    t: int,
) -> bool {
    wave.has(i, t) && !logged_between(log, from, k, ban_of(i, t))
}

/// Whether side `e` forces the ban at position `k` of the log: the cell of
/// the ban has a neighbour on that side, and just before the ban that
/// neighbour held no candidate that may stand next to the banned pattern.
pub open spec fn forced_from(
    grid: Grid,
    propagator: Propagator,
    wave: Wave,
    log: Seq<Ban>,
    from: int,
    k: int,
    e: Direction,
) -> bool {
    &&& grid.neighbor(log[k].0.base as int, e) is Some
    &&& forall|t: int|
        0 <= t < propagator.spec_t_count() && #[trigger] propagator.allows(
            log[k].1.base as int,
            e,
            t,
        ) ==> !present_before(
            wave,
            log,
            from,
            k,
            grid.neighbor(log[k].0.base as int, e).unwrap(),
            t,
        )
}

/// Whether the ban at position `k` of the log was forced by the rules.
pub open spec fn forced(
    grid: Grid,
    propagator: Propagator,
    wave: Wave,
    log: Seq<Ban>,
    from: int,
    k: int,
) -> bool {
    exists|e: Direction| #[trigger] forced_from(grid, propagator, wave, log, from, k, e)
}

/// Whether a ban is forced depends on the log only up to the ban.
pub proof fn lemma_forced_prefix(
    grid: Grid,
    propagator: Propagator,
    wave: Wave,
    log1: Seq<Ban>,
    log2: Seq<Ban>,
    from: int,
    k: int,
)
    requires
        0 <= from <= k < log1.len(),
        k < log2.len(),
        forall|m: int| 0 <= m <= k ==> log1[m] == log2[m],
        forced(grid, propagator, wave, log1, from, k),
    ensures
        forced(grid, propagator, wave, log2, from, k),
{
    let e = choose|e: Direction| #[trigger] forced_from(grid, propagator, wave, log1, from, k, e);
    let i = grid.neighbor(log1[k].0.base as int, e).unwrap();
    assert forall|t: int|
        0 <= t < propagator.spec_t_count() && #[trigger] propagator.allows(
            log2[k].1.base as int,
            e,
            t,
        ) implies !present_before(wave, log2, from, k, i, t) by {
        assert(!present_before(wave, log1, from, k, i, t));
        if logged_between(log1, from, k, ban_of(i, t)) {
            let m = choose|m: int| from <= m < k && #[trigger] log1[m] == ban_of(i, t);
            assert(log2[m] == ban_of(i, t));
        }
    }
    assert(forced_from(grid, propagator, wave, log2, from, k, e));
}

/// A ban that is forced when the log is read from a later state of the
/// wave is forced when it is read from an earlier one, where the log
/// records what leads from the earlier to the later.
pub proof fn lemma_forced_rebase(
    grid: Grid,
    propagator: Propagator,
    early: &WFCState,
    late: &WFCState,
    log: Seq<Ban>,
    k: int,
)
    requires
        0 < grid.width,
        0 < grid.height,
        late.n_cells() == grid.n_cells(),
        late.log_records_from(early),
        late.ban_log@.len() <= k < log.len(),
        late.ban_log@.is_prefix_of(log),
        0 <= log[k].0.base < grid.n_cells(),
        forced(grid, propagator, late.wave, log, late.ban_log@.len() as int, k),
    ensures
        forced(grid, propagator, early.wave, log, early.ban_log@.len() as int, k),
{
    let from1 = early.ban_log@.len() as int;
    let from2 = late.ban_log@.len() as int;
    let e = choose|e: Direction| #[trigger]
        forced_from(grid, propagator, late.wave, log, from2, k, e);
    let i = grid.neighbor(log[k].0.base as int, e).unwrap();
    crate::grid::lemma_neighbor_in_range(
        grid.width,
        grid.height,
        grid.periodic,
        log[k].0.base as int,
        e,
    );
    assert forall|t: int|
        0 <= t < propagator.spec_t_count() && #[trigger] propagator.allows(
            log[k].1.base as int,
            e,
            t,
        ) implies !present_before(early.wave, log, from1, k, i, t) by {
        assert(!present_before(late.wave, log, from2, k, i, t));
        if early.wave.has(i, t) && !logged_between(log, from1, k, ban_of(i, t)) {
            if !late.wave.has(i, t) {
                assert(logged_after(late.ban_log@, from1, ban_of(i, t)));
                let m = choose|m: int|
                    from1 <= m < late.ban_log@.len() && #[trigger] late.ban_log@[m] == ban_of(i, t);
                assert(late.ban_log@ =~= log.subrange(0, from2));
                assert(log[m] == ban_of(i, t));
            } else {
                let m = choose|m: int| from2 <= m < k && #[trigger] log[m] == ban_of(i, t);
                assert(from1 <= m < k);
            }
        }
    }
    assert(forced_from(grid, propagator, early.wave, log, from1, k, e));
}

impl WFCModel {
    /// Whether side `e` dooms pattern `t2` of cell `j`: the cell has a
    /// neighbour on that side, and the neighbour holds no live pattern that
    /// may stand next to `t2`.
    pub open(crate) spec fn doomed_from(&self, j: int, t2: int, e: Direction) -> bool {
        &&& self.grid().neighbor(j, e) is Some
        &&& forall|t: int|
            0 <= t < self.t_count && #[trigger] self.propagator.allows(t2, e, t)
                ==> !self.state.live(self.grid().neighbor(j, e).unwrap(), t)
    }

    /// Whether some side dooms pattern `t2` of cell `j`.
    pub open(crate) spec fn doomed(&self, j: int, t2: int) -> bool {
        exists|e: Direction| #[trigger] self.doomed_from(j, t2, e)
    }

    /// Every ban that waits in the queue is of a doomed pattern.
    pub open(crate) spec fn queue_doomed(&self) -> bool {
        forall|k: int|
            0 <= k < self.to_ban_queue@.len() ==> self.doomed(
                (#[trigger] self.to_ban_queue@[k]).0.base as int,
                self.to_ban_queue@[k].1.base as int,
            )
    }

    /// Whether the ban at position `k` of the log is accounted for: it was
    /// forced by the rules, read from the wave of `old`, or it took from the
    /// cell of `choice` a pattern other than the chosen one.
    pub open spec fn ban_accounted(&self, old: &WFCModel, choice: Option<Ban>, k: int) -> bool {
        forced(
            self.grid(),
            self.spec_propagator(),
            old.spec_state().wave,
            self@.ban_log,
            old@.ban_log.len() as int,
            k,
        ) || (choice matches Some(c) && self@.ban_log[k].0 == c.0 && self@.ban_log[k].1 != c.1)
    }

    /// Whether every ban that was logged since `old` was forced by the
    /// rules, but for the bans that took from the cell of `choice` a
    /// pattern other than the chosen one.
    pub open spec fn bans_forced_since(&self, old: &WFCModel, choice: Option<Ban>) -> bool {
        forall|k: int|
            old@.ban_log.len() <= k < self@.ban_log.len() ==> #[trigger] self.ban_accounted(
                old,
                choice,
                k,
            )
    }
}

} // verus!
