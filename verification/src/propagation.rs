//! Collapse of a cell and propagation of bans through the compatibility counts.

use crate::cell::CellIndex;
use crate::compatible::{
    flat_index, lemma_flat_index_distinct, lemma_flat_index_parts, Compatible,
};
use crate::direction::{lemma_opposite_involutive, Direction};
use crate::forcing::{
    forced, forced_from, lemma_forced_prefix, lemma_forced_rebase, logged_between, present_before,
};
use crate::grid::lemma_neighbor_in_range;
use crate::pattern_bitset::{lemma_patterns_members, patterns_in};
use crate::pattern_collection::PatternIndex;
use crate::propagator::Propagator;
use crate::support::{
    counts_match, counts_match_partial, hit, lemma_counts_match_ext, lemma_support_remove,
    lowered, support, without, Grid,
};
use crate::wfc_model::{ban_of, cell_of, logged_after, Ban, WFCModel};
use vstd::prelude::*;

verus! {

impl WFCModel {
    /// Everything but the compatibility counts and the ban queue is as in `old`.
    pub open(crate) spec fn same_but_counts_and_queue(&self, old: &WFCModel) -> bool {
        &&& self.same_setup(old)
        &&& self.cells_collapsed == old.cells_collapsed
        &&& self.history == old.history
        &&& self.generation_complete == old.generation_complete
        &&& self.last_snapshot_progress == old.last_snapshot_progress
        &&& self.state.wave == old.state.wave
        &&& self.state.entropy_tracker == old.state.entropy_tracker
        &&& self.state.observed == old.state.observed
        &&& self.state.dirty_cells == old.state.dirty_cells
        &&& self.state.stack == old.state.stack
        &&& self.state.ban_log == old.state.ban_log
        &&& self.state.compatible.wf()
        &&& self.state.compatible.spec_n_cells() == old.state.compatible.spec_n_cells()
        &&& self.state.compatible.spec_t_count() == old.state.compatible.spec_t_count()
    }

    /// Where one count is lowered while the ban of `t` at `i` is being
    /// propagated, the counts stay in line with the supports: the lowered
    /// count joins those that have been lowered, and it is the support of
    /// its pattern once the banned pattern is no longer live.
    pub(crate) proof fn lemma_count_lowered(
        grid: Grid,
        prop: Propagator,
        live: spec_fn(int, int) -> bool,
        i: int,
        t: int,
        d: Direction,
        done: Seq<PatternIndex>,
        t2: PatternIndex,
        j0: int,
        before: Compatible,
        after: Compatible,
    )
        requires
            0 < grid.width,
            0 < grid.height,
            prop.consistent(),
            before.wf(),
            after.wf(),
            before.spec_n_cells() == grid.n_cells(),
            before.spec_t_count() == prop.spec_t_count(),
            after.spec_n_cells() == grid.n_cells(),
            after.spec_t_count() == prop.spec_t_count(),
            0 <= i < grid.n_cells(),
            0 <= t < prop.spec_t_count(),
            0 <= j0 < grid.n_cells(),
            t2.base < prop.spec_t_count(),
            live(i, t),
            grid.neighbor(i, d) == Some(j0),
            prop.allows(t, d, t2.base as int),
            !done.contains(t2),
            counts_match_partial(before, prop, grid, live, i, t, d.spec_index(), done),
            after@ == before@.update(
                flat_index(
                    grid.n_cells(),
                    prop.spec_t_count(),
                    j0,
                    t2.base as int,
                    d.spec_opposite(),
                ),
                (if before.at(j0, t2.base as int, d.spec_opposite()) > 0 {
                    before.at(j0, t2.base as int, d.spec_opposite()) - 1
                } else {
                    0
                }) as u16,
            ),
        ensures
            counts_match_partial(after, prop, grid, live, i, t, d.spec_index(), done.push(t2)),
            grid.neighbor(j0, d.spec_opposite()) == Some(i),
            after.at(j0, t2.base as int, d.spec_opposite()) == support(
                without(live, i, t),
                prop,
                Some(i),
                t2.base as int,
                d.spec_opposite(),
            ),
    {
        let n = grid.n_cells();
        let tc = prop.spec_t_count();
        let k = d.spec_index();
        let opp = d.spec_opposite();
        let u0 = t2.base as int;
        let done2 = done.push(t2);
        lemma_opposite_involutive(d);
        crate::grid::lemma_neighbor_inverse(grid.width, grid.height, grid.periodic, i, d);
        assert(t2 == PatternIndex { base: u0 as usize });
        assert(hit(grid, prop, i, t, j0, u0, opp));
        assert(!lowered(k, done, u0, opp));
        lemma_support_remove(live, prop, grid, i, t, j0, u0, opp);
        lemma_flat_index_parts(n, tc, j0, u0, opp);
        assert(before.at(j0, u0, opp) == support(live, prop, grid.neighbor(j0, opp), u0, opp));
        assert(done2[done.len() as int] == t2);
        assert forall|j: int, u: int, e: Direction| 0 <= j < n && 0 <= u < tc implies
        #[trigger] after.at(
            j,
            u,
            e,
        ) == support(live, prop, grid.neighbor(j, e), u, e) - if hit(grid, prop, i, t, j, u, e)
            && lowered(k, done2, u, e) {
            1int
        } else {
            0int
        } by {
            lemma_flat_index_parts(n, tc, j, u, e);
            assert(before.at(j, u, e) == support(live, prop, grid.neighbor(j, e), u, e) - if hit(
                grid,
                prop,
                i,
                t,
                j,
                u,
                e,
            ) && lowered(k, done, u, e) {
                1int
            } else {
                0int
            });
            if j == j0 && u == u0 && e == opp {
                assert(lowered(k, done2, u, e));
            } else {
                if flat_index(n, tc, j, u, e) == flat_index(n, tc, j0, u0, opp) {
                    lemma_flat_index_distinct(n, tc, j, u, e, j0, u0, opp);
                }
                assert(after.at(j, u, e) == before.at(j, u, e));
                let pu = PatternIndex { base: u as usize };
                if hit(grid, prop, i, t, j, u, e) {
                    if done2.contains(pu) && !done.contains(pu) {
                        let a = choose|a: int| 0 <= a < done2.len() && done2[a] == pu;
                        if a < done.len() {
                            assert(done[a] == pu);
                        }
                        assert(pu == t2);
                        assert(u == u0);
                    }
                    if done.contains(pu) {
                        let a = choose|a: int| 0 <= a < done.len() && done[a] == pu;
                        assert(done2[a] == pu);
                    }
                    if e.spec_opposite().spec_index() == k {
                        assert(e.spec_opposite() == d);
                        lemma_opposite_involutive(e);
                        assert(e == opp);
                        assert(j == j0);
                    }
                }
            }
        }
    }

    /// Where every count of one side has been lowered, the counts are as
    /// they are before the next side is begun.
    pub(crate) proof fn lemma_side_done(
        grid: Grid,
        prop: Propagator,
        live: spec_fn(int, int) -> bool,
        i: int,
        t: int,
        d: Direction,
        done: Seq<PatternIndex>,
        counts: Compatible,
    )
        requires
            counts_match_partial(counts, prop, grid, live, i, t, d.spec_index(), done),
            grid.neighbor(i, d) is Some ==> forall|u: int|
                0 <= u < prop.spec_t_count() && #[trigger] prop.allows(t, d, u) ==> done.contains(
                    PatternIndex { base: u as usize },
                ),
        ensures
            counts_match_partial(
                counts,
                prop,
                grid,
                live,
                i,
                t,
                d.spec_index() + 1,
                Seq::<PatternIndex>::empty(),
            ),
    {
        let k = d.spec_index();
        assert forall|j: int, u: int, e: Direction|
            0 <= j < grid.n_cells() && 0 <= u < prop.spec_t_count() implies #[trigger] counts.at(
            j,
            u,
            e,
        ) == support(live, prop, grid.neighbor(j, e), u, e) - if hit(grid, prop, i, t, j, u, e)
            && lowered(k + 1, Seq::<PatternIndex>::empty(), u, e) {
            1int
        } else {
            0int
        } by {
            assert(counts.at(j, u, e) == support(live, prop, grid.neighbor(j, e), u, e) - if hit(
                grid,
                prop,
                i,
                t,
                j,
                u,
                e,
            ) && lowered(k, done, u, e) {
                1int
            } else {
                0int
            });
            if hit(grid, prop, i, t, j, u, e) && e.spec_opposite().spec_index() == k {
                assert(e.spec_opposite() == d);
                assert(prop.allows(t, d, u));
            }
        }
    }

    /// Lowering one count keeps the candidates supported, where a candidate
    /// whose count became zero was put in the ban queue.
    pub(crate) proof fn lemma_supported_after_lowering(
        &self,
        prior: &WFCModel,
        j0: int,
        u0: int,
        opp: Direction,
        new_count: u16,
    )
        requires
            prior.dims_ok(),
            prior.state.sizes_ok(),
            prior.supported(),
            self.same_but_counts_and_queue(prior),
            0 <= j0 < prior.n_cells,
            0 <= u0 < prior.t_count,
            self.state.compatible@ == prior.state.compatible@.update(
                flat_index(prior.n_cells as int, prior.t_count as int, j0, u0, opp),
                new_count,
            ),
            self.to_ban_queue@ == if new_count == 0 && prior.state.wave.has(j0, u0) {
                prior.to_ban_queue@.push(ban_of(j0, u0))
            } else {
                prior.to_ban_queue@
            },
        ensures
            self.supported(),
    {
        let n = prior.n_cells as int;
        let tc = prior.t_count as int;
        let before = prior.state.compatible;
        let after = self.state.compatible;
        let queue = self.to_ban_queue@;
        let queue0 = prior.to_ban_queue@;
        assert forall|j: int, u: int, e: Direction|
            0 <= j < self.n_cells && self.state.wave.has(j, u) && self.grid().neighbor(j, e)
                is Some implies #[trigger] after.at(j, u, e) >= 1 || queue.contains(ban_of(j, u)) by {
            lemma_flat_index_parts(n, tc, j, u, e);
            lemma_flat_index_parts(n, tc, j0, u0, opp);
            if j == j0 && u == u0 && e == opp {
                if new_count == 0 {
                    assert(queue[queue.len() - 1] == ban_of(j, u));
                }
            } else {
                if flat_index(n, tc, j, u, e) == flat_index(n, tc, j0, u0, opp) {
                    lemma_flat_index_distinct(n, tc, j, u, e, j0, u0, opp);
                }
                assert(after.at(j, u, e) == before.at(j, u, e));
                assert(before.at(j, u, e) >= 1 || queue0.contains(ban_of(j, u)));
                if queue0.contains(ban_of(j, u)) {
                    let q = choose|q: int| 0 <= q < queue0.len() && queue0[q] == ban_of(j, u);
                    assert(queue[q] == ban_of(j, u));
                }
            }
        }
    }

    /// Lowering one count keeps the ban queue to doomed patterns, where a
    /// pattern is put in the queue only when its count has become zero.
    pub(crate) proof fn lemma_doomed_after_lowering(
        &self,
        prior: &WFCModel,
        live: spec_fn(int, int) -> bool,
        i: int,
        t: int,
        j0: int,
        u0: int,
        opp: Direction,
    )
        requires
            prior.dims_ok(),
            prior.queue_doomed(),
            self.same_but_counts_and_queue(prior),
            0 <= i < prior.n_cells,
            0 <= j0 < prior.n_cells,
            0 <= u0 < prior.t_count,
            self.grid().neighbor(j0, opp) == Some(i),
            forall|c: int, u: int|
                0 <= c < prior.n_cells && 0 <= u < prior.t_count ==> (#[trigger] live(c, u) && !(c
                    == i && u == t)) == prior.state.live(c, u),
            self.to_ban_queue@ == prior.to_ban_queue@ || (self.to_ban_queue@
                == prior.to_ban_queue@.push(ban_of(j0, u0)) && support(
                without(live, i, t),
                prior.propagator,
                Some(i),
                u0,
                opp,
            ) == 0),
        ensures
            self.queue_doomed(),
    {
        let queue = self.to_ban_queue@;
        let queue0 = prior.to_ban_queue@;
        let tc = prior.t_count as int;
        let prop = prior.propagator;
        assert forall|q: int| 0 <= q < queue.len() implies self.doomed(
            (#[trigger] queue[q]).0.base as int,
            queue[q].1.base as int,
        ) by {
            if q < queue0.len() {
                assert(queue[q] == queue0[q]);
                let jq = queue0[q].0.base as int;
                let uq = queue0[q].1.base as int;
                assert(prior.doomed(jq, uq));
                let eq = choose|eq: Direction| #[trigger] prior.doomed_from(jq, uq, eq);
                assert(self.doomed_from(jq, uq, eq));
            } else {
                assert(queue[q] == ban_of(j0, u0));
                let reduced = without(live, i, t);
                let f = |t3: int| reduced(i, t3) && prop.allows(u0, opp, t3);
                crate::bits::lemma_count_none(f, tc);
                assert forall|t3: int|
                    0 <= t3 < tc && #[trigger] prop.allows(u0, opp, t3) implies !self.state.live(
                    i,
                    t3,
                ) by {
                    assert(!f(t3));
                    assert((live(i, t3) && !(i == i && t3 == t)) == prior.state.live(i, t3));
                }
                assert(self.doomed_from(j0, u0, opp));
            }
        }
    }

    /// Lowers, for every neighbour of `cell_idx`, the count of every pattern
    /// that `pattern_idx` supported there. With `enqueue`, a pattern whose
    /// count is zero afterwards and which is still a candidate of the
    /// neighbour is put in the ban queue. `buf` is scratch space.
    pub(crate) fn decrement_neighbors(
        &mut self,
        cell_idx: CellIndex,
        pattern_idx: PatternIndex,
        enqueue: bool,
        buf: &mut Vec<PatternIndex>,
        Ghost(live): Ghost<spec_fn(int, int) -> bool>,
    )
        requires
            old(self).dims_ok(),
            old(self).state.sizes_ok(),
            old(self).queue_ok(),
            cell_idx.base < old(self).n_cells,
            pattern_idx.base < old(self).t_count,
            live(cell_idx.base as int, pattern_idx.base as int),
            old(self).propagator.consistent() ==> counts_match(
                old(self).state.compatible,
                old(self).propagator,
                old(self).grid(),
                live,
            ),
            enqueue ==> forall|c: int, u: int|
                0 <= c < old(self).n_cells && 0 <= u < old(self).t_count ==> (#[trigger] live(c, u)
                    && !(c == cell_idx.base && u == pattern_idx.base))
                        == old(self).state.live(c, u),
        ensures
            final(self).same_but_counts_and_queue(old(self)),
            final(self).queue_ok(),
            !enqueue ==> final(self).to_ban_queue == old(self).to_ban_queue,
            enqueue && old(self).propagator.consistent() && old(self).queue_doomed()
                ==> final(self).queue_doomed(),
            final(self).propagator.consistent() ==> counts_match(
                final(self).state.compatible,
                final(self).propagator,
                final(self).grid(),
                without(live, cell_idx.base as int, pattern_idx.base as int),
            ),
            enqueue && old(self).supported() ==> final(self).supported(),
    {
        let ghost keep = enqueue && old(self).supported();
        let ghost dooms = enqueue && old(self).propagator.consistent() && old(self).queue_doomed();
        let ghost i = cell_idx.base as int;
        let ghost t = pattern_idx.base as int;
        let ghost n = self.n_cells as int;
        let ghost tc = self.t_count as int;
        let ghost grid = self.grid();
        let ghost prop = self.propagator;
        let mut k: usize = 0;
        proof {
            assert(grid.n_cells() == n);
            if prop.consistent() {
                assert(counts_match_partial(
                    self.state.compatible,
                    prop,
                    grid,
                    live,
                    i,
                    t,
                    0,
                    Seq::<PatternIndex>::empty(),
                ));
            }
        }
        while k < 4
            invariant
                k <= 4,
                self.same_but_counts_and_queue(old(self)),
                self.dims_ok(),
                self.state.sizes_ok(),
                self.queue_ok(),
                !enqueue ==> self.to_ban_queue == old(self).to_ban_queue,
                i == cell_idx.base,
                t == pattern_idx.base,
                n == self.n_cells,
                tc == self.t_count,
                grid == self.grid(),
                grid.n_cells() == n,
                prop == self.propagator,
                0 <= i < n,
                0 <= t < tc,
                live(i, t),
                keep ==> enqueue && self.supported(),
                dooms ==> enqueue && prop.consistent() && self.queue_doomed(),
                enqueue ==> forall|c: int, u: int|
                    0 <= c < n && 0 <= u < tc ==> (#[trigger] live(c, u) && !(c == i && u == t))
                        == self.state.live(c, u),
                prop.consistent() ==> counts_match_partial(
                    self.state.compatible,
                    prop,
                    grid,
                    live,
                    i,
                    t,
                    k as int,
                    Seq::<PatternIndex>::empty(),
                ),
            decreases 4 - k,
        {
            let d = Direction::from_index(k);
            let info = d.info();
            let opp = info.opposite;
            match self.neighbor(cell_idx, d) {
                Some(neighbor_cell) => {
                    buf.clear();
                    self.propagator.for_each_compatible_pattern(pattern_idx, d, buf);
                    let ghost f = |t2: int| prop.allows(t, d, t2);
                    let ghost j0 = neighbor_cell.base as int;
                    proof {
                        assert(buf@ =~= patterns_in(f, 0, tc));
                        lemma_patterns_members(f, 0, tc);
                        assert(buf@.subrange(0, 0) =~= Seq::<PatternIndex>::empty());
                    }
                    let mut m: usize = 0;
                    while m < buf.len()
                        invariant
                            m <= buf@.len(),
                            k < 4,
                            d.spec_index() == k,
                            opp == d.spec_opposite(),
                            self.same_but_counts_and_queue(old(self)),
                            self.dims_ok(),
                            self.state.sizes_ok(),
                            self.queue_ok(),
                            !enqueue ==> self.to_ban_queue == old(self).to_ban_queue,
                            i == cell_idx.base,
                            t == pattern_idx.base,
                            n == self.n_cells,
                            tc == self.t_count,
                            grid == self.grid(),
                            grid.n_cells() == n,
                            prop == self.propagator,
                            0 <= i < n,
                            0 <= t < tc,
                            live(i, t),
                            keep ==> enqueue && self.supported(),
                            dooms ==> enqueue && prop.consistent() && self.queue_doomed(),
                            enqueue ==> forall|c: int, u: int|
                                0 <= c < n && 0 <= u < tc ==> (#[trigger] live(c, u) && !(c == i
                                    && u == t)) == self.state.live(c, u),
                            j0 == neighbor_cell.base,
                            0 <= j0 < n,
                            grid.neighbor(i, d) == Some(j0),
                            f == (|t2: int| prop.allows(t, d, t2)),
                            forall|a: int|
                                0 <= a < buf@.len() ==> 0 <= (#[trigger] buf@[a]).base < tc && f(
                                    buf@[a].base as int,
                                ),
                            forall|a: int, b: int|
                                0 <= a < b < buf@.len() ==> (#[trigger] buf@[a]).base < (
                                #[trigger] buf@[b]).base,
                            prop.consistent() ==> counts_match_partial(
                                self.state.compatible,
                                prop,
                                grid,
                                live,
                                i,
                                t,
                                k as int,
                                buf@.subrange(0, m as int),
                            ),
                        decreases buf@.len() - m,
                    {
                        let t2 = buf[m];
                        let ghost prior = *self;
                        let ghost done = buf@.subrange(0, m as int);
                        let new_count = self.state.compatible.decrement(neighbor_cell, t2, opp);
                        if enqueue && new_count == 0 && self.state.wave.is_candidate(
                            neighbor_cell,
                            t2,
                        ) {
                            self.to_ban_queue.push((neighbor_cell, t2));
                        }
                        proof {
                            let u0 = t2.base as int;
                            assert(f(u0));
                            assert(buf@.subrange(0, m + 1) =~= done.push(t2));
                            assert((neighbor_cell, t2) == ban_of(j0, u0));
                            lemma_flat_index_parts(n, tc, j0, u0, opp);
                            assert(self.state.compatible.at(j0, u0, opp) == new_count);
                            if keep {
                                self.lemma_supported_after_lowering(&prior, j0, u0, opp, new_count);
                            }
                            if prop.consistent() {
                                assert(!done.contains(t2)) by {
                                    if done.contains(t2) {
                                        let a = choose|a: int| 0 <= a < done.len() && done[a] == t2;
                                        assert(buf@[a].base < buf@[m as int].base);
                                    }
                                }
                                Self::lemma_count_lowered(
                                    grid,
                                    prop,
                                    live,
                                    i,
                                    t,
                                    d,
                                    done,
                                    t2,
                                    j0,
                                    prior.state.compatible,
                                    self.state.compatible,
                                );
                                if dooms {
                                    self.lemma_doomed_after_lowering(&prior, live, i, t, j0, u0, opp);
                                }
                            }
                        }
                        m += 1;
                    }
                    proof {
                        if prop.consistent() {
                            assert(buf@.subrange(0, m as int) =~= buf@);
                            assert forall|u: int|
                                0 <= u < tc
                                    && #[trigger] prop.allows(t, d, u) implies buf@.contains(
                                PatternIndex { base: u as usize },
                            ) by {
                                assert(f(u));
                            }
                            Self::lemma_side_done(
                                grid,
                                prop,
                                live,
                                i,
                                t,
                                d,
                                buf@,
                                self.state.compatible,
                            );
                        }
                    }
                },
                None => {
                    proof {
                        if prop.consistent() {
                            Self::lemma_side_done(
                                grid,
                                prop,
                                live,
                                i,
                                t,
                                d,
                                Seq::<PatternIndex>::empty(),
                                self.state.compatible,
                            );
                        }
                    }
                },
            }
            k += 1;
        }
        proof {
            if prop.consistent() {
                let c = self.state.compatible;
                let live2 = without(live, i, t);
                assert forall|j: int, u: int, e: Direction|
                    0 <= j < grid.n_cells() && 0 <= u < prop.spec_t_count() implies #[trigger] c.at(
                    j,
                    u,
                    e,
                ) == support(live2, prop, grid.neighbor(j, e), u, e) by {
                    lemma_support_remove(live, prop, grid, i, t, j, u, e);
                    assert(c.at(j, u, e) == support(live, prop, grid.neighbor(j, e), u, e) - if hit(
                        grid,
                        prop,
                        i,
                        t,
                        j,
                        u,
                        e,
                    ) && lowered(4, Seq::<PatternIndex>::empty(), u, e) {
                        1int
                    } else {
                        0int
                    });
                }
            }
        }
    }
}

impl WFCModel {
    /// Whether no cell lost its last candidate since `old`.
    pub open(crate) spec fn no_new_contradiction(&self, old: &WFCModel) -> bool {
        forall|c: int|
            0 <= c < self.n_cells && #[trigger] self.state.counts()[c] == 0
                ==> old.state.counts()[c] == 0
    }

    /// Whether some cell has no candidate left.
    pub open(crate) spec fn has_contradiction(&self) -> bool {
        exists|c: int| 0 <= c < self.n_cells && #[trigger] self.state.counts()[c] == 0
    }

    /// The relation of [`WFCModel::advanced_from`] carries over a chain of operations.
    pub(crate) proof fn lemma_advanced_chain(&self, mid: &WFCModel, old: &WFCModel)
        requires
            self.advanced_from(mid),
            mid.advanced_from(old),
            self.dims_ok(),
            mid.dims_ok(),
        ensures
            self.advanced_from(old),
    {
        assert forall|c: int, t: int|
            0 <= c < self.n_cells
                && #[trigger] self.state.wave.has(c, t) implies old.state.wave.has(
            c,
            t,
        ) by {
            assert(mid.state.wave.has(c, t));
        }
        assert forall|c: int| 0 <= c < self.n_cells implies #[trigger] self.state.counts()[c]
            <= old.state.counts()[c] by {
            assert(mid.state.counts()[c] <= old.state.counts()[c]);
        }
        assert forall|c: CellIndex| #[trigger]
            old.state.dirty_cells@.contains(c) implies self.state.dirty_cells@.contains(c) by {
            assert(mid.state.dirty_cells@.contains(c));
        }
        assert forall|c: int|
            0 <= c < self.n_cells && self.state.counts()[c]
                < old.state.counts()[c] implies self.state.dirty_cells@.contains(
            #[trigger] cell_of(c),
        ) by {
            assert(mid.state.counts()[c] <= old.state.counts()[c]);
            if mid.state.counts()[c] < old.state.counts()[c] {
                assert(mid.state.dirty_cells@.contains(cell_of(c)));
            }
        }
        self.state.lemma_log_records_chain(&mid.state, &old.state);
    }

    /// Every state has advanced from itself.
    pub(crate) proof fn lemma_advanced_self(&self)
        ensures
            self.advanced_from(self),
    {
        self.state.lemma_log_records_self();
    }

    /// Bans every candidate of `cell` but `chosen_t`, in ascending order.
    pub(crate) fn collapse_cell(&mut self, cell: CellIndex, chosen_t: PatternIndex)
        requires
            old(self).inv(),
            cell.base < old(self).n_cells,
        ensures
            final(self).inv(),
            final(self).advanced_from(old(self)),
            final(self).to_ban_queue == old(self).to_ban_queue,
            final(self).state.measure() == old(self).state.measure(),
            old(self).supported() ==> final(self).supported(),
            final(self).bans_forced_since(old(self), Some((cell, chosen_t))),
            forall|c: int, t: int|
                0 <= c < old(self).n_cells ==> (#[trigger] final(self).state.wave.has(c, t)
                    <==> old(self).state.wave.has(c, t) && (c != cell.base || t == chosen_t.base)),
            forall|c: int|
                0 <= c < old(self).n_cells && c != cell.base ==> final(self).state.counts()[c]
                    == old(self).state.counts()[c],
    {
        let mut local_to_ban: Vec<PatternIndex> = Vec::new();
        self.state.wave.collapse_to_pattern(cell, chosen_t, &mut local_to_ban);
        let ghost ci = cell.base as int;
        let ghost tc = self.t_count as int;
        let ghost start = *self;
        let ghost f = |t: int| start.state.wave.has(ci, t) && t != chosen_t.base;
        proof {
            assert(local_to_ban@ =~= patterns_in(f, 0, tc));
            lemma_patterns_members(f, 0, tc);
            self.lemma_advanced_self();
        }
        let total = local_to_ban.len();
        let mut m: usize = 0;
        proof {
            assert forall|c: int, t: int| 0 <= c < self.n_cells implies (
            #[trigger] self.state.wave.has(c, t) <==> start.state.wave.has(c, t) && !(c == ci && t
                != chosen_t.base && (0 == total || t < local_to_ban@[0].base))) by {
                if c == ci && start.state.wave.has(c, t) && t != chosen_t.base {
                    assert(f(t));
                    let q = PatternIndex { base: t as usize };
                    assert(local_to_ban@.contains(q));
                    let a = choose|a: int| 0 <= a < total && local_to_ban@[a] == q;
                    if 0 < a {
                        assert(local_to_ban@[0].base < local_to_ban@[a].base);
                    }
                }
            }
        }
        while m < total
            invariant
                m <= total,
                total == local_to_ban@.len(),
                start == *old(self),
                ci == cell.base,
                tc == self.t_count,
                0 <= ci < self.n_cells,
                f == (|t: int| start.state.wave.has(ci, t) && t != chosen_t.base),
                local_to_ban@ == patterns_in(f, 0, tc),
                forall|a: int|
                    0 <= a < total ==> 0 <= (#[trigger] local_to_ban@[a]).base < tc && f(
                        local_to_ban@[a].base as int,
                    ),
                forall|a: int, b: int|
                    0 <= a < b < total ==> (#[trigger] local_to_ban@[a]).base < (
                    #[trigger] local_to_ban@[b]).base,
                forall|t: int|
                    0 <= t < tc && #[trigger] f(t) ==> local_to_ban@.contains(
                        PatternIndex { base: t as usize },
                    ),
                self.inv(),
                self.advanced_from(&start),
                self.to_ban_queue == start.to_ban_queue,
                self.state.measure() == start.state.measure(),
                start.supported() ==> self.supported(),
                forall|k: int|
                    start.state.ban_log@.len() <= k < self.state.ban_log@.len() ==> (
                    #[trigger] self.state.ban_log@[k]).0 == cell && self.state.ban_log@[k].1
                        != chosen_t,
                forall|c: int, t: int|
                    0 <= c < self.n_cells ==> (#[trigger] self.state.wave.has(c, t)
                        <==> start.state.wave.has(c, t) && !(c == ci && t != chosen_t.base && (m
                        == total || t < local_to_ban@[m as int].base))),
                forall|c: int|
                    0 <= c < self.n_cells && c != ci ==> self.state.counts()[c]
                        == start.state.counts()[c],
            decreases total - m,
        {
            let p_idx = local_to_ban[m];
            let ghost prev = *self;
            assert(self.state.wave.has(ci, p_idx.base as int));
            self.ban_cell(cell, p_idx);
            proof {
                self.lemma_advanced_chain(&prev, &start);
                assert forall|k: int|
                    start.state.ban_log@.len() <= k < self.state.ban_log@.len() implies (
                #[trigger] self.state.ban_log@[k]).0 == cell && self.state.ban_log@[k].1
                    != chosen_t by {
                    if k < prev.state.ban_log@.len() {
                        assert(self.state.ban_log@[k] == prev.state.ban_log@[k]);
                    } else {
                        assert(f(p_idx.base as int));
                    }
                }
                assert forall|c: int, t: int| 0 <= c < self.n_cells implies (
                #[trigger] self.state.wave.has(c, t) <==> start.state.wave.has(c, t) && !(c == ci
                    && t != chosen_t.base && (m + 1
                        == total || t < local_to_ban@[m + 1].base))) by {
                    assert(prev.state.wave.has(c, t) <==> start.state.wave.has(c, t) && !(c == ci
                        && t != chosen_t.base && t < p_idx.base));
                    if c == ci && start.state.wave.has(c, t) && t != chosen_t.base && t
                        > p_idx.base {
                        assert(0 <= t < tc);
                        assert(f(t));
                        let q = PatternIndex { base: t as usize };
                        assert(local_to_ban@.contains(q));
                        let a = choose|a: int| 0 <= a < total && local_to_ban@[a] == q;
                        if a <= m {
                            if a < m {
                                assert(local_to_ban@[a].base < local_to_ban@[m as int].base);
                            }
                        } else if m + 1 < total {
                            if m + 1 < a {
                                assert(local_to_ban@[m + 1].base < local_to_ban@[a].base);
                            }
                        }
                    }
                    if m + 1 < total {
                        assert(local_to_ban@[m as int].base < local_to_ban@[m + 1].base);
                    }
                }
            }
            m += 1;
        }
        proof {
            assert forall|k: int|
                start.state.ban_log@.len() <= k < self.state.ban_log@.len() implies
            #[trigger] self.ban_accounted(&start, Some((cell, chosen_t)), k) by {
                assert(self.state.ban_log@[k].0 == cell);
            }
        }
    }

    /// Bans, in the order of the queue, every pattern of the ban queue that
    /// is still a candidate, and empties the queue. Stops early, with
    /// `false`, as soon as a ban leaves a cell without candidates.
    pub(crate) fn process_ban_queue(&mut self) -> (r: bool)
        requires
            old(self).inv(),
        ensures
            final(self).inv(),
            final(self).to_ban_queue@.len() == 0,
            final(self).advanced_from(old(self)),
            final(self).state.measure() == old(self).state.measure(),
            final(self).state.compatible == old(self).state.compatible,
            r ==> final(self).no_new_contradiction(old(self)),
            !r ==> final(self).has_contradiction(),
            r && old(self).supported() ==> final(self).supported(),
            old(self).spec_propagator().consistent() && old(self).queue_doomed()
                ==> final(self).bans_forced_since(old(self), None),
    {
        let ghost start = *self;
        let ghost dooms = self.propagator.consistent() && self.queue_doomed();
        proof {
            self.lemma_advanced_self();
        }
        let mut i: usize = 0;
        while i < self.to_ban_queue.len()
            invariant
                start == *old(self),
                self.inv(),
                self.advanced_from(&start),
                self.to_ban_queue == start.to_ban_queue,
                self.state.measure() == start.state.measure(),
                self.state.compatible == start.state.compatible,
                self.no_new_contradiction(&start),
                i <= self.to_ban_queue@.len(),
                start.supported() ==> self.supported(),
                dooms == (start.propagator.consistent() && start.queue_doomed()),
                dooms ==> self.queue_doomed() && self.bans_forced_since(&start, None),
                forall|k: int|
                    0 <= k < i ==> !self.state.wave.has(
                        (#[trigger] self.to_ban_queue@[k]).0.base as int,
                        self.to_ban_queue@[k].1.base as int,
                    ),
            decreases self.to_ban_queue@.len() - i,
        {
            let (c_idx, p_idx) = self.to_ban_queue[i];
            assert(self.to_ban_queue@[i as int].0.base < self.n_cells);
            if self.state.wave.is_candidate(c_idx, p_idx) {
                let ghost prev = *self;
                self.ban_cell(c_idx, p_idx);
                proof {
                    self.lemma_advanced_chain(&prev, &start);
                    if dooms {
                        assert(prev.doomed(
                            prev.to_ban_queue@[i as int].0.base as int,
                            prev.to_ban_queue@[i as int].1.base as int,
                        ));
                        self.lemma_doomed_ban_is_forced(&prev, &start, c_idx, p_idx);
                    }
                }
                if self.state.entropy_tracker.has_no_possible_patterns(c_idx) {
                    let ghost banned = *self;
                    self.to_ban_queue.clear();
                    proof {
                        assert(self.state.counts()[c_idx.base as int] == 0);
                        if dooms {
                            self.lemma_forced_same_log(&banned, &start, None);
                        }
                    }
                    return false;
                }
                proof {
                    assert forall|c: int|
                        0 <= c < self.n_cells && #[trigger] self.state.counts()[c]
                            == 0 implies start.state.counts()[c] == 0 by {
                        if c != c_idx.base {
                            assert(prev.state.counts()[c] == 0);
                        }
                    }
                    assert forall|k: int| 0 <= k < i implies !self.state.wave.has(
                        (#[trigger] self.to_ban_queue@[k]).0.base as int,
                        self.to_ban_queue@[k].1.base as int,
                    ) by {
                        assert(!prev.state.wave.has(
                            prev.to_ban_queue@[k].0.base as int,
                            prev.to_ban_queue@[k].1.base as int,
                        ));
                    }
                }
            }
            i += 1;
        }
        let ghost full = *self;
        self.to_ban_queue.clear();
        proof {
            if dooms {
                self.lemma_forced_same_log(&full, &start, None);
            }
            if start.supported() {
                assert forall|j: int, u: int, e: Direction|
                    0 <= j < self.n_cells && self.state.wave.has(j, u) && self.grid().neighbor(j, e)
                        is Some implies #[trigger] self.state.compatible.at(j, u, e) >= 1 by {
                    assert(full.state.compatible.at(j, u, e) >= 1 || full.to_ban_queue@.contains(
                        ban_of(j, u),
                    ));
                    if full.to_ban_queue@.contains(ban_of(j, u)) {
                        let q = choose|q: int|
                            0 <= q < full.to_ban_queue@.len() && full.to_ban_queue@[q] == ban_of(
                                j,
                                u,
                            );
                        assert(!full.state.wave.has(
                            full.to_ban_queue@[q].0.base as int,
                            full.to_ban_queue@[q].1.base as int,
                        ));
                    }
                }
            }
        }
        true
    }

    /// Lowers the counts of the neighbours of a cell for one pattern that
    /// the wave no longer holds there, without banning anything. `buf` is
    /// scratch space.
    pub(crate) fn manually_propagate_ban(
        &mut self,
        cell_idx: CellIndex,
        pattern_idx: PatternIndex,
        buf: &mut Vec<PatternIndex>,
        Ghost(live): Ghost<spec_fn(int, int) -> bool>,
    )
        requires
            old(self).dims_ok(),
            old(self).state.sizes_ok(),
            old(self).queue_ok(),
            cell_idx.base < old(self).n_cells,
            pattern_idx.base < old(self).t_count,
            live(cell_idx.base as int, pattern_idx.base as int),
            old(self).propagator.consistent() ==> counts_match(
                old(self).state.compatible,
                old(self).propagator,
                old(self).grid(),
                live,
            ),
        ensures
            final(self).same_but_counts_and_queue(old(self)),
            final(self).to_ban_queue == old(self).to_ban_queue,
            final(self).propagator.consistent() ==> counts_match(
                final(self).state.compatible,
                final(self).propagator,
                final(self).grid(),
                without(live, cell_idx.base as int, pattern_idx.base as int),
            ),
    {
        self.decrement_neighbors(cell_idx, pattern_idx, false, buf, Ghost(live));
    }

    /// Propagates every ban that waits on the stack, and the bans that
    /// follow from them, until none is left or a cell has lost its last
    /// candidate. Returns whether the stack was emptied without a
    /// contradiction.
    ///
    /// For each ban taken from the stack the compatibility counts of the
    /// neighbours are lowered; a pattern whose count reaches zero while it is
    /// still a candidate is banned in turn.
    pub fn propagate(&mut self) -> (r: bool)
        requires
            old(self).wf(),
        ensures
            final(self).wf(),
            final(self).advanced_from(old(self)),
            r ==> final(self)@.stack.len() == 0,
            r ==> final(self).no_new_contradiction(old(self)),
            !r ==> final(self).has_contradiction(),
            r && old(self).supported() ==> final(self).supported(),
            old(self).spec_propagator().consistent() ==> final(self).bans_forced_since(
                old(self),
                None,
            ),
            !r && old(self).spec_propagator().consistent() ==> old(self).hopeless(None),
    {
        let ghost start = *self;
        let mut scratch: Vec<PatternIndex> = Vec::new();
        proof {
            self.lemma_advanced_self();
            self.lemma_measure_nonnegative();
        }
        while self.state.stack.len() > 0
            invariant
                start == *old(self),
                self.wf(),
                self.advanced_from(&start),
                self.no_new_contradiction(&start),
                self.state.measure() >= 0,
                start.supported() ==> self.supported(),
                self.propagator.consistent() ==> self.bans_forced_since(&start, None),
                start.wf(),
            decreases self.state.measure(),
        {
            let ghost before = *self;
            let ghost live_before = self.live();
            let (cell_idx, pattern_idx) = self.state.stack.pop().unwrap();
            let ghost i = cell_idx.base as int;
            let ghost t = pattern_idx.base as int;
            proof {
                let old_stack = before.state.stack@;
                let last = old_stack.len() - 1;
                assert(old_stack[last] == (cell_idx, pattern_idx));
                assert(ban_of(i, t) == (cell_idx, pattern_idx));
                assert(old_stack.contains(ban_of(i, t)));
                assert(live_before(i, t));
                assert(self.state.stack@ =~= old_stack.subrange(0, last));
                assert forall|k: int| 0 <= k < self.state.stack@.len() implies {
                    &&& (#[trigger] self.state.stack@[k]).0.base < self.state.n_cells()
                    &&& self.state.stack@[k].1.base < self.state.t_count()
                    &&& !self.state.wave.has(
                        self.state.stack@[k].0.base as int,
                        self.state.stack@[k].1.base as int,
                    )
                } by {
                    assert(self.state.stack@[k] == old_stack[k]);
                }
                assert(self.state.stack@.no_duplicates()) by {
                    assert forall|a: int, b: int|
                        0 <= a < self.state.stack@.len() && 0 <= b < self.state.stack@.len() && a
                            != b implies self.state.stack@[a] != self.state.stack@[b] by {
                        assert(self.state.stack@[a] == old_stack[a]);
                        assert(self.state.stack@[b] == old_stack[b]);
                    }
                }
                assert(self.state.wf());
                assert(self.inv());
                assert forall|c: int, u: int| 0 <= c < self.n_cells && 0 <= u < self.t_count implies
                (
                #[trigger] live_before(c, u) && !(c == cell_idx.base && u == pattern_idx.base))
                    == self.state.live(c, u) by {
                    let b = ban_of(c, u);
                    if self.state.stack@.contains(b) {
                        let k = choose|k: int|
                            0 <= k < self.state.stack@.len() && self.state.stack@[k] == b;
                        assert(old_stack[k] == b);
                        assert(old_stack[k] != old_stack[old_stack.len() - 1]);
                    }
                    if old_stack.contains(b) && !(c == i && u == t) {
                        let k = choose|k: int| 0 <= k < old_stack.len() && old_stack[k] == b;
                        assert(b != ban_of(i, t));
                        assert(k < old_stack.len() - 1);
                        assert(self.state.stack@[k] == b);
                    }
                }
                assert(self.queue_doomed());
            }
            self.decrement_neighbors(cell_idx, pattern_idx, true, &mut scratch, Ghost(live_before));
            let ghost mid = *self;
            proof {
                assert(self.state.wf());
                assert(self.inv());
                if self.propagator.consistent() {
                    let live_now = self.live();
                    let reduced = without(live_before, i, t);
                    assert forall|c: int, u: int|
                        0 <= c < self.grid().n_cells() && 0 <= u
                            < self.propagator.spec_t_count() implies #[trigger] reduced(c, u)
                        == live_now(c, u) by {
                        let old_stack = before.state.stack@;
                        let b = ban_of(c, u);
                        if self.state.stack@.contains(b) {
                            let k = choose|k: int|
                                0 <= k < self.state.stack@.len() && self.state.stack@[k] == b;
                            assert(old_stack[k] == b);
                            assert(old_stack[k] != old_stack[old_stack.len() - 1]);
                        }
                        if old_stack.contains(b) && !(c == i && u == t) {
                            let k = choose|k: int| 0 <= k < old_stack.len() && old_stack[k] == b;
                            assert(b != ban_of(i, t));
                            assert(k < old_stack.len() - 1);
                            assert(self.state.stack@[k] == b);
                        }
                    }
                    lemma_counts_match_ext(
                        self.state.compatible,
                        self.propagator,
                        self.grid(),
                        reduced,
                        live_now,
                    );
                    assert(self.counts_exact());
                }
                assert(mid.advanced_from(&before)) by {
                    before.state.lemma_log_records_self();
                    assert(mid.state.ban_log@ == before.state.ban_log@);
                    assert(mid.state.wave == before.state.wave);
                    assert(mid.state.log_records_from(&before.state));
                }
                self.lemma_advanced_chain(&before, &start);
            }
            proof {
                if self.propagator.consistent() {
                    mid.lemma_forced_same_log(&before, &start, None);
                }
            }
            let ok = self.process_ban_queue();
            proof {
                self.lemma_advanced_chain(&mid, &start);
                if self.propagator.consistent() {
                    assert forall|k: int|
                        mid.state.ban_log@.len() <= k < self.state.ban_log@.len() implies (
                    #[trigger] self.state.ban_log@[k]).0.base < self.n_cells by {}
                    self.lemma_forced_chain(&mid, &start, None);
                }
                // one ban has left the stack; the bans made since keep the measure
                assert(mid.state.measure() == before.state.measure() - 1);
            }
            if !ok {
                proof {
                    if self.propagator.consistent() {
                        let c = choose|c: int|
                            0 <= c < self.n_cells && #[trigger] self.state.counts()[c] == 0;
                        assert(self@.counts[c] == 0);
                        self.lemma_contradiction_shows_hopeless(&start, None);
                    }
                }
                return false;
            }
            proof {
                assert forall|c: int|
                    0 <= c < self.n_cells && #[trigger] self.state.counts()[c]
                        == 0 implies start.state.counts()[c] == 0 by {
                    assert(mid.state.counts()[c] == 0);
                    assert(before.state.counts()[c] == 0);
                }
                self.lemma_measure_nonnegative();
            }
        }
        true
    }
}

impl WFCModel {
    /// The ban of a doomed candidate is a forced ban: where `prev` has
    /// advanced from `start` with every ban forced, and this state is `prev`
    /// after the ban of a doomed candidate, every ban since `start` was forced.
    pub(crate) proof fn lemma_doomed_ban_is_forced(
        &self,
        prev: &WFCModel,
        start: &WFCModel,
        cell_idx: CellIndex,
        pattern_idx: PatternIndex,
    )
        requires
            prev.inv(),
            prev.advanced_from(start),
            prev.bans_forced_since(start, None),
            prev.doomed(cell_idx.base as int, pattern_idx.base as int),
            cell_idx.base < prev.n_cells,
            self.same_setup(prev),
            self.state.ban_log@ == prev.state.ban_log@.push((cell_idx, pattern_idx)),
        ensures
            self.bans_forced_since(start, None),
    {
        let from = start.state.ban_log@.len() as int;
        let log0 = prev.state.ban_log@;
        let log = self.state.ban_log@;
        let grid = self.grid();
        let prop = self.propagator;
        assert(start.state.ban_log@ =~= log0.subrange(0, from));
        assert forall|k: int| from <= k < log.len() implies #[trigger] self.ban_accounted(
            start,
            None,
            k,
        ) by {
            if k < log0.len() {
                assert(prev.ban_accounted(start, None, k));
                assert(forced(grid, prop, start.state.wave, log0, from, k));
                assert forall|m: int| 0 <= m <= k implies log0[m] == log[m] by {}
                lemma_forced_prefix(grid, prop, start.state.wave, log0, log, from, k);
            } else {
                let j = cell_idx.base as int;
                let t2 = pattern_idx.base as int;
                let e = choose|e: Direction| #[trigger] prev.doomed_from(j, t2, e);
                let i = grid.neighbor(j, e).unwrap();
                lemma_neighbor_in_range(grid.width, grid.height, grid.periodic, j, e);
                assert(log[k] == (cell_idx, pattern_idx));
                assert forall|t: int|
                    0 <= t < prop.spec_t_count() && #[trigger] prop.allows(
                        log[k].1.base as int,
                        e,
                        t,
                    ) implies !present_before(start.state.wave, log, from, k, i, t) by {
                    assert(!prev.state.live(i, t));
                    if start.state.wave.has(i, t) {
                        assert(logged_after(log0, from, ban_of(i, t)));
                        let m = choose|m: int|
                            from <= m < log0.len() && #[trigger] log0[m] == ban_of(i, t);
                        assert(log[m] == ban_of(i, t));
                        assert(logged_between(log, from, k, ban_of(i, t)));
                    }
                }
                assert(forced_from(grid, prop, start.state.wave, log, from, k, e));
            }
        }
    }

    /// Whether the logged bans are accounted for depends on the setup and
    /// the log alone.
    pub(crate) proof fn lemma_forced_same_log(
        &self,
        other: &WFCModel,
        old: &WFCModel,
        choice: Option<Ban>,
    )
        requires
            self.same_setup(other),
            self.state.ban_log@ == other.state.ban_log@,
            other.bans_forced_since(old, choice),
        ensures
            self.bans_forced_since(old, choice),
    {
        assert forall|k: int|
            old.state.ban_log@.len()
                <= k < self.state.ban_log@.len() implies #[trigger] self.ban_accounted(
            old,
            choice,
            k,
        ) by {
            assert(other.ban_accounted(old, choice, k));
        }
    }

    /// The logged bans are accounted for since every state with the wave
    /// and the log of `old`.
    pub(crate) proof fn lemma_forced_rebased_on_same_state(
        &self,
        old: &WFCModel,
        other: &WFCModel,
        choice: Option<Ban>,
    )
        requires
            old.state == other.state,
            self.bans_forced_since(old, choice),
        ensures
            self.bans_forced_since(other, choice),
    {
        assert forall|k: int|
            other.state.ban_log@.len()
                <= k < self.state.ban_log@.len() implies #[trigger] self.ban_accounted(
            other,
            choice,
            k,
        ) by {
            assert(self.ban_accounted(old, choice, k));
        }
    }

    /// Where the bans from `old` to `mid` were forced but for those of a
    /// choice, and the bans from `mid` to this state were forced, the bans
    /// from `old` to this state were forced but for those of the choice.
    pub(crate) proof fn lemma_forced_chain(
        &self,
        mid: &WFCModel,
        old: &WFCModel,
        choice: Option<Ban>,
    )
        requires
            self.dims_ok(),
            mid.dims_ok(),
            self.advanced_from(mid),
            mid.advanced_from(old),
            self.queue_ok(),
            self.bans_forced_since(mid, None),
            mid.bans_forced_since(old, choice),
            forall|k: int|
                mid.state.ban_log@.len() <= k < self.state.ban_log@.len() ==> (
                #[trigger] self.state.ban_log@[k]).0.base < self.n_cells,
        ensures
            self.bans_forced_since(old, choice),
    {
        let from = old.state.ban_log@.len() as int;
        let log1 = mid.state.ban_log@;
        let log = self.state.ban_log@;
        let grid = self.grid();
        let prop = self.propagator;
        assert(old.state.ban_log@ =~= log1.subrange(0, from));
        assert(log1 =~= log.subrange(0, log1.len() as int));
        assert forall|k: int| from <= k < log.len() implies #[trigger] self.ban_accounted(
            old,
            choice,
            k,
        ) by {
            if k < log1.len() {
                assert(log[k] == log1[k]);
                assert(mid.ban_accounted(old, choice, k));
                if forced(grid, prop, old.state.wave, log1, from, k) {
                    assert forall|m: int| 0 <= m <= k implies log1[m] == log[m] by {}
                    lemma_forced_prefix(grid, prop, old.state.wave, log1, log, from, k);
                }
            } else {
                assert(self.ban_accounted(mid, None, k));
                assert(forced(grid, prop, mid.state.wave, log, log1.len() as int, k));
                lemma_forced_rebase(grid, prop, &old.state, &mid.state, log, k);
            }
        }
    }
}

} // verus!
