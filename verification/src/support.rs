//! What the compatibility counts stand for, and how a ban changes it.
//!
//! A pattern `t` at cell `i` is *live* while it is a candidate of `i` or its
//! ban has not been propagated yet. The support of pattern `t2` at cell `j`
//! from side `e` is the number of live patterns of the neighbour of `j` on
//! side `e` that may stand there; where `j` has no neighbour on that side it
//! is the recorded length of the rule.

use crate::bits::{count_true, lemma_count_ext, lemma_count_positive, lemma_count_remove};
use crate::compatible::Compatible;
use crate::direction::{lemma_opposite_involutive, Direction};
use crate::grid::{lemma_neighbor_inverse, lemma_neighbor_in_range, neighbor_of};
use crate::pattern_collection::PatternIndex;
use crate::propagator::Propagator;
use vstd::prelude::*;

verus! {

/// Shape of a grid: its size and whether it wraps around.
pub struct Grid {
    pub width: int,
    pub height: int,
    pub periodic: bool,
}

impl Grid {
    /// Number of cells.
    pub open spec fn n_cells(self) -> int {
        self.width * self.height
    }

    /// The neighbour of cell `i` on side `d`.
    pub open spec fn neighbor(self, i: int, d: Direction) -> Option<int> {
        neighbor_of(self.width, self.height, self.periodic, i, d)
    }
}

/// The support of `t2` from side `e`, given the neighbour on that side.
pub open spec fn support(
    live: spec_fn(int, int) -> bool,
    propagator: Propagator,
    nb: Option<int>,
    t2: int,
    e: Direction,
) -> int {
    match nb {
        Some(i) => count_true(
            |t: int| live(i, t) && propagator.allows(t2, e, t),
            propagator.spec_t_count(),
        ),
        None => propagator.count(t2, e),
    }
}

/// `live` without pattern `t` at cell `i`.
pub open spec fn without(live: spec_fn(int, int) -> bool, i: int, t: int) -> spec_fn(int, int) -> bool {
    |c: int, u: int| live(c, u) && !(c == i && u == t)
}

/// Whether the ban of `t` at `i` lowers the support of `t2` at `j` from side `e`.
pub open spec fn hit(
    grid: Grid,
    propagator: Propagator,
    i: int,
    t: int,
    j: int,
    t2: int,
    e: Direction,
) -> bool {
    grid.neighbor(i, e.spec_opposite()) == Some(j) && propagator.allows(t, e.spec_opposite(), t2)
}

/// Every count is the support of its pattern.
pub open spec fn counts_match(
    compatible: Compatible,
    propagator: Propagator,
    grid: Grid,
    live: spec_fn(int, int) -> bool,
) -> bool {
    forall|j: int, t2: int, e: Direction|
        0 <= j < grid.n_cells() && 0 <= t2 < propagator.spec_t_count() ==> #[trigger] compatible.at(
            j,
            t2,
            e,
        ) == support(live, propagator, grid.neighbor(j, e), t2, e)
}

/// Whether, while the ban of `t` at `i` is being propagated, the count of
/// `t2` from side `e` has been lowered already: the sides before lane `k`
/// are done, and of lane `k` the patterns in `done`.
pub open spec fn lowered(k: int, done: Seq<PatternIndex>, t2: int, e: Direction) -> bool {
    e.spec_opposite().spec_index() < k || (e.spec_opposite().spec_index() == k && done.contains(
        PatternIndex { base: t2 as usize },
    ))
}

/// The counts in the middle of propagating the ban of `t` at `i`: every
/// count is the support of its pattern under `live`, less one where the ban
/// lowers it and the count has been lowered already.
pub open spec fn counts_match_partial(
    compatible: Compatible,
    propagator: Propagator,
    grid: Grid,
    live: spec_fn(int, int) -> bool,
    i: int,
    t: int,
    k: int,
    done: Seq<PatternIndex>,
) -> bool {
    forall|j: int, t2: int, e: Direction|
        0 <= j < grid.n_cells() && 0 <= t2 < propagator.spec_t_count() ==> #[trigger] compatible.at(
            j,
            t2,
            e,
        ) == support(live, propagator, grid.neighbor(j, e), t2, e) - if hit(
            grid,
            propagator,
            i,
            t,
            j,
            t2,
            e,
        ) && lowered(k, done, t2, e) {
            1int
        } else {
            0int
        }
}

/// The support depends only on which patterns are live.
pub proof fn lemma_support_ext(
    live1: spec_fn(int, int) -> bool,
    live2: spec_fn(int, int) -> bool,
    propagator: Propagator,
    nb: Option<int>,
    t2: int,
    e: Direction,
)
    requires
        nb matches Some(i) ==> forall|t: int|
            0 <= t < propagator.spec_t_count() ==> #[trigger] live1(i, t) == live2(i, t),
    ensures
        support(live1, propagator, nb, t2, e) == support(live2, propagator, nb, t2, e),
{
    if let Some(i) = nb {
        lemma_count_ext(
            |t: int| live1(i, t) && propagator.allows(t2, e, t),
            |t: int| live2(i, t) && propagator.allows(t2, e, t),
            propagator.spec_t_count(),
        );
    }
}

/// Taking a live pattern away lowers by one the support of what it
/// supported, and leaves every other support as it was.
pub proof fn lemma_support_remove(
    live: spec_fn(int, int) -> bool,
    propagator: Propagator,
    grid: Grid,
    i: int,
    t: int,
    j: int,
    t2: int,
    e: Direction,
)
    requires
        0 < grid.width,
        0 < grid.height,
        0 <= i < grid.n_cells(),
        0 <= j < grid.n_cells(),
        0 <= t < propagator.spec_t_count(),
        0 <= t2 < propagator.spec_t_count(),
        live(i, t),
        propagator.consistent(),
    ensures
        support(without(live, i, t), propagator, grid.neighbor(j, e), t2, e) == support(
            live,
            propagator,
            grid.neighbor(j, e),
            t2,
            e,
        ) - if hit(grid, propagator, i, t, j, t2, e) {
            1int
        } else {
            0int
        },
        hit(grid, propagator, i, t, j, t2, e) ==> support(
            live,
            propagator,
            grid.neighbor(j, e),
            t2,
            e,
        ) >= 1,
{
    let tc = propagator.spec_t_count();
    let live2 = without(live, i, t);
    let d = e.spec_opposite();
    lemma_opposite_involutive(e);
    lemma_opposite_involutive(d);
    lemma_neighbor_inverse(grid.width, grid.height, grid.periodic, i, d);
    lemma_neighbor_inverse(grid.width, grid.height, grid.periodic, j, e);
    assert(propagator.allows(t, d, t2) <==> propagator.allows(t2, e, t));
    match grid.neighbor(j, e) {
        Some(c) => {
            let f = |u: int| live(c, u) && propagator.allows(t2, e, u);
            let g = |u: int| live2(c, u) && propagator.allows(t2, e, u);
            if c == i && propagator.allows(t2, e, t) {
                assert(grid.neighbor(i, d) == Some(j));
                lemma_count_remove(f, g, tc, t);
                lemma_count_positive(f, tc, t);
            } else {
                lemma_count_ext(f, g, tc);
                if grid.neighbor(i, d) == Some(j) {
                    assert(c == i);
                }
            }
        },
        None => {
            if grid.neighbor(i, d) == Some(j) {
                assert(grid.neighbor(j, e) == Some(i));
            }
        },
    }
}

/// Where every pattern of the neighbour is live, the support of a pattern is
/// the recorded length of its rule.
pub proof fn lemma_support_full(
    live: spec_fn(int, int) -> bool,
    propagator: Propagator,
    nb: Option<int>,
    t2: int,
    e: Direction,
)
    requires
        propagator.consistent(),
        0 <= t2 < propagator.spec_t_count(),
        nb matches Some(i) ==> forall|t: int|
            0 <= t < propagator.spec_t_count() ==> #[trigger] live(i, t),
    ensures
        support(live, propagator, nb, t2, e) == propagator.count(t2, e),
{
    if let Some(i) = nb {
        lemma_count_ext(
            |t: int| live(i, t) && propagator.allows(t2, e, t),
            |t: int| propagator.allows(t2, e, t),
            propagator.spec_t_count(),
        );
    }
}

/// Counts that match one choice of live patterns match every choice that
/// agrees with it on the cells of the grid.
pub proof fn lemma_counts_match_ext(
    compatible: Compatible,
    propagator: Propagator,
    grid: Grid,
    live1: spec_fn(int, int) -> bool,
    live2: spec_fn(int, int) -> bool,
)
    requires
        0 < grid.width,
        0 < grid.height,
        counts_match(compatible, propagator, grid, live1),
        forall|i: int, t: int|
            0 <= i < grid.n_cells() && 0 <= t < propagator.spec_t_count() ==> #[trigger] live1(i, t)
                == live2(i, t),
    ensures
        counts_match(compatible, propagator, grid, live2),
{
    assert forall|j: int, t2: int, e: Direction|
        0 <= j < grid.n_cells() && 0
            <= t2 < propagator.spec_t_count() implies #[trigger] compatible.at(
        j,
        t2,
        e,
    ) == support(live2, propagator, grid.neighbor(j, e), t2, e) by {
        lemma_neighbor_in_range(grid.width, grid.height, grid.periodic, j, e);
        lemma_support_ext(live1, live2, propagator, grid.neighbor(j, e), t2, e);
    }
}

} // verus!
