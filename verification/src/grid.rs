//! The neighbourhood of a cell on a bounded or toroidal grid.

use crate::bits::lemma_flat_index;
use crate::direction::Direction;
use vstd::prelude::*;

verus! {

/// The neighbour of cell `i` in direction `d` on a grid of the given size.
/// On a periodic grid the coordinates wrap around, so every cell has a
/// neighbour on every side; on a bounded grid a cell at the border has none
/// beyond it.
pub open spec fn neighbor_of(
    width: int,
    height: int,
    periodic: bool,
    i: int,
    d: Direction,
) -> Option<
    int,
> {
    let x = i % width + d.spec_dx();
    let y = i / width + d.spec_dy();
    if periodic {
        Some((y % height) * width + (x % width))
    } else if 0 <= x < width && 0 <= y < height {
        Some(y * width + x)
    } else {
        None
    }
}

/// One step beyond either end of `[0, n)` wraps to the other end.
pub proof fn lemma_wrap(v: int, n: int)
    requires
        0 < n,
        -1 <= v <= n,
    ensures
        v % n == if v < 0 {
            v + n
        } else if v >= n {
            v - n
        } else {
            v
        },
{
    if v < 0 {
        vstd::arithmetic::div_mod::lemma_fundamental_div_mod_converse(v, n, -1, v + n);
    } else if v >= n {
        vstd::arithmetic::div_mod::lemma_fundamental_div_mod_converse(v, n, 1, v - n);
    } else {
        vstd::arithmetic::div_mod::lemma_fundamental_div_mod_converse(v, n, 0, v);
    }
}

/// The column and row of a cell lie inside the grid.
pub proof fn lemma_coords(width: int, height: int, i: int)
    requires
        0 < width,
        0 < height,
        0 <= i < width * height,
    ensures
        0 <= i % width < width,
        0 <= i / width < height,
        i == (i / width) * width + i % width,
{
    vstd::arithmetic::div_mod::lemma_fundamental_div_mod(i, width);
    assert(width * (i / width) == (i / width) * width) by (nonlinear_arith);
    assert(0 <= i / width < height) by (nonlinear_arith)
        requires
            0 < width,
            0 <= i < width * height,
            i == (i / width) * width + i % width,
            0 <= i % width < width,
    ;
}

/// A neighbour is a cell of the grid.
pub proof fn lemma_neighbor_in_range(width: int, height: int, periodic: bool, i: int, d: Direction)
    requires
        0 < width,
        0 < height,
        0 <= i < width * height,
    ensures
        neighbor_of(width, height, periodic, i, d) matches Some(j) ==> 0 <= j < width * height,
{
    lemma_coords(width, height, i);
    assert(width * height == height * width) by (nonlinear_arith);
    let x = i % width + d.spec_dx();
    let y = i / width + d.spec_dy();
    if periodic {
        lemma_wrap(x, width);
        lemma_wrap(y, height);
        lemma_flat_index(y % height, height, x % width, width);
    } else if 0 <= x < width && 0 <= y < height {
        lemma_flat_index(y, height, x, width);
    }
}

/// Stepping to a neighbour and then the opposite way leads back.
pub proof fn lemma_neighbor_inverse(width: int, height: int, periodic: bool, i: int, d: Direction)
    requires
        0 < width,
        0 < height,
        0 <= i < width * height,
    ensures
        neighbor_of(width, height, periodic, i, d) matches Some(j) ==> neighbor_of(
            width,
            height,
            periodic,
            j,
            d.spec_opposite(),
        ) == Some(i),
{
    lemma_coords(width, height, i);
    let x = i % width + d.spec_dx();
    let y = i / width + d.spec_dy();
    let e = d.spec_opposite();
    if periodic {
        lemma_wrap(x, width);
        lemma_wrap(y, height);
        let x2 = x % width;
        let y2 = y % height;
        lemma_flat_index(y2, height, x2, width);
        let j = y2 * width + x2;
        assert(j % width == x2 && j / width == y2);
        lemma_wrap(x2 + e.spec_dx(), width);
        lemma_wrap(y2 + e.spec_dy(), height);
    } else if 0 <= x < width && 0 <= y < height {
        lemma_flat_index(y, height, x, width);
        let j = y * width + x;
        assert(j % width == x && j / width == y);
    }
}

} // verus!
