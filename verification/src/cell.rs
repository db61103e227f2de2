//! Cell indices and their row-major coordinates.

use vstd::prelude::*;

verus! {

/// Dense index of a grid cell: cell `(x, y)` of a grid of width `w` has index `y * w + x`.
#[derive(Copy, Clone, PartialEq, Eq, Structural, Debug)]
pub struct CellIndex {
    pub base: usize,
}

impl CellIndex {
    /// Column and row of the cell in a grid of the given width.
    #[inline(always)]
    pub fn to_coords(&self, width: usize) -> (r: (usize, usize))
        requires
            width > 0,
        ensures
            r.0 == self.base % width,
            r.1 == self.base / width,
    {
        (self.base % width, self.base / width)
    }
}

/// Converts between cell indices and signed coordinates for one grid width.
pub struct Cell {
    pub(crate) width: usize,
}

impl Cell {
    /// The grid width this converter was made for.
    pub open(crate) spec fn spec_width(&self) -> int {
        self.width as int
    }

    /// A converter for a grid of the given width.
    #[inline(always)]
    pub fn new(width: usize) -> (r: Self)
        ensures
            r.spec_width() == width,
    {
        Self { width }
    }

    /// Column and row of a cell. Both must fit in an `i32`.
    #[inline(always)]
    pub fn get_coords(&self, index: CellIndex) -> (r: (i32, i32))
        requires
            0 < self.spec_width() <= i32::MAX,
            index.base / (self.spec_width() as usize) <= i32::MAX,
        ensures
            r.0 == index.base % (self.spec_width() as usize),
            r.1 == index.base / (self.spec_width() as usize),
    {
        let i = index.base;
        ((i % self.width) as i32, (i / self.width) as i32)
    }

    /// Index of the cell in column `x` and row `y`.
    #[inline(always)]
    pub fn get_index(&self, x: i32, y: i32) -> (r: CellIndex)
        requires
            0 <= x,
            0 <= y,
            x + y * self.spec_width() <= usize::MAX,
        ensures
            r.base == x + y * self.spec_width(),
    {
        assert(y * self.width <= x + y * self.width) by (nonlinear_arith)
            requires
                0 <= x,
                0 <= y,
        ;
        let base = (x as usize) + (y as usize) * self.width;
        CellIndex { base }
    }
}

} // verus!
