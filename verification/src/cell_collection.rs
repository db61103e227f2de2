//! One value per cell, addressed by [`CellIndex`].

use crate::cell::CellIndex;
use vstd::prelude::*;

verus! {

/// A value of type `T` for every cell of a grid.
#[derive(Clone)]
pub struct CellCollection<T> {
    pub data: Vec<T>,
}

impl<T: Copy> CellCollection<T> {
    /// A collection of `n_cells` copies of `value`.
    pub fn new_with_value(n_cells: usize, value: T) -> (r: Self)
        ensures
            r.data@ == Seq::new(n_cells as nat, |i: int| value),
    {
        let mut data: Vec<T> = Vec::with_capacity(n_cells);
        let mut i: usize = 0;
        while i < n_cells
            invariant
                i <= n_cells,
                data@ == Seq::new(i as nat, |k: int| value),
            decreases n_cells - i,
        {
            data.push(value);
            i += 1;
            assert(data@ =~= Seq::new(i as nat, |k: int| value));
        }
        Self { data }
    }

    /// Number of cells.
    pub fn len(&self) -> (r: usize)
        ensures
            r == self.data@.len(),
    {
        self.data.len()
    }

    /// The contiguous buffer behind the collection, one element per cell in index order.
    pub fn as_ptr(&self) -> (r: &[T])
        ensures
            r@ == self.data@,
    {
        self.data.as_slice()
    }

    /// Overwrites every cell with `value`.
    pub fn fill(&mut self, value: T)
        ensures
            final(self).data@ == Seq::new(old(self).data@.len(), |i: int| value),
    {
        let n = self.data.len();
        let mut i: usize = 0;
        while i < n
            invariant
                i <= n,
                self.data@.len() == n,
                forall|k: int| 0 <= k < i ==> self.data@[k] == value,
            decreases n - i,
        {
            self.data[i] = value;
            i += 1;
        }
        assert(self.data@ =~= Seq::new(n as nat, |k: int| value));
    }

    /// The value stored for a cell.
    #[inline(always)]
    pub fn get(&self, index: CellIndex) -> (r: T)
        requires
            index.base < self.data@.len(),
        ensures
            r == self.data@[index.base as int],
    {
        self.data[index.base]
    }

    /// Replaces the value stored for a cell.
    #[inline(always)]
    pub fn set(&mut self, index: CellIndex, value: T)
        requires
            index.base < old(self).data@.len(),
        ensures
            final(self).data@ == old(self).data@.update(index.base as int, value),
    {
        self.data[index.base] = value;
    }
}

} // verus!
