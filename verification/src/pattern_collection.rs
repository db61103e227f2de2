//! Pattern indices and per-pattern tables.

use vstd::prelude::*;

verus! {

/// Index of a pattern in the vocabulary.
#[derive(Copy, Clone, PartialEq, Eq, Structural, Debug)]
pub struct PatternIndex {
    pub base: usize,
}

/// One value per pattern, addressed by [`PatternIndex`].
#[derive(Clone)]
pub struct PatternCollection<T> {
    pub data: Vec<T>,
}

impl<T: Copy> PatternCollection<T> {
    /// The value stored for a pattern.
    #[inline(always)]
    pub fn get(&self, index: PatternIndex) -> (r: T)
        requires
            index.base < self.data@.len(),
        ensures
            r == self.data@[index.base as int],
    {
        self.data[index.base]
    }

    /// Replaces the value stored for a pattern.
    #[inline(always)]
    pub fn set(&mut self, index: PatternIndex, value: T)
        requires
            index.base < old(self).data@.len(),
        ensures
            final(self).data@ == old(self).data@.update(index.base as int, value),
    {
        self.data[index.base] = value;
    }
}

} // verus!
