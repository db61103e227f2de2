//! The adjacency rules: for every pattern and direction, the set of patterns
//! allowed as the neighbour on that side.

use crate::direction::Direction;
use crate::pattern_bitset::{
    append_set_bits, lemma_patterns_ext, lemma_patterns_none, lemma_patterns_split, patterns_in,
    PatternBitSet,
};
use crate::pattern_collection::PatternIndex;
use vstd::prelude::*;

verus! {

/// Whether `t2` occurs in the slice of `data` that starts at `offsets[k]` and
/// is `lengths[k]` long.
pub open spec fn listed(
    data: Seq<i32>,
    offsets: Seq<i32>,
    lengths: Seq<i32>,
    k: int,
    t2: int,
) -> bool {
    exists|m: int| offsets[k] <= m < offsets[k] + lengths[k] && #[trigger] data[m] == t2
}

/// Whether `offsets` and `lengths` describe, for each of the `4 * t_count`
/// pairs of a direction and a pattern, a slice that lies inside `data`.
pub open spec fn adjacency_in_bounds(
    data: Seq<i32>,
    offsets: Seq<i32>,
    lengths: Seq<i32>,
    t_count: int,
) -> bool {
    &&& offsets.len() == 4 * t_count
    &&& lengths.len() == 4 * t_count
    &&& forall|k: int|
        0 <= k < 4 * t_count ==> 0 <= #[trigger] offsets[k] && 0 <= lengths[k] && offsets[k]
            + lengths[k] <= data.len()
}

/// The adjacency rules as one bit set per pattern and direction, beside
/// the lengths of the lists that they were built from.
#[derive(Clone)]
pub struct Propagator {
    pub(crate) lengths: Vec<i32>,
    pub(crate) t_count: usize,
    pub(crate) masks: Vec<PatternBitSet>,
}

impl Propagator {
    /// Size of the pattern vocabulary.
    pub open(crate) spec fn spec_t_count(&self) -> int {
        self.t_count as int
    }

    /// Position of a pattern and direction in the direction-major tables.
    pub open spec fn lookup(&self, t: int, d: Direction) -> int {
        d.spec_index() * self.spec_t_count() + t
    }

    /// The allowed-neighbour set of pattern `t` towards direction `d`.
    pub open(crate) spec fn spec_mask(&self, t: int, d: Direction) -> PatternBitSet {
        self.masks@[self.lookup(t, d)]
    }

    /// The lengths that the rules were built with, one per direction and pattern.
    pub open(crate) spec fn spec_lengths(&self) -> Seq<i32> {
        self.lengths@
    }

    /// One mask and one length for every direction and pattern, all over the same vocabulary.
    pub open(crate) spec fn wf(&self) -> bool {
        &&& self.lengths@.len() == 4 * self.t_count
        &&& self.masks@.len() == 4 * self.t_count
        &&& forall|k: int|
            0 <= k < self.masks@.len() ==> (#[trigger] self.masks@[k]).wf()
                && self.masks@[k].spec_t_count() == self.t_count
    }

    /// Whether pattern `t2` may stand next to pattern `t` on its side `d`.
    pub open spec fn allows(&self, t: int, d: Direction, t2: int) -> bool {
        self.spec_mask(t, d).has(t2)
    }

    /// The recorded number of patterns allowed next to `t` on its side `d`.
    pub open spec fn count(&self, t: int, d: Direction) -> int {
        self.spec_lengths()[self.lookup(t, d)] as int
    }

    /// The rules are symmetric and the recorded lengths are the sizes of the
    /// allowed sets: `t2` may stand on side `d` of `t` exactly when `t` may
    /// stand on the opposite side of `t2`, and no list names a pattern twice
    /// or names one outside the vocabulary.
    pub open spec fn consistent(&self) -> bool {
        &&& forall|t: int, d: Direction, t2: int|
            0 <= t < self.spec_t_count() && 0 <= t2 < self.spec_t_count()
                ==> (#[trigger] self.allows(
                t,
                d,
                t2,
            ) <==> self.allows(t2, d.spec_opposite(), t))
        &&& forall|t: int, d: Direction|
            0 <= t < self.spec_t_count() ==> #[trigger] self.count(t, d) == crate::bits::count_true(
                |t2: int| self.allows(t, d, t2),
                self.spec_t_count(),
            )
    }

    /// Builds the rules from flat adjacency arrays. For direction `d` and
    /// pattern `t`, the allowed neighbours are the entries of `data` in the
    /// slice given by `offsets` and `lengths` at position `d * t_count + t`;
    /// entries that name no pattern of the vocabulary are ignored.
    pub fn new(data: Vec<i32>, offsets: Vec<i32>, lengths: Vec<i32>, t_count: usize) -> (r: Self)
        requires
            adjacency_in_bounds(data@, offsets@, lengths@, t_count as int),
        ensures
            r.wf(),
            r.spec_t_count() == t_count,
            r.spec_lengths() == lengths@,
            forall|t: int, d: Direction, t2: int|
                0 <= t < t_count
                    ==> (#[trigger] r.allows(t, d, t2) <==> 0 <= t2 < t_count && listed(
                    data@,
                    offsets@,
                    lengths@,
                    r.lookup(t, d),
                    t2,
                )),
    {
        let mut masks: Vec<PatternBitSet> = Vec::new();
        let mut d_idx: usize = 0;
        while d_idx < 4
            invariant
                d_idx <= 4,
                adjacency_in_bounds(data@, offsets@, lengths@, t_count as int),
                masks@.len() == d_idx * t_count,
                forall|k: int|
                    0 <= k < masks@.len()
                        ==> (#[trigger] masks@[k]).wf() && masks@[k].spec_t_count()
                        == t_count,
                forall|k: int, t2: int|
                    0 <= k < masks@.len() ==> (#[trigger] masks@[k].has(t2) <==> 0 <= t2 < t_count
                        && listed(data@, offsets@, lengths@, k, t2)),
            decreases 4 - d_idx,
        {
            let mut t_idx: usize = 0;
            while t_idx < t_count
                invariant
                    d_idx < 4,
                    t_idx <= t_count,
                    adjacency_in_bounds(data@, offsets@, lengths@, t_count as int),
                    masks@.len() == d_idx * t_count + t_idx,
                    forall|k: int|
                        0 <= k < masks@.len() ==> (#[trigger] masks@[k]).wf()
                            && masks@[k].spec_t_count() == t_count,
                    forall|k: int, t2: int|
                        0 <= k < masks@.len() ==> (#[trigger] masks@[k].has(t2) <==> 0 <= t2
                            < t_count && listed(data@, offsets@, lengths@, k, t2)),
                decreases t_count - t_idx,
            {
                let mut bitset = PatternBitSet::new(t_count);
                let total = lengths.len();
                assert(total == 4 * t_count);
                assert(d_idx * t_count + t_idx < 4 * t_count && d_idx * t_count <= 4 * t_count)
                    by (nonlinear_arith)
                    requires
                        d_idx < 4,
                        t_idx < t_count,
                ;
                let lookup_idx: usize = d_idx * t_count + t_idx;
                let start: usize = offsets[lookup_idx] as usize;
                let len: usize = lengths[lookup_idx] as usize;
                let end: usize = start + len;
                let mut m: usize = start;
                while m < end
                    invariant
                        start <= m <= end <= data@.len(),
                        bitset.wf(),
                        bitset.spec_t_count() == t_count,
                        forall|t2: int|
                            #[trigger] bitset.has(t2) <==> 0 <= t2 < t_count && exists|j: int|
                                start <= j < m && #[trigger] data@[j] == t2,
                    decreases end - m,
                {
                    let id: i32 = data[m];
                    let ghost before = bitset;
                    if id >= 0 {
                        bitset.set(PatternIndex { base: id as usize });
                    }
                    proof {
                        assert forall|t2: int|
                            #[trigger] bitset.has(t2) <==> 0 <= t2 < t_count && exists|j: int|
                                start <= j < m + 1 && #[trigger] data@[j] == t2 by {
                            if bitset.has(t2) {
                                if before.has(t2) {
                                    let j = choose|j: int| start <= j < m && #[trigger] data@[j]
                                        == t2;
                                    assert(start <= j < m + 1 && data@[j] == t2);
                                } else {
                                    assert(data@[m as int] == t2);
                                }
                            }
                            if 0 <= t2 < t_count && exists|j: int|
                                start <= j < m + 1 && #[trigger] data@[j] == t2 {
                                let j = choose|j: int|
                                    start <= j < m + 1 && #[trigger] data@[j] == t2;
                                if j < m {
                                    assert(before.has(t2));
                                }
                            }
                        }
                    }
                    m += 1;
                }
                proof {
                    assert forall|t2: int|
                        #[trigger] bitset.has(t2) <==> 0 <= t2 < t_count && listed(
                            data@,
                            offsets@,
                            lengths@,
                            lookup_idx as int,
                            t2,
                        ) by {
                        if bitset.has(t2) {
                            let j = choose|j: int| start <= j < end && #[trigger] data@[j] == t2;
                            assert(offsets@[lookup_idx as int] <= j < offsets@[lookup_idx as int]
                                + lengths@[lookup_idx as int] && data@[j] == t2);
                        }
                    }
                }
                masks.push(bitset);
                t_idx += 1;
            }
            assert(d_idx * t_count + t_count == (d_idx + 1) * t_count) by (nonlinear_arith);
            d_idx += 1;
        }
        Self { lengths, t_count, masks }
    }

    /// Size of the pattern vocabulary.
    pub fn t_count(&self) -> (r: usize)
        ensures
            r == self.spec_t_count(),
    {
        self.t_count
    }

    /// Position of a pattern and direction in the direction-major tables.
    #[inline(always)]
    pub fn get_lookup_idx(&self, pattern: PatternIndex, direction: Direction) -> (r: usize)
        requires
            self.wf(),
            pattern.base < self.spec_t_count(),
        ensures
            r == self.lookup(pattern.base as int, direction),
            r < 4 * self.spec_t_count(),
    {
        let d_val = direction.index();
        let total = self.lengths.len();
        assert(total == 4 * self.t_count);
        assert(d_val * self.t_count + pattern.base < 4 * self.t_count && d_val * self.t_count <= 4
            * self.t_count) by (nonlinear_arith)
            requires
                d_val < 4,
                pattern.base < self.t_count,
        ;
        let result = d_val * self.t_count + pattern.base;
        result
    }

    /// The allowed-neighbour set of a pattern towards a direction.
    pub fn get_mask(&self, pattern: PatternIndex, direction: Direction) -> (r: &PatternBitSet)
        requires
            self.wf(),
            pattern.base < self.spec_t_count(),
        ensures
            *r == self.spec_mask(pattern.base as int, direction),
            r.wf(),
            r.spec_t_count() == self.spec_t_count(),
    {
        let idx = self.get_lookup_idx(pattern, direction);
        let mask = &self.masks[idx];
        mask
    }

    /// The recorded number of patterns allowed next to a pattern on one side.
    pub fn get_compatible_count(&self, pattern: PatternIndex, direction: Direction) -> (r: i32)
        requires
            self.wf(),
            pattern.base < self.spec_t_count(),
        ensures
            r == self.count(pattern.base as int, direction),
    {
        let idx = self.get_lookup_idx(pattern, direction);
        let count = self.lengths[idx];
        count
    }

    /// Appends to `out`, in ascending order, every pattern allowed next to
    /// `pattern` on its side `direction`.
    pub fn for_each_compatible_pattern(
        &self,
        pattern: PatternIndex,
        direction: Direction,
        out: &mut Vec<PatternIndex>,
    )
        requires
            self.wf(),
            pattern.base < self.spec_t_count(),
        ensures
            final(out)@ == old(out)@ + patterns_in(
                |t2: int| self.allows(pattern.base as int, direction, t2),
                0,
                self.spec_t_count(),
            ),
    {
        let mask = self.get_mask(pattern, direction);
        let ghost f = |t2: int| self.allows(pattern.base as int, direction, t2);
        let ghost start = out@;
        let words = mask.data.len();
        let mut w_idx: usize = 0;
        proof {
            assert(start + patterns_in(f, 0, 0) =~= start);
        }
        while w_idx < words
            invariant
                w_idx <= words,
                self.wf(),
                pattern.base < self.spec_t_count(),
                *mask == self.spec_mask(pattern.base as int, direction),
                mask.wf(),
                mask.spec_t_count() == self.spec_t_count(),
                words == mask.data@.len(),
                f == (|t2: int| self.allows(pattern.base as int, direction, t2)),
                out@ == start + patterns_in(f, 0, w_idx * 64),
            decreases words - w_idx,
        {
            let word = mask.data[w_idx];
            let base = w_idx * 64;
            append_set_bits(word, base, self.t_count, out);
            proof {
                let h = |t: int| t < self.t_count && crate::bits::bit(word, (t - base) as u64);
                lemma_patterns_ext(h, f, base as int, base + 64);
                lemma_patterns_split(f, 0, base as int, base + 64);
                assert(out@ =~= start + patterns_in(f, 0, base + 64));
            }
            w_idx += 1;
        }
        proof {
            if words * 64 > self.t_count {
                lemma_patterns_none(f, self.t_count as int, words * 64);
                lemma_patterns_split(f, 0, self.t_count as int, words * 64);
                assert(patterns_in(f, 0, self.t_count as int) + Seq::<PatternIndex>::empty()
                    =~= patterns_in(f, 0, self.t_count as int));
            } else {
                assert(words * 64 == self.t_count);
            }
        }
    }
}

} // verus!
