//! A fixed-size set of pattern indices, packed into 64-bit words low bit first.

use crate::bits::{
    bit, lemma_bit_clear, lemma_bit_set, lemma_bit_test, lemma_bit_zero, lemma_lowest_bit,
    lemma_split_index, words_for,
};
use crate::pattern_collection::PatternIndex;
use vstd::prelude::*;

verus! {

/// The patterns `t` with `lo <= t < hi` and `f(t)`, in ascending order.
pub open spec fn patterns_in(f: spec_fn(int) -> bool, lo: int, hi: int) -> Seq<PatternIndex>
    decreases hi - lo,
{
    if hi <= lo {
        Seq::empty()
    } else if f(hi - 1) {
        patterns_in(f, lo, hi - 1).push(PatternIndex { base: (hi - 1) as usize })
    } else {
        patterns_in(f, lo, hi - 1)
    }
}

/// Listing a range is listing its lower part and then its upper part.
pub proof fn lemma_patterns_split(f: spec_fn(int) -> bool, lo: int, mid: int, hi: int)
    requires
        lo <= mid <= hi,
    ensures
        patterns_in(f, lo, hi) == patterns_in(f, lo, mid) + patterns_in(f, mid, hi),
    decreases hi - mid,
{
    if hi == mid {
        assert(patterns_in(f, lo, mid) + Seq::<PatternIndex>::empty() =~= patterns_in(f, lo, mid));
    } else {
        lemma_patterns_split(f, lo, mid, hi - 1);
        if f(hi - 1) {
            let p = PatternIndex { base: (hi - 1) as usize };
            assert((patterns_in(f, lo, mid) + patterns_in(f, mid, hi - 1)).push(p) =~= patterns_in(
                f,
                lo,
                mid,
            ) + patterns_in(f, mid, hi - 1).push(p));
        }
    }
}

/// Two predicates that agree on a range list the same patterns there.
pub proof fn lemma_patterns_ext(f: spec_fn(int) -> bool, g: spec_fn(int) -> bool, lo: int, hi: int)
    requires
        forall|t: int| lo <= t < hi ==> #[trigger] f(t) == g(t),
    ensures
        patterns_in(f, lo, hi) == patterns_in(g, lo, hi),
    decreases hi - lo,
{
    if hi > lo {
        lemma_patterns_ext(f, g, lo, hi - 1);
    }
}

/// A range on which the predicate never holds lists nothing.
pub proof fn lemma_patterns_none(f: spec_fn(int) -> bool, lo: int, hi: int)
    requires
        forall|t: int| lo <= t < hi ==> !#[trigger] f(t),
    ensures
        patterns_in(f, lo, hi) == Seq::<PatternIndex>::empty(),
    decreases hi - lo,
{
    if hi > lo {
        lemma_patterns_none(f, lo, hi - 1);
    }
}

/// What a listing holds: exactly the indices of the range that satisfy the
/// predicate, each once, in strictly ascending order.
pub proof fn lemma_patterns_members(f: spec_fn(int) -> bool, lo: int, hi: int)
    requires
        0 <= lo,
        hi <= usize::MAX,
    ensures
        forall|k: int|
            0 <= k < patterns_in(f, lo, hi).len() ==> lo <= (#[trigger] patterns_in(
                f,
                lo,
                hi,
            )[k]).base < hi && f(patterns_in(f, lo, hi)[k].base as int),
        forall|a: int, b: int|
            0 <= a < b < patterns_in(f, lo, hi).len()
                ==> (#[trigger] patterns_in(f, lo, hi)[a]).base
                < (#[trigger] patterns_in(f, lo, hi)[b]).base,
        forall|t: int|
            lo <= t < hi && #[trigger] f(t) ==> patterns_in(f, lo, hi).contains(
                PatternIndex { base: t as usize },
            ),
    decreases hi - lo,
{
    if hi > lo {
        lemma_patterns_members(f, lo, hi - 1);
        let prev = patterns_in(f, lo, hi - 1);
        let cur = patterns_in(f, lo, hi);
        if f(hi - 1) {
            let p = PatternIndex { base: (hi - 1) as usize };
            assert(cur == prev.push(p));
            assert(cur[cur.len() - 1] == p);
            assert forall|t: int| lo <= t < hi && #[trigger] f(t) implies cur.contains(
                PatternIndex { base: t as usize },
            ) by {
                if t < hi - 1 {
                    let q = PatternIndex { base: t as usize };
                    assert(prev.contains(q));
                    let k = choose|k: int| 0 <= k < prev.len() && prev[k] == q;
                    assert(cur[k] == q);
                } else {
                    assert(cur[cur.len() - 1] == PatternIndex { base: t as usize });
                }
            }
        }
    }
}

/// Appends to `out`, in ascending order, every `base + c` below `limit` for which
/// bit `c` of `word` is set.
pub fn append_set_bits(word: u64, base: usize, limit: usize, out: &mut Vec<PatternIndex>)
    ensures
        final(out)@ == old(out)@ + patterns_in(
            |t: int| t < limit && bit(word, (t - base) as u64),
            base as int,
            base + 64,
        ),
{
    let ghost f = |t: int| t < limit && bit(word, (t - base) as u64);
    let ghost start = out@;
    let mut rest: u64 = word;
    let mut lo: usize = 0;
    proof {
        lemma_patterns_none(f, base as int, base as int);
        assert(start + Seq::<PatternIndex>::empty() =~= start);
    }
    while rest != 0
        invariant
            lo <= 64,
            f == (|t: int| t < limit && bit(word, (t - base) as u64)),
            forall|c: u64| c < 64 ==> #[trigger] bit(rest, c) == (c >= lo && bit(word, c)),
            out@ == start + patterns_in(f, base as int, base + lo),
        decreases 64 - lo,
    {
        proof {
            lemma_lowest_bit(rest);
        }
        let b: u32 = rest.trailing_zeros();
        assert(bit(rest, b as u64));
        assert(b >= lo);
        let ghost t: int = base + b;
        proof {
            // nothing between `lo` and `b` is set
            assert forall|u: int| base + lo <= u < base + b implies !#[trigger] f(u) by {
                let c = (u - base) as u64;
                assert(!bit(rest, c));
            }
            lemma_patterns_none(f, base + lo, base + b);
            lemma_patterns_split(f, base as int, base + lo, base + b);
            assert(patterns_in(f, base as int, base + lo) + Seq::<PatternIndex>::empty()
                =~= patterns_in(f, base as int, base + lo));
            assert(bit(word, (t - base) as u64));
        }
        if base < limit && (b as usize) < limit - base {
            out.push(PatternIndex { base: base + (b as usize) });
        }
        proof {
            lemma_bit_clear(rest, b as u64, b as u64);
            assert forall|c: u64| c < 64 implies
            #[trigger] bit(rest & !(1u64 << (b as u64)), c) == (c
                >= b + 1 && bit(word, c)) by {
                lemma_bit_clear(rest, b as u64, c);
            }
            assert(out@ =~= start + patterns_in(f, base as int, base + b + 1));
        }
        rest = rest & !(1u64 << (b as u64));
        lo = (b as usize) + 1;
    }
    proof {
        assert forall|u: int| base + lo <= u < base + 64 implies !#[trigger] f(u) by {
            let c = (u - base) as u64;
            lemma_bit_zero(c);
            assert(!bit(rest, c));
        }
        lemma_patterns_none(f, base + lo, base + 64);
        lemma_patterns_split(f, base as int, base + lo, base + 64);
        assert(patterns_in(f, base as int, base + lo) + Seq::<PatternIndex>::empty()
            =~= patterns_in(f, base as int, base + lo));
    }
}

/// A set of patterns of a vocabulary of `t_count` patterns.
#[derive(Clone)]
pub struct PatternBitSet {
    pub data: Vec<u64>,
    pub(crate) t_count: usize,
}

impl PatternBitSet {
    /// Size of the vocabulary the set ranges over.
    pub open(crate) spec fn spec_t_count(&self) -> int {
        self.t_count as int
    }

    /// The set holds one word for every 64 patterns of the vocabulary.
    pub open(crate) spec fn wf(&self) -> bool {
        self.data@.len() == words_for(self.spec_t_count())
    }

    /// Whether pattern `t` is in the set.
    pub open(crate) spec fn has(&self, t: int) -> bool {
        0 <= t < self.spec_t_count() && bit(self.data@[t / 64], (t % 64) as u64)
    }

    /// The empty set over a vocabulary of `t_count` patterns.
    pub fn new(t_count: usize) -> (r: Self)
        ensures
            r.wf(),
            r.spec_t_count() == t_count,
            forall|t: int| !r.has(t),
    {
        let words: usize = t_count / 64 + if t_count % 64 != 0 {
            1
        } else {
            0
        };
        let mut data: Vec<u64> = Vec::with_capacity(words);
        let mut i: usize = 0;
        while i < words
            invariant
                i <= words,
                data@.len() == i,
                forall|k: int| 0 <= k < i ==> data@[k] == 0u64,
            decreases words - i,
        {
            data.push(0u64);
            i += 1;
        }
        let r = Self { data, t_count };
        proof {
            assert forall|t: int| !r.has(t) by {
                if 0 <= t < t_count {
                    lemma_bit_zero((t % 64) as u64);
                }
            }
        }
        r
    }

    /// Size of the vocabulary the set ranges over.
    pub fn t_count(&self) -> (r: usize)
        ensures
            r == self.spec_t_count(),
    {
        self.t_count
    }

    /// Adds a pattern to the set. An index outside the vocabulary is ignored.
    pub fn set(&mut self, index: PatternIndex)
        requires
            old(self).wf(),
        ensures
            final(self).wf(),
            final(self).spec_t_count() == old(self).spec_t_count(),
            forall|t: int|
                final(self).has(t) == (old(self).has(t) || (t == index.base && index.base < old(
                    self,
                ).spec_t_count())),
    {
        if index.base < self.t_count {
            let word: usize = index.base >> 6;
            let b: usize = index.base & 63;
            proof {
                lemma_split_index(index.base);
            }
            let w: u64 = self.data[word];
            self.data[word] = w | (1u64 << (b as u64));
            proof {
                assert forall|t: int|
                    final(self).has(t) == (old(self).has(t) || t == index.base) by {
                    if 0 <= t < self.t_count {
                        if t / 64 == word as int {
                            lemma_bit_set(w, b as u64, (t % 64) as u64);
                        }
                    }
                }
            }
        }
    }

    /// Whether a pattern is in the set.
    pub fn contains(&self, index: PatternIndex) -> (r: bool)
        requires
            self.wf(),
        ensures
            r == self.has(index.base as int),
    {
        if index.base >= self.t_count {
            return false;
        }
        let word: usize = index.base >> 6;
        let b: usize = index.base & 63;
        proof {
            lemma_split_index(index.base);
            lemma_bit_test(self.data@[word as int], b as u64);
        }
        (self.data[word] & (1u64 << (b as u64))) != 0
    }
}

} // verus!
