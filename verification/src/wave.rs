//! The wave: for every cell, the set of patterns that are still candidates.
//!
//! Each cell owns `ceil(t_count / 64)` consecutive words; pattern `t` is bit
//! `t % 64` of word `t / 64` of its cell. Bits at positions from `t_count` on
//! are always clear.

use crate::bits::{
    bit, count_true, lemma_and_ones, lemma_bit_clear, lemma_bit_ones, lemma_bit_test,
    lemma_bit_zero, lemma_flat_index, lemma_flat_index_injective, lemma_low_mask,
    lemma_lowest_bit, lemma_split_index, lemma_vec_len_bound, low_mask, words_for,
};
use crate::cell::CellIndex;
use crate::entropy_tracker::EntropyTracker;
use crate::pattern_bitset::{
    append_set_bits, lemma_patterns_ext, lemma_patterns_none, lemma_patterns_split, patterns_in,
};
use crate::pattern_collection::PatternIndex;
use crate::wfc_model::WaveSnapshot;
use vstd::prelude::*;

verus! {

/// Word `w` of a cell in wave words laid out for `t_count` patterns.
pub open spec fn word_at(data: Seq<u64>, t_count: int, cell: int, w: int) -> u64 {
    data[cell * words_for(t_count) + w]
}

/// Bit `p` of a cell, counted over all the words of the cell.
pub open spec fn raw_bit(data: Seq<u64>, t_count: int, cell: int, p: int) -> bool {
    bit(word_at(data, t_count, cell, p / 64), (p % 64) as u64)
}

/// Whether pattern `t` is a candidate of `cell` in the given wave words.
pub open spec fn data_has(data: Seq<u64>, t_count: int, cell: int, t: int) -> bool {
    0 <= t < t_count && raw_bit(data, t_count, cell, t)
}

/// Wave words of the right length whose bits beyond the vocabulary are clear.
pub open spec fn data_wf(data: Seq<u64>, n_cells: int, t_count: int) -> bool {
    &&& data.len() == n_cells * words_for(t_count)
    &&& forall|cell: int, p: int|
        0 <= cell < n_cells && t_count <= p < words_for(t_count) * 64 ==> !#[trigger] raw_bit(
            data,
            t_count,
            cell,
            p,
        )
}

/// Word `w` of a cell in which every pattern is a candidate.
pub open spec fn full_word(t_count: int, w: int) -> u64 {
    if w == words_for(t_count) - 1 && t_count % 64 != 0 {
        low_mask((t_count % 64) as u64)
    } else {
        0xffff_ffff_ffff_ffffu64
    }
}

/// The wave words in which every pattern is a candidate of every cell.
pub open spec fn full_data(n_cells: int, t_count: int) -> Seq<u64> {
    Seq::new(
        (n_cells * words_for(t_count)) as nat,
        |k: int| full_word(t_count, k % words_for(t_count)),
    )
}

/// In the full wave every pattern is a candidate and the padding is clear.
pub proof fn lemma_full_data(n_cells: int, t_count: int)
    requires
        0 <= n_cells,
        0 <= t_count,
    ensures
        data_wf(full_data(n_cells, t_count), n_cells, t_count),
        forall|cell: int, t: int|
            0 <= cell < n_cells && 0 <= t < t_count ==> #[trigger] data_has(
                full_data(n_cells, t_count),
                t_count,
                cell,
                t,
            ),
{
    let wpc = words_for(t_count);
    let data = full_data(n_cells, t_count);
    assert(n_cells * wpc >= 0) by (nonlinear_arith)
        requires
            n_cells >= 0,
            wpc >= 0,
    ;
    assert forall|cell: int, p: int| 0 <= cell < n_cells && 0 <= p < wpc * 64 implies (
    #[trigger] raw_bit(data, t_count, cell, p) <==> p < t_count) by {
        let w = p / 64;
        lemma_flat_index(cell, n_cells, w, wpc);
        assert(data[cell * wpc + w] == full_word(t_count, w));
        let c = (p % 64) as u64;
        if w == wpc - 1 && t_count % 64 != 0 {
            lemma_low_mask((t_count % 64) as u64, c);
        } else {
            lemma_bit_ones(c);
        }
    }
}

/// The candidate sets of all cells, packed into 64-bit words.
#[derive(Clone)]
pub struct Wave {
    pub(crate) data: Vec<u64>,
    pub(crate) t_count: usize,
    pub(crate) words_per_cell: usize,
    pub(crate) n_cells: usize,
}

/// Position of a word in the wave.
#[derive(Copy, Clone, Debug)]
pub struct WaveIndex {
    pub base: usize,
}

impl View for Wave {
    type V = Seq<u64>;

    /// The words of the wave, cell after cell.
    open(crate) spec fn view(&self) -> Seq<u64> {
        self.data@
    }
}

impl Wave {
    /// Size of the pattern vocabulary.
    pub open(crate) spec fn spec_t_count(&self) -> int {
        self.t_count as int
    }

    /// Number of cells.
    pub open(crate) spec fn spec_n_cells(&self) -> int {
        self.n_cells as int
    }

    /// The words are laid out for the wave's own size, with clear padding.
    pub open(crate) spec fn wf(&self) -> bool {
        &&& self.words_per_cell == words_for(self.t_count as int)
        &&& data_wf(self.data@, self.n_cells as int, self.t_count as int)
    }

    /// Whether pattern `t` is a candidate of `cell`.
    pub open spec fn has(&self, cell: int, t: int) -> bool {
        data_has(self@, self.spec_t_count(), cell, t)
    }

    /// Number of candidates of `cell`.
    pub open spec fn popcount(&self, cell: int) -> int {
        count_true(|t: int| self.has(cell, t), self.spec_t_count())
    }

    /// A wave in which every pattern is a candidate of every cell.
    pub fn new(n_cells: usize, t_count: usize) -> (r: Self)
        requires
            n_cells * words_for(t_count as int) <= usize::MAX,
        ensures
            r.wf(),
            r.spec_n_cells() == n_cells,
            r.spec_t_count() == t_count,
            r@ == full_data(n_cells as int, t_count as int),
    {
        let words_per_cell: usize = t_count / 64 + if t_count % 64 != 0 {
            1
        } else {
            0
        };
        let total: usize = n_cells * words_per_cell;
        let mut data: Vec<u64> = Vec::with_capacity(total);
        let mut k: usize = 0;
        while k < total
            invariant
                k <= total,
                data@.len() == k,
            decreases total - k,
        {
            data.push(0u64);
            k += 1;
        }
        let mut wave = Self { data, t_count, words_per_cell, n_cells };
        wave.fill_words(1);
        proof {
            lemma_full_data(n_cells as int, t_count as int);
        }
        wave
    }

    /// Position of the word that holds `pattern` for `cell`.
    #[inline(always)]
    pub fn get_index(&self, cell: CellIndex, pattern: PatternIndex) -> (r: WaveIndex)
        requires
            self.wf(),
            cell.base < self.spec_n_cells(),
            pattern.base < self.spec_t_count(),
        ensures
            r.base == cell.base * words_for(self.spec_t_count()) + pattern.base / 64,
            r.base < self@.len(),
    {
        proof {
            lemma_vec_len_bound(&self.data);
            lemma_split_index(pattern.base);
            lemma_flat_index(
                cell.base as int,
                self.n_cells as int,
                pattern.base as int / 64,
                self.words_per_cell as int,
            );
        }
        let base = (cell.base * self.words_per_cell) + (pattern.base >> 6);
        WaveIndex { base }
    }

    /// Whether `pattern` is still a candidate of `cell`. A pattern outside the
    /// vocabulary never is.
    #[inline(always)]
    pub fn is_candidate(&self, cell: CellIndex, pattern: PatternIndex) -> (r: bool)
        requires
            self.wf(),
            cell.base < self.spec_n_cells(),
        ensures
            r == self.has(cell.base as int, pattern.base as int),
    {
        if pattern.base >= self.t_count {
            return false;
        }
        let word_idx = self.get_index(cell, pattern).base;
        let b: usize = pattern.base & 63;
        proof {
            lemma_split_index(pattern.base);
            lemma_bit_test(self.data@[word_idx as int], b as u64);
        }
        (self.data[word_idx] & (1u64 << (b as u64))) != 0
    }

    /// Removes `pattern` from the candidates of `cell`.
    #[inline(always)]
    pub fn eliminate_candidate(&mut self, cell: CellIndex, pattern: PatternIndex)
        requires
            old(self).wf(),
            cell.base < old(self).spec_n_cells(),
            pattern.base < old(self).spec_t_count(),
        ensures
            final(self).wf(),
            final(self).spec_n_cells() == old(self).spec_n_cells(),
            final(self).spec_t_count() == old(self).spec_t_count(),
            forall|c: int, t: int|
                0 <= c < old(self).spec_n_cells() ==> (#[trigger] final(self).has(c, t) <==> old(
                    self,
                ).has(c, t) && !(c == cell.base && t == pattern.base)),
    {
        let word_idx = self.get_index(cell, pattern).base;
        let b: usize = pattern.base & 63;
        let w: u64 = self.data[word_idx];
        proof {
            lemma_split_index(pattern.base);
        }
        self.data[word_idx] = w & !(1u64 << (b as u64));
        proof {
            let wpc = self.words_per_cell as int;
            let tc = self.t_count as int;
            assert forall|c: int, p: int| 0 <= c < self.n_cells && 0 <= p < wpc * 64 implies (
            #[trigger] raw_bit(self.data@, tc, c, p) <==> raw_bit(old(self).data@, tc, c, p) && !(c
                == cell.base && p == pattern.base)) by {
                lemma_flat_index(c, self.n_cells as int, p / 64, wpc);
                if c * wpc + p / 64 == word_idx as int {
                    lemma_flat_index_injective(
                        c,
                        p / 64,
                        cell.base as int,
                        pattern.base as int / 64,
                        wpc,
                    );
                    lemma_bit_clear(w, b as u64, (p % 64) as u64);
                }
            }
            assert forall|c: int, t: int| 0 <= c < self.n_cells implies (#[trigger] self.has(c, t)
                <==> old(self).has(c, t) && !(c == cell.base && t == pattern.base)) by {
                if 0 <= t < tc {
                    assert(raw_bit(self.data@, tc, c, t) <==> raw_bit(old(self).data@, tc, c, t)
                        && !(c == cell.base && t == pattern.base));
                }
            }
            assert forall|c: int, p: int| 0 <= c < self.n_cells && tc <= p < wpc * 64 implies !
            #[trigger] raw_bit(self.data@, tc, c, p) by {
                assert(!raw_bit(old(self).data@, tc, c, p));
            }
        }
    }

    /// The contiguous words of the wave, cell after cell.
    #[inline(always)]
    pub fn as_ptr(&self) -> (r: &[u64])
        ensures
            r@ == self@,
    {
        self.data.as_slice()
    }

    /// Sets every word to zero, or to the word of a cell in which every
    /// pattern is a candidate.
    fn fill_words(&mut self, value: u8)
        requires
            old(self).words_per_cell == words_for(old(self).t_count as int),
            old(self).data@.len() == old(self).n_cells * old(self).words_per_cell,
        ensures
            final(self).t_count == old(self).t_count,
            final(self).n_cells == old(self).n_cells,
            final(self).words_per_cell == old(self).words_per_cell,
            value == 0 ==> final(self).data@ == Seq::new(old(self).data@.len(), |k: int| 0u64),
            value != 0 ==> final(self).data@ == full_data(
                old(self).n_cells as int,
                old(self).t_count as int,
            ),
    {
        let total = self.data.len();
        let word: u64 = if value == 0 {
            0
        } else {
            u64::MAX
        };
        let mut k: usize = 0;
        while k < total
            invariant
                k <= total,
                self.data@.len() == total,
                self.t_count == old(self).t_count,
                self.n_cells == old(self).n_cells,
                self.words_per_cell == old(self).words_per_cell,
                forall|j: int| 0 <= j < k ==> self.data@[j] == word,
            decreases total - k,
        {
            self.data[k] = word;
            k += 1;
        }
        if value == 0 {
            assert(self.data@ =~= Seq::new(old(self).data@.len(), |k: int| 0u64));
            return ;
        }
        let remainder: usize = self.t_count % 64;
        let ghost wpc = self.words_per_cell as int;
        let ghost tc = self.t_count as int;
        if remainder != 0 {
            proof {
                lemma_low_mask(remainder as u64, 0);
            }
            let last_word_mask: u64 = (1u64 << (remainder as u64)) - 1;
            let mut c: usize = 0;
            proof {
                assert forall|cell: int, w: int|
                    0 <= cell < self.n_cells && 0 <= w < wpc implies #[trigger] word_at(
                    self.data@,
                    tc,
                    cell,
                    w,
                ) == 0xffff_ffff_ffff_ffffu64 by {
                    lemma_flat_index(cell, self.n_cells as int, w, wpc);
                }
            }
            while c < self.n_cells
                invariant
                    c <= self.n_cells,
                    remainder == tc % 64,
                    remainder != 0,
                    last_word_mask == low_mask(remainder as u64),
                    wpc == words_for(tc),
                    wpc == self.words_per_cell,
                    tc == self.t_count,
                    self.t_count == old(self).t_count,
                    self.n_cells == old(self).n_cells,
                    self.words_per_cell == old(self).words_per_cell,
                    self.data@.len() == self.n_cells * wpc,
                    forall|cell: int, w: int|
                        0 <= cell < self.n_cells && 0 <= w < wpc ==> #[trigger] word_at(
                            self.data@,
                            tc,
                            cell,
                            w,
                        ) == if cell < c {
                            full_word(tc, w)
                        } else {
                            0xffff_ffff_ffff_ffffu64
                        },
                decreases self.n_cells - c,
            {
                proof {
                    lemma_vec_len_bound(&self.data);
                    lemma_flat_index(c as int, self.n_cells as int, wpc - 1, wpc);
                    assert((c + 1) * wpc == c * wpc + wpc) by (nonlinear_arith);
                    lemma_and_ones(last_word_mask);
                    assert(word_at(self.data@, tc, c as int, wpc - 1) == 0xffff_ffff_ffff_ffffu64);
                }
                let ghost before = self.data@;
                let last_word_idx: usize = ((c + 1) * self.words_per_cell) - 1;
                assert(last_word_idx == c * wpc + (wpc - 1));
                let w0: u64 = self.data[last_word_idx];
                self.data[last_word_idx] = w0 & last_word_mask;
                proof {
                    assert forall|cell: int, w: int|
                        0 <= cell < self.n_cells && 0 <= w < wpc implies #[trigger] word_at(
                        self.data@,
                        tc,
                        cell,
                        w,
                    ) == if cell < c + 1 {
                        full_word(tc, w)
                    } else {
                        0xffff_ffff_ffff_ffffu64
                    } by {
                        lemma_flat_index(cell, self.n_cells as int, w, wpc);
                        assert(word_at(before, tc, cell, w) == if cell < c {
                            full_word(tc, w)
                        } else {
                            0xffff_ffff_ffff_ffffu64
                        });
                        if cell * wpc + w == last_word_idx as int {
                            lemma_flat_index_injective(cell, w, c as int, wpc - 1, wpc);
                        }
                    }
                }
                c += 1;
            }
        }
        proof {
            let full = full_data(self.n_cells as int, tc);
            assert(self.data@.len() == full.len());
            assert forall|k: int| 0 <= k < self.data@.len() implies self.data@[k] == full[k] by {
                let cell = k / wpc;
                let w = k % wpc;
                assert(wpc > 0) by {
                    if wpc <= 0 {
                        assert(self.n_cells * wpc <= 0) by (nonlinear_arith)
                            requires
                                wpc <= 0,
                                self.n_cells >= 0,
                        ;
                    }
                }
                vstd::arithmetic::div_mod::lemma_fundamental_div_mod(k, wpc);
                assert(k == wpc * cell + w);
                assert(wpc * cell == cell * wpc) by (nonlinear_arith);
                assert(0 <= cell < self.n_cells) by (nonlinear_arith)
                    requires
                        0 <= k < self.n_cells * wpc,
                        k == cell * wpc + w,
                        0 <= w < wpc,
                ;
                if remainder != 0 {
                    assert(word_at(self.data@, tc, cell, w) == full_word(tc, w));
                } else {
                    assert(full_word(tc, w) == 0xffff_ffff_ffff_ffffu64);
                }
            }
            assert(self.data@ =~= full);
        }
    }

    /// Makes every pattern a candidate of every cell, or none where `value` is zero.
    pub fn fill(&mut self, value: u8)
        requires
            old(self).wf(),
        ensures
            final(self).wf(),
            final(self).spec_n_cells() == old(self).spec_n_cells(),
            final(self).spec_t_count() == old(self).spec_t_count(),
            value == 0 ==> final(self)@ == Seq::new(old(self)@.len(), |k: int| 0u64),
            value == 0 ==> forall|c: int, t: int|
                0 <= c < old(self).spec_n_cells() ==> !#[trigger] final(self).has(c, t),
            value != 0 ==> final(self)@ == full_data(
                old(self).spec_n_cells(),
                old(self).spec_t_count(),
            ),
            value != 0 ==> forall|c: int, t: int|
                0 <= c < old(self).spec_n_cells() && 0 <= t < old(self).spec_t_count()
                    ==> #[trigger] final(self).has(c, t),
    {
        self.fill_words(value);
        proof {
            let tc = self.t_count as int;
            let wpc = self.words_per_cell as int;
            if value == 0 {
                assert forall|c: int, p: int| 0 <= c < self.n_cells && 0 <= p < wpc * 64 implies !
                #[trigger] raw_bit(self.data@, tc, c, p) by {
                    lemma_flat_index(c, self.n_cells as int, p / 64, wpc);
                    lemma_bit_zero((p % 64) as u64);
                }
                assert forall|c: int, t: int| 0 <= c < self.n_cells implies !#[trigger] self.has(
                    c,
                    t,
                ) by {
                    if 0 <= t < tc {
                        assert(!raw_bit(self.data@, tc, c, t));
                    }
                }
            } else {
                lemma_full_data(self.n_cells as int, tc);
            }
        }
    }

    /// A copy of the words of the wave.
    pub fn clone_data(&self) -> (r: Vec<u64>)
        ensures
            r@ == self@,
    {
        let r = self.data.clone();
        assert(r@ =~= self.data@);
        r
    }

    /// Replaces the words of the wave by those of a snapshot.
    pub fn set_data(&mut self, s: &WaveSnapshot)
        requires
            old(self).wf(),
            data_wf(s.spec_wave_data(), old(self).spec_n_cells(), old(self).spec_t_count()),
        ensures
            final(self).wf(),
            final(self).spec_n_cells() == old(self).spec_n_cells(),
            final(self).spec_t_count() == old(self).spec_t_count(),
            final(self)@ == s.spec_wave_data(),
    {
        let total = self.data.len();
        let mut k: usize = 0;
        while k < total
            invariant
                k <= total,
                total == self.data@.len(),
                total == s.wave_data@.len(),
                self.t_count == old(self).t_count,
                self.n_cells == old(self).n_cells,
                self.words_per_cell == old(self).words_per_cell,
                forall|j: int| 0 <= j < k ==> self.data@[j] == s.wave_data@[j],
            decreases total - k,
        {
            self.data[k] = s.wave_data[k];
            k += 1;
        }
        assert(self.data@ =~= s.wave_data@);
    }

    /// The lowest candidate of a cell, or `-1` where the cell has none.
    pub fn find_remaining_pattern(&self, i: CellIndex) -> (r: i32)
        requires
            self.wf(),
            i.base < self.spec_n_cells(),
            self.spec_t_count() <= i32::MAX,
        ensures
            -1 <= r < self.spec_t_count(),
            r == -1 <==> forall|t: int| !self.has(i.base as int, t),
            r >= 0 ==> self.has(i.base as int, r as int),
            forall|t: int| 0 <= t < r ==> !self.has(i.base as int, t),
    {
        let ghost tc = self.t_count as int;
        let ghost wpc = self.words_per_cell as int;
        proof {
            lemma_vec_len_bound(&self.data);
        }
        assert(i.base * self.words_per_cell <= self.n_cells * self.words_per_cell)
            by (nonlinear_arith)
            requires
                i.base < self.n_cells,
                self.words_per_cell >= 0,
        ;
        let start: usize = i.base * self.words_per_cell;
        let mut w: usize = 0;
        while w < self.words_per_cell
            invariant
                w <= self.words_per_cell,
                self.wf(),
                i.base < self.n_cells,
                tc == self.t_count,
                wpc == self.words_per_cell,
                tc <= i32::MAX,
                start == i.base * wpc,
                forall|p: int| 0 <= p < w * 64
                    ==> !#[trigger] raw_bit(self.data@, tc, i.base as int, p),
            decreases self.words_per_cell - w,
        {
            proof {
                lemma_vec_len_bound(&self.data);
                lemma_flat_index(i.base as int, self.n_cells as int, w as int, wpc);
            }
            let word: u64 = self.data[start + w];
            if word != 0 {
                proof {
                    lemma_lowest_bit(word);
                }
                let b: usize = word.trailing_zeros() as usize;
                let ghost p: int = w * 64 + b;
                proof {
                    assert(p / 64 == w as int && p % 64 == b as int);
                    assert(raw_bit(self.data@, tc, i.base as int, p));
                    assert(p < tc);
                    assert forall|t: int| 0 <= t < p implies !self.has(i.base as int, t) by {
                        if t >= w * 64 {
                            assert(t / 64 == w as int);
                            assert(!bit(word, (t % 64) as u64));
                        } else {
                            assert(!raw_bit(self.data@, tc, i.base as int, t));
                        }
                    }
                    assert(self.has(i.base as int, p));
                }
                let pattern_id: usize = w * 64 + b;
                return pattern_id as i32;
            }
            proof {
                assert forall|p: int| 0 <= p < (w + 1) * 64 implies !#[trigger] raw_bit(
                    self.data@,
                    tc,
                    i.base as int,
                    p,
                ) by {
                    if p >= w * 64 {
                        assert(p / 64 == w as int);
                        lemma_bit_zero((p % 64) as u64);
                    }
                }
            }
            w += 1;
        }
        proof {
            assert forall|t: int| !self.has(i.base as int, t) by {
                if 0 <= t < tc {
                    assert(!raw_bit(self.data@, tc, i.base as int, t));
                }
            }
        }
        -1
    }

    /// Appends to `out`, in ascending order, every candidate of `cell` other
    /// than `chosen_t`: the patterns to ban so that the cell collapses to
    /// `chosen_t`. The wave itself is not changed.
    pub fn collapse_to_pattern(
        &self,
        cell: CellIndex,
        chosen_t: PatternIndex,
        out: &mut Vec<PatternIndex>,
    )
        requires
            self.wf(),
            cell.base < self.spec_n_cells(),
        ensures
            final(out)@ == old(out)@ + patterns_in(
                |t: int| self.has(cell.base as int, t) && t != chosen_t.base,
                0,
                self.spec_t_count(),
            ),
    {
        let word_idx_of_chosen: usize = chosen_t.base >> 6;
        let bit_in_word: usize = chosen_t.base & 63;
        let ghost tc = self.t_count as int;
        let ghost wpc = self.words_per_cell as int;
        let ghost f = |t: int| self.has(cell.base as int, t) && t != chosen_t.base;
        let ghost begin = out@;
        proof {
            lemma_split_index(chosen_t.base);
            assert(begin + patterns_in(f, 0, 0) =~= begin);
        }
        proof {
            lemma_vec_len_bound(&self.data);
        }
        assert(cell.base * self.words_per_cell <= self.n_cells * self.words_per_cell)
            by (nonlinear_arith)
            requires
                cell.base < self.n_cells,
                self.words_per_cell >= 0,
        ;
        let start_idx: usize = cell.base * self.words_per_cell;
        let mut w_inner: usize = 0;
        while w_inner < self.words_per_cell
            invariant
                w_inner <= self.words_per_cell,
                self.wf(),
                cell.base < self.n_cells,
                tc == self.t_count,
                wpc == self.words_per_cell,
                start_idx == cell.base * wpc,
                word_idx_of_chosen == chosen_t.base / 64,
                bit_in_word == chosen_t.base % 64,
                f == (|t: int| self.has(cell.base as int, t) && t != chosen_t.base),
                out@ == begin + patterns_in(f, 0, w_inner * 64),
            decreases self.words_per_cell - w_inner,
        {
            proof {
                lemma_vec_len_bound(&self.data);
                lemma_flat_index(cell.base as int, self.n_cells as int, w_inner as int, wpc);
            }
            let current_idx: usize = start_idx + w_inner;
            let word: u64 = self.data[current_idx];
            let mut to_ban_mask: u64 = word;
            if w_inner == word_idx_of_chosen {
                to_ban_mask = to_ban_mask & !(1u64 << (bit_in_word as u64));
            }
            let base: usize = w_inner * 64;
            append_set_bits(to_ban_mask, base, self.t_count, out);
            proof {
                let h = |t: int| t < self.t_count && bit(to_ban_mask, (t - base) as u64);
                assert forall|t: int| base <= t < base + 64 implies #[trigger] h(t) == f(t) by {
                    assert(t / 64 == w_inner as int);
                    assert((t - base) == t % 64);
                    if w_inner == word_idx_of_chosen {
                        lemma_bit_clear(word, bit_in_word as u64, (t % 64) as u64);
                    }
                }
                lemma_patterns_ext(h, f, base as int, base + 64);
                lemma_patterns_split(f, 0, base as int, base + 64);
                assert(out@ =~= begin + patterns_in(f, 0, base + 64));
            }
            w_inner += 1;
        }
        proof {
            if wpc * 64 > tc {
                lemma_patterns_none(f, tc, wpc * 64);
                lemma_patterns_split(f, 0, tc, wpc * 64);
                assert(patterns_in(f, 0, tc) + Seq::<PatternIndex>::empty() =~= patterns_in(f, 0, tc));
            }
        }
    }

    /// The candidates of `cell`, in ascending order.
    pub fn candidates(&self, cell: CellIndex) -> (r: Vec<PatternIndex>)
        requires
            self.wf(),
            cell.base < self.spec_n_cells(),
        ensures
            r@ == patterns_in(|t: int| self.has(cell.base as int, t), 0, self.spec_t_count()),
    {
        let mut out: Vec<PatternIndex> = Vec::new();
        // no pattern of the vocabulary is left out by a choice beyond it
        self.collapse_to_pattern(cell, PatternIndex { base: self.t_count }, &mut out);
        proof {
            lemma_patterns_ext(
                |t: int| self.has(cell.base as int, t) && t != self.t_count,
                |t: int| self.has(cell.base as int, t),
                0,
                self.spec_t_count(),
            );
            assert(Seq::<PatternIndex>::empty() + out@ =~= out@);
        }
        out
    }

    /// Whether the tracker still counts the whole vocabulary for `cell`.
    pub fn is_fully_undetermined(&self, cell: CellIndex, entropy_tracker: &EntropyTracker) -> (r: bool)
        requires
            cell.base < entropy_tracker.counts().len(),
        ensures
            r == (entropy_tracker.counts()[cell.base as int] == self.spec_t_count()),
    {
        let current_count = entropy_tracker.possible_pattern_count(cell);
        current_count >= 0 && current_count as usize == self.t_count
    }
}

} // verus!
