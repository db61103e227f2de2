//! Facts about single bits of a 64-bit word, and counting over index ranges.

use vstd::prelude::*;

verus! {

/// Whether bit `b` of `w` is set (bits are numbered from the low end).
pub open spec fn bit(w: u64, b: u64) -> bool {
    (w >> b) & 1u64 == 1u64
}

/// Number of 64-bit words needed to hold `n` bits.
pub open spec fn words_for(n: int) -> int {
    (n + 63) / 64
}

/// Masking a word with a single bit tests that bit.
pub proof fn lemma_bit_test(w: u64, b: u64)
    requires
        b < 64,
    ensures
        ((w & (1u64 << b)) != 0) == bit(w, b),
{
    assert(((w & (1u64 << b)) != 0) == ((w >> b) & 1u64 == 1u64)) by (bit_vector)
        requires
            b < 64,
    ;
}

/// Or-ing a single bit into a word sets that bit and leaves the others.
pub proof fn lemma_bit_set(w: u64, b: u64, c: u64)
    requires
        b < 64,
        c < 64,
    ensures
        bit(w | (1u64 << b), c) == (c == b || bit(w, c)),
{
    assert((((w | (1u64 << b)) >> c) & 1u64 == 1u64) == (c == b || ((w >> c) & 1u64 == 1u64)))
        by (bit_vector)
        requires
            b < 64,
            c < 64,
    ;
}

/// Masking a single bit out of a word clears that bit and leaves the others.
pub proof fn lemma_bit_clear(w: u64, b: u64, c: u64)
    requires
        b < 64,
        c < 64,
    ensures
        bit(w & !(1u64 << b), c) == (c != b && bit(w, c)),
{
    assert((((w & !(1u64 << b)) >> c) & 1u64 == 1u64) == (c != b && ((w >> c) & 1u64 == 1u64)))
        by (bit_vector)
        requires
            b < 64,
            c < 64,
    ;
}

/// No bit of zero is set.
pub proof fn lemma_bit_zero(c: u64)
    requires
        c < 64,
    ensures
        !bit(0u64, c),
{
    assert(!(((0u64 >> c) & 1u64) == 1u64)) by (bit_vector)
        requires
            c < 64,
    ;
}

/// Every bit of the largest word is set.
pub proof fn lemma_bit_ones(c: u64)
    requires
        c < 64,
    ensures
        bit(0xffff_ffff_ffff_ffffu64, c),
{
    assert(((0xffff_ffff_ffff_ffffu64 >> c) & 1u64) == 1u64) by (bit_vector)
        requires
            c < 64,
    ;
}

/// The word with exactly the `r` lowest bits set, for `0 < r < 64`.
pub open spec fn low_mask(r: u64) -> u64 {
    ((1u64 << r) - 1) as u64
}

/// The low mask of `r` bits holds the bits below `r` and no other.
pub proof fn lemma_low_mask(r: u64, c: u64)
    requires
        0 < r < 64,
        c < 64,
    ensures
        (1u64 << r) >= 1,
        bit(low_mask(r), c) == (c < r),
{
    assert((1u64 << r) >= 1) by (bit_vector)
        requires
            r < 64,
    ;
    assert(((((1u64 << r) - 1) as u64 >> c) & 1u64 == 1u64) == (c < r)) by (bit_vector)
        requires
            0 < r < 64,
            c < 64,
    ;
}

/// A non-zero word has a lowest set bit, found by counting trailing zeros.
pub proof fn lemma_lowest_bit(w: u64)
    requires
        w != 0,
    ensures
        w.trailing_zeros() < 64,
        bit(w, w.trailing_zeros() as u64),
        forall|c: u64| c < w.trailing_zeros() ==> !bit(w, c),
{
    vstd::std_specs::bits::axiom_u64_trailing_zeros(w);
    assert forall|c: u64| c < w.trailing_zeros() implies !bit(w, c) by {
        assert((w >> c) & 1u64 == 0u64);
    }
}

/// Number of indices `i` in `[0, n)` with `f(i)`.
pub open spec fn count_true(f: spec_fn(int) -> bool, n: int) -> int
    decreases n,
{
    if n <= 0 {
        0
    } else {
        count_true(f, n - 1) + if f(n - 1) {
            1int
        } else {
            0int
        }
    }
}

/// A count over `[0, n)` lies between zero and `n`.
pub proof fn lemma_count_bounds(f: spec_fn(int) -> bool, n: int)
    requires
        0 <= n,
    ensures
        0 <= count_true(f, n) <= n,
    decreases n,
{
    if n > 0 {
        lemma_count_bounds(f, n - 1);
    }
}

/// Two predicates that agree on `[0, n)` have the same count there.
pub proof fn lemma_count_ext(f: spec_fn(int) -> bool, g: spec_fn(int) -> bool, n: int)
    requires
        forall|i: int| 0 <= i < n ==> #[trigger] f(i) == g(i),
    ensures
        count_true(f, n) == count_true(g, n),
    decreases n,
{
    if n > 0 {
        lemma_count_ext(f, g, n - 1);
    }
}

/// Switching exactly one index from true to false lowers the count by one.
pub proof fn lemma_count_remove(f: spec_fn(int) -> bool, g: spec_fn(int) -> bool, n: int, p: int)
    requires
        0 <= p < n,
        f(p),
        !g(p),
        forall|i: int| 0 <= i < n && i != p ==> #[trigger] f(i) == g(i),
    ensures
        count_true(g, n) == count_true(f, n) - 1,
    decreases n,
{
    if p == n - 1 {
        lemma_count_ext(f, g, n - 1);
    } else {
        lemma_count_remove(f, g, n - 1, p);
    }
}

/// The count is `n` exactly when the predicate holds everywhere on `[0, n)`.
pub proof fn lemma_count_full(f: spec_fn(int) -> bool, n: int)
    requires
        0 <= n,
    ensures
        (count_true(f, n) == n) <==> (forall|i: int| 0 <= i < n ==> #[trigger] f(i)),
    decreases n,
{
    if n > 0 {
        lemma_count_full(f, n - 1);
        lemma_count_bounds(f, n - 1);
        if count_true(f, n) == n {
            assert forall|i: int| 0 <= i < n implies #[trigger] f(i) by {
                if i < n - 1 {
                }
            }
        }
    }
}

/// The count is zero exactly when the predicate holds nowhere on `[0, n)`.
pub proof fn lemma_count_none(f: spec_fn(int) -> bool, n: int)
    requires
        0 <= n,
    ensures
        (count_true(f, n) == 0) <==> (forall|i: int| 0 <= i < n ==> !#[trigger] f(i)),
    decreases n,
{
    if n > 0 {
        lemma_count_none(f, n - 1);
        lemma_count_bounds(f, n - 1);
        if count_true(f, n) == 0 {
            assert forall|i: int| 0 <= i < n implies !#[trigger] f(i) by {
                if i < n - 1 {
                }
            }
        }
    }
}

/// A count of one with a known witness leaves no other index.
pub proof fn lemma_count_single(f: spec_fn(int) -> bool, n: int, p: int)
    requires
        0 <= p < n,
        f(p),
    ensures
        (count_true(f, n) == 1) <==> (forall|i: int| 0 <= i < n && i != p ==> !#[trigger] f(i)),
    decreases n,
{
    let g = |i: int| i != p && f(i);
    lemma_count_remove(f, g, n, p);
    lemma_count_none(g, n);
    if count_true(f, n) == 1 {
        assert forall|i: int| 0 <= i < n && i != p implies !#[trigger] f(i) by {
            assert(!g(i));
        }
    }
}

/// Where the count is positive, the predicate holds at some index below `n`.
pub proof fn lemma_count_witness(f: spec_fn(int) -> bool, n: int)
    requires
        count_true(f, n) >= 1,
    ensures
        exists|p: int| 0 <= p < n && #[trigger] f(p),
    decreases n,
{
    if n > 0 {
        if f(n - 1) {
        } else {
            lemma_count_witness(f, n - 1);
            let p = choose|p: int| 0 <= p < n - 1 && #[trigger] f(p);
            assert(0 <= p < n && f(p));
        }
    }
}

/// Where the predicate holds at some index below `n`, the count is positive.
pub proof fn lemma_count_positive(f: spec_fn(int) -> bool, n: int, p: int)
    requires
        0 <= p < n,
        f(p),
    ensures
        count_true(f, n) >= 1,
{
    lemma_count_none(f, n);
    lemma_count_bounds(f, n);
}

/// Shifting right by six divides by 64, and masking with 63 leaves the remainder.
pub proof fn lemma_split_index(x: usize)
    ensures
        x >> 6 == x / 64,
        x & 63 == x % 64,
        (x & 63) < 64,
{
    assert(x >> 6 == x / 64) by (bit_vector);
    assert(x & 63 == x % 64) by (bit_vector);
}

/// The length of a vector fits in a `usize`.
pub proof fn lemma_vec_len_bound<T>(v: &Vec<T>)
    ensures
        v@.len() <= usize::MAX,
{
    let n = v.len();
    assert(n == v@.len());
}

/// Masking the largest word leaves the mask.
pub proof fn lemma_and_ones(m: u64)
    ensures
        0xffff_ffff_ffff_ffffu64 & m == m,
{
    assert(0xffff_ffff_ffff_ffffu64 & m == m) by (bit_vector);
}

/// Position `i * m + j` of a row-major table with rows of length `m` lies
/// inside the first `n` rows, for `i < n` and `j < m`.
pub proof fn lemma_flat_index(i: int, n: int, j: int, m: int)
    requires
        0 <= i < n,
        0 <= j < m,
    ensures
        0 <= i * m + j < n * m,
        0 <= i * m <= n * m - m,
        (i * m + j) / m == i,
        (i * m + j) % m == j,
{
    assert(0 <= i * m && i * m + m <= n * m) by (nonlinear_arith)
        requires
            0 <= i < n,
            0 < m,
    ;
    vstd::arithmetic::div_mod::lemma_fundamental_div_mod_converse(i * m + j, m, i, j);
}

/// Distinct rows or columns give distinct positions in a row-major table.
pub proof fn lemma_flat_index_injective(i1: int, j1: int, i2: int, j2: int, m: int)
    requires
        0 <= j1 < m,
        0 <= j2 < m,
        0 <= i1,
        0 <= i2,
        i1 * m + j1 == i2 * m + j2,
    ensures
        i1 == i2,
        j1 == j2,
{
    lemma_flat_index(i1, i1 + 1, j1, m);
    lemma_flat_index(i2, i2 + 1, j2, m);
}

} // verus!
