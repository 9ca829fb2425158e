//! Indexing of a symmetric matrix stored as its strict upper triangle,
//! row by row, without the diagonal.

use vstd::prelude::*;

verus! {

/// Number of unordered pairs among `n` points.
pub open spec fn pair_count(n: int) -> int {
    n * (n - 1) / 2
}

/// Offset of the first entry of row `i` when `n` points are packed row by
/// row: row `r` holds the `n - 1 - r` pairs `(r, r + 1), ..., (r, n - 1)`.
pub open spec fn row_start(i: int, n: int) -> int
    decreases i,
{
    if i <= 0 {
        0
    } else {
        row_start(i - 1, n) + (n - i)
    }
}

/// Offset of the pair `(i, j)`, `i < j < n`, in the condensed matrix.
pub open spec fn condensed_offset(i: int, j: int, n: int) -> int {
    row_start(i, n) + (j - i - 1)
}

/// `n * (n - 1)` is even, so halving it loses nothing.
pub proof fn lemma_pair_count_twice(n: int)
    requires
        n >= 0,
    ensures
        2 * pair_count(n) == n * (n - 1),
    decreases n,
{
    if n > 0 {
        lemma_pair_count_twice(n - 1);
        let p = n - 1;
        assert(n * (n - 1) == p * (p - 1) + 2 * p) by (nonlinear_arith)
            requires
                p == n - 1,
        ;
    } else {
        assert(n * (n - 1) == 0) by (nonlinear_arith)
            requires
                n == 0,
        ;
    }
}

/// Adding the `n + 1`-th point adds `n` pairs.
pub proof fn lemma_pair_count_step(n: int)
    requires
        n >= 0,
    ensures
        pair_count(n + 1) == pair_count(n) + n,
{
    lemma_pair_count_twice(n);
    lemma_pair_count_twice(n + 1);
    assert((n + 1) * n == n * (n - 1) + 2 * n) by (nonlinear_arith);
}

/// The pair count grows strictly from one point on.
pub proof fn lemma_pair_count_increasing(a: int, b: int)
    requires
        1 <= a < b,
    ensures
        pair_count(a) < pair_count(b),
    decreases b - a,
{
    lemma_pair_count_step(b - 1);
    if a < b - 1 {
        lemma_pair_count_increasing(a, b - 1);
    }
}

/// At most one point count has a given number of pairs.
pub proof fn lemma_point_count_unique(n1: int, n2: int)
    requires
        n1 >= 1,
        n2 >= 1,
        pair_count(n1) == pair_count(n2),
    ensures
        n1 == n2,
{
    if n1 < n2 {
        lemma_pair_count_increasing(n1, n2);
    } else if n2 < n1 {
        lemma_pair_count_increasing(n2, n1);
    }
}

/// A matrix of at least five points has at least twice as many pairs as
/// points, so the cluster ids `0 ..= 2n - 2` fit wherever the matrix fits.
pub proof fn lemma_ids_fit(n: int)
    requires
        n >= 2,
        pair_count(n) <= usize::MAX,
    ensures
        2 * n <= usize::MAX,
{
    lemma_pair_count_twice(n);
    if n >= 5 {
        assert(n * (n - 1) >= 4 * n) by (nonlinear_arith)
            requires
                n >= 5,
        ;
    }
}

/// Closed form of the first offset of a row.
pub proof fn lemma_row_start_closed(i: int, n: int)
    requires
        i >= 0,
    ensures
        2 * row_start(i, n) == i * (2 * n - i - 1),
    decreases i,
{
    if i > 0 {
        lemma_row_start_closed(i - 1, n);
        let p = i - 1;
        assert(i * (2 * n - i - 1) == p * (2 * n - p - 1) + 2 * (n - i)) by (nonlinear_arith)
            requires
                p == i - 1,
        ;
    } else {
        assert(i * (2 * n - i - 1) == 0) by (nonlinear_arith)
            requires
                i == 0,
        ;
    }
}

/// Rows follow one another without overlap.
pub proof fn lemma_row_start_monotone(i1: int, i2: int, n: int)
    requires
        0 <= i1 <= i2 <= n,
    ensures
        row_start(i1, n) <= row_start(i2, n),
    decreases i2 - i1,
{
    if i1 < i2 {
        lemma_row_start_monotone(i1, i2 - 1, n);
    }
}

/// The rows together hold every pair once.
pub proof fn lemma_row_start_total(n: int)
    requires
        n >= 0,
    ensures
        row_start(n, n) == pair_count(n),
{
    lemma_row_start_closed(n, n);
    lemma_pair_count_twice(n);
    assert(n * (2 * n - n - 1) == n * (n - 1)) by (nonlinear_arith);
}

/// Every pair has an offset inside the condensed matrix.
pub proof fn lemma_offset_in_range(i: int, j: int, n: int)
    requires
        0 <= i < j < n,
    ensures
        0 <= row_start(i, n) <= condensed_offset(i, j, n) < row_start(i + 1, n) <= pair_count(n),
{
    lemma_row_start_monotone(0, i, n);
    lemma_row_start_monotone(i + 1, n, n);
    lemma_row_start_total(n);
}

/// The packing is row-major: a pair that comes first in the order by
/// `(i, j)` has the smaller offset.
pub proof fn lemma_offset_increasing(i1: int, j1: int, i2: int, j2: int, n: int)
    requires
        0 <= i1 < j1 < n,
        0 <= i2 < j2 < n,
        i1 < i2 || (i1 == i2 && j1 < j2),
    ensures
        condensed_offset(i1, j1, n) < condensed_offset(i2, j2, n),
{
    lemma_offset_in_range(i1, j1, n);
    lemma_offset_in_range(i2, j2, n);
    if i1 < i2 {
        lemma_row_start_monotone(i1 + 1, i2, n);
    }
}

/// Distinct pairs have distinct offsets.
pub proof fn lemma_offset_injective(i1: int, j1: int, i2: int, j2: int, n: int)
    requires
        0 <= i1 < j1 < n,
        0 <= i2 < j2 < n,
        condensed_offset(i1, j1, n) == condensed_offset(i2, j2, n),
    ensures
        i1 == i2,
        j1 == j2,
{
    if i1 < i2 || (i1 == i2 && j1 < j2) {
        lemma_offset_increasing(i1, j1, i2, j2, n);
    } else if i2 < i1 || (i1 == i2 && j2 < j1) {
        lemma_offset_increasing(i2, j2, i1, j1, n);
    }
}

proof fn lemma_locate_row(k: int, n: int, i: int) -> (r: int)
    requires
        0 <= i < n,
        0 <= k < row_start(i + 1, n),
    ensures
        0 <= r <= i,
        row_start(r, n) <= k < row_start(r + 1, n),
    decreases i,
{
    if row_start(i, n) <= k {
        i
    } else {
        lemma_locate_row(k, n, i - 1)
    }
}

/// Every offset of the condensed matrix belongs to a pair; the pair is
/// returned.
pub proof fn lemma_offset_onto(k: int, n: int) -> (p: (int, int))
    requires
        0 <= k < pair_count(n),
        n >= 0,
    ensures
        0 <= p.0 < p.1 < n,
        condensed_offset(p.0, p.1, n) == k,
{
    lemma_pair_count_twice(n);
    assert(n >= 2) by {
        if n == 0 || n == 1 {
            assert(n * (n - 1) == 0) by (nonlinear_arith)
                requires
                    n == 0 || n == 1,
            ;
        }
    }
    lemma_row_start_total(n);
    assert(row_start(n, n) == row_start(n - 1, n));
    let r = lemma_locate_row(k, n, n - 1);
    assert(r < n - 1) by {
        assert(row_start(r + 1, n) == row_start(r, n) + (n - r - 1));
    }
    (r, k - row_start(r, n) + r + 1)
}

/// The pair whose offset in the condensed matrix of `n` points is `k`.
pub open spec fn pair_at(k: int, n: int) -> (int, int) {
    choose|p: (int, int)| 0 <= p.0 < p.1 < n && condensed_offset(p.0, p.1, n) == k
}

/// `pair_at` undoes `condensed_offset`.
pub proof fn lemma_pair_at_offset(i: int, j: int, n: int)
    requires
        0 <= i < j < n,
    ensures
        pair_at(condensed_offset(i, j, n), n) == (i, j),
{
    let k = condensed_offset(i, j, n);
    let p = pair_at(k, n);
    assert(0 <= (i, j).0 < (i, j).1 < n && condensed_offset((i, j).0, (i, j).1, n) == k);
    lemma_offset_injective(p.0, p.1, i, j, n);
}

/// `condensed_offset` undoes `pair_at`.
pub proof fn lemma_offset_pair_at(k: int, n: int)
    requires
        n >= 0,
        0 <= k < pair_count(n),
    ensures
        0 <= pair_at(k, n).0 < pair_at(k, n).1 < n,
        condensed_offset(pair_at(k, n).0, pair_at(k, n).1, n) == k,
{
    let q = lemma_offset_onto(k, n);
    assert(0 <= q.0 < q.1 < n && condensed_offset(q.0, q.1, n) == k);
}

/// Offset of the pair `(i, j)` in the condensed matrix of `n` points.
pub fn condensed_index(i: usize, j: usize, n: usize) -> (k: usize)
    requires
        i < j < n,
        pair_count(n as int) <= usize::MAX,
    ensures
        k == condensed_offset(i as int, j as int, n as int),
        k < pair_count(n as int),
{
    proof {
        lemma_ids_fit(n as int);
        lemma_row_start_closed(i as int, n as int);
        lemma_offset_in_range(i as int, j as int, n as int);
    }
    let w: usize = 2 * n - i - 3;
    let ghost below = row_start(i as int, n as int) - i;
    assert(2 * below == i * w) by (nonlinear_arith)
        requires
            2 * (below + i) == i * (2 * n - i - 1),
            w == 2 * n - i - 3,
    ;
    let half: usize = if i % 2 == 0 {
        assert((i / 2) * w == below) by (nonlinear_arith)
            requires
                2 * below == i * w,
                i % 2 == 0,
        ;
        (i / 2) * w
    } else {
        assert(i * (w / 2) == below) by (nonlinear_arith)
            requires
                2 * below == i * w,
                w % 2 == 0,
        ;
        i * (w / 2)
    };
    half + j - 1
}

/// The number of points whose condensed matrix has `m` entries, if there
/// is one and it is at least two.
pub fn point_count(m: usize) -> (r: Option<usize>)
    ensures
        match r {
            Some(n) => n >= 2 && pair_count(n as int) == m,
            None => forall|n: int| n >= 2 ==> pair_count(n) != m,
        },
{
    let cap: u128 = 0x2_0000_0000;
    let mut lo: u128 = 1;
    let mut hi: u128 = if (m as u128) + 2 < cap {
        (m as u128) + 2
    } else {
        cap
    };
    proof {
        lemma_pair_count_twice(1);
        lemma_pair_count_twice(hi as int);
        if hi == cap {
            assert(cap * (cap - 1) > 2 * 0xffff_ffff_ffff_ffff) by (nonlinear_arith)
                requires
                    cap == 0x2_0000_0000,
            ;
        } else {
            assert((m + 2) * (m + 1) > 2 * m) by (nonlinear_arith)
                requires
                    m >= 0,
            ;
        }
    }
    while hi - lo > 1
        invariant
            1 <= lo < hi <= cap,
            cap == 0x2_0000_0000,
            pair_count(lo as int) <= m < pair_count(hi as int),
        decreases hi - lo,
    {
        let mid: u128 = lo + (hi - lo) / 2;
        proof {
            lemma_pair_count_twice(mid as int);
            assert(mid * (mid - 1) <= cap * cap) by (nonlinear_arith)
                requires
                    1 <= mid <= cap,
            ;
        }
        if mid * (mid - 1) / 2 <= m as u128 {
            lo = mid;
        } else {
            hi = mid;
        }
    }
    proof {
        lemma_pair_count_twice(lo as int);
        assert(lo * (lo - 1) <= cap * cap) by (nonlinear_arith)
            requires
                1 <= lo <= cap,
        ;
    }
    if lo >= 2 && lo * (lo - 1) / 2 == m as u128 {
        proof {
            lemma_ids_fit(lo as int);
        }
        Some(lo as usize)
    } else {
        assert forall|n: int| n >= 2 implies pair_count(n) != m by {
            if n < lo {
                lemma_pair_count_increasing(n, lo as int);
            } else if n > lo {
                if n > hi {
                    lemma_pair_count_increasing(hi as int, n);
                }
            }
        }
        None
    }
}

} // verus!
