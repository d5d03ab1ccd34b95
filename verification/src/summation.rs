//! Sums of an integer-valued function over the cells of a grid, with the
//! lemmas that the evaluator and the flood fill rest on.

use vstd::prelude::*;

verus! {

/// The sum of `f(x, y)` over the first `n` columns of row `y`.
pub open spec fn row_sum(f: spec_fn(int, int) -> int, y: int, n: int) -> int
    decreases n,
{
    if n <= 0 {
        0
    } else {
        row_sum(f, y, n - 1) + f(n - 1, y)
    }
}

/// The sum of `f(x, y)` over the first `m` rows of a grid `w` columns wide.
pub open spec fn grid_sum(f: spec_fn(int, int) -> int, w: int, m: int) -> int
    decreases m,
{
    if m <= 0 {
        0
    } else {
        grid_sum(f, w, m - 1) + row_sum(f, m - 1, w)
    }
}

/// A row sum lies between the bounds of its terms, taken `n` times.
pub proof fn lemma_row_sum_bounds(f: spec_fn(int, int) -> int, y: int, n: int, hi: int)
    requires
        n >= 0,
        forall|x: int| 0 <= x < n ==> 0 <= #[trigger] f(x, y) <= hi,
    ensures
        0 <= row_sum(f, y, n) <= hi * n,
    decreases n,
{
    if n > 0 {
        lemma_row_sum_bounds(f, y, n - 1, hi);
        assert(hi * n == hi * (n - 1) + hi) by (nonlinear_arith);
    } else {
        assert(hi * n == 0) by (nonlinear_arith)
            requires
                n == 0,
        ;
    }
}

/// A grid sum lies between the bounds of its row sums, taken `m` times.
pub proof fn lemma_grid_sum_bounds(f: spec_fn(int, int) -> int, w: int, m: int, hi: int)
    requires
        m >= 0,
        forall|y: int| 0 <= y < m ==> 0 <= #[trigger] row_sum(f, y, w) <= hi,
    ensures
        0 <= grid_sum(f, w, m) <= hi * m,
    decreases m,
{
    if m > 0 {
        lemma_grid_sum_bounds(f, w, m - 1, hi);
        assert(hi * m == hi * (m - 1) + hi) by (nonlinear_arith);
    } else {
        assert(hi * m == 0) by (nonlinear_arith)
            requires
                m == 0,
        ;
    }
}

/// Two functions that differ at most at the cell `(a, b)` have row sums that
/// differ by what that cell contributes.
pub proof fn lemma_row_sum_point(
    f: spec_fn(int, int) -> int,
    f2: spec_fn(int, int) -> int,
    y: int,
    n: int,
    a: int,
    b: int,
)
    requires
        forall|x: int| 0 <= x < n && !(x == a && y == b) ==> #[trigger] f2(x, y) == f(x, y),
    ensures
        row_sum(f2, y, n) == row_sum(f, y, n) + (if y == b && 0 <= a < n {
            f2(a, b) - f(a, b)
        } else {
            0
        }),
    decreases n,
{
    if n > 0 {
        lemma_row_sum_point(f, f2, y, n - 1, a, b);
    }
}

/// Two functions that differ at most at the cell `(a, b)` have grid sums that
/// differ by what that cell contributes.
pub proof fn lemma_grid_sum_point(
    f: spec_fn(int, int) -> int,
    f2: spec_fn(int, int) -> int,
    w: int,
    m: int,
    a: int,
    b: int,
)
    requires
        forall|x: int, y: int|
            0 <= x < w && 0 <= y < m && !(x == a && y == b) ==> #[trigger] f2(x, y) == f(x, y),
    ensures
        grid_sum(f2, w, m) == grid_sum(f, w, m) + (if 0 <= a < w && 0 <= b < m {
            f2(a, b) - f(a, b)
        } else {
            0
        }),
    decreases m,
{
    if m > 0 {
        lemma_grid_sum_point(f, f2, w, m - 1, a, b);
        lemma_row_sum_point(f, f2, m - 1, w, a, b);
    }
}

/// A function that is zero on every cell sums to zero.
pub proof fn lemma_grid_sum_zero(f: spec_fn(int, int) -> int, w: int, m: int)
    requires
        forall|x: int, y: int| 0 <= x < w && 0 <= y < m ==> #[trigger] f(x, y) == 0,
    ensures
        grid_sum(f, w, m) == 0,
    decreases m,
{
    if m > 0 {
        lemma_grid_sum_zero(f, w, m - 1);
        lemma_row_sum_zero(f, m - 1, w);
    }
}

/// A function that is zero on every cell of a row sums to zero there.
pub proof fn lemma_row_sum_zero(f: spec_fn(int, int) -> int, y: int, n: int)
    requires
        forall|x: int| 0 <= x < n ==> #[trigger] f(x, y) == 0,
    ensures
        row_sum(f, y, n) == 0,
    decreases n,
{
    if n > 0 {
        lemma_row_sum_zero(f, y, n - 1);
    }
}

} // verus!
