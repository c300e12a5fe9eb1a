//! Finite sums over integer ranges, and double sums over rectangles and
//! triangles of index pairs, with the algebra the counting proofs need.
use vstd::prelude::*;

verus! {

/// The sum of `f(i)` for `lo <= i < hi` (zero when the range is empty).
pub open spec fn sum_range(f: spec_fn(int) -> int, lo: int, hi: int) -> int
    decreases hi - lo,
{
    if hi <= lo {
        0
    } else {
        sum_range(f, lo, hi - 1) + f(hi - 1)
    }
}

/// The sum of `f(p, q)` for `lo <= q < hi`, at a fixed `p`.
pub open spec fn row_sum(f: spec_fn(int, int) -> int, p: int, lo: int, hi: int) -> int {
    sum_range(|q: int| f(p, q), lo, hi)
}

/// The sum of `f(p, q)` over the rectangle `[lo1, hi1) x [lo2, hi2)`.
pub open spec fn rect_sum(f: spec_fn(int, int) -> int, lo1: int, hi1: int, lo2: int, hi2: int) -> int {
    sum_range(|p: int| row_sum(f, p, lo2, hi2), lo1, hi1)
}

/// The sum of `f(p, q)` over the strict lower triangle `lo <= q < p < hi`.
pub open spec fn tri_sum(f: spec_fn(int, int) -> int, lo: int, hi: int) -> int {
    sum_range(|p: int| row_sum(f, p, lo, p), lo, hi)
}

/// The sum of `f(p, p)` for `lo <= p < hi`.
pub open spec fn diag_sum(f: spec_fn(int, int) -> int, lo: int, hi: int) -> int {
    sum_range(|p: int| f(p, p), lo, hi)
}

pub proof fn lemma_sum_single(f: spec_fn(int) -> int, i: int)
    ensures
        sum_range(f, i, i + 1) == f(i),
{
    assert(sum_range(f, i, i) == 0);
}

pub proof fn lemma_sum_split(f: spec_fn(int) -> int, lo: int, mid: int, hi: int)
    requires
        lo <= mid <= hi,
    ensures
        sum_range(f, lo, hi) == sum_range(f, lo, mid) + sum_range(f, mid, hi),
    decreases hi - mid,
{
    if hi > mid {
        lemma_sum_split(f, lo, mid, hi - 1);
    }
}

pub proof fn lemma_sum_ext(f: spec_fn(int) -> int, g: spec_fn(int) -> int, lo: int, hi: int)
    requires
        forall|i: int| lo <= i < hi ==> #[trigger] f(i) == g(i),
    ensures
        sum_range(f, lo, hi) == sum_range(g, lo, hi),
    decreases hi - lo,
{
    if hi > lo {
        lemma_sum_ext(f, g, lo, hi - 1);
    }
}

pub proof fn lemma_sum_add(
    f: spec_fn(int) -> int,
    g: spec_fn(int) -> int,
    h: spec_fn(int) -> int,
    lo: int,
    hi: int,
)
    requires
        forall|i: int| lo <= i < hi ==> #[trigger] h(i) == f(i) + g(i),
    ensures
        sum_range(h, lo, hi) == sum_range(f, lo, hi) + sum_range(g, lo, hi),
    decreases hi - lo,
{
    if hi > lo {
        lemma_sum_add(f, g, h, lo, hi - 1);
    }
}

pub proof fn lemma_sum_const(f: spec_fn(int) -> int, c: int, lo: int, hi: int)
    requires
        lo <= hi,
        forall|i: int| lo <= i < hi ==> #[trigger] f(i) == c,
    ensures
        sum_range(f, lo, hi) == (hi - lo) * c,
    decreases hi - lo,
{
    if hi > lo {
        lemma_sum_const(f, c, lo, hi - 1);
        assert((hi - 1 - lo) * c + c == (hi - lo) * c) by (nonlinear_arith);
    } else {
        assert((hi - lo) * c == 0) by (nonlinear_arith)
            requires
                hi == lo,
        ;
    }
}

pub proof fn lemma_sum_bounds(f: spec_fn(int) -> int, m: int, lo: int, hi: int)
    requires
        lo <= hi,
        forall|i: int| lo <= i < hi ==> 0 <= #[trigger] f(i) <= m,
    ensures
        0 <= sum_range(f, lo, hi) <= (hi - lo) * m,
    decreases hi - lo,
{
    if hi > lo {
        lemma_sum_bounds(f, m, lo, hi - 1);
        assert((hi - 1 - lo) * m + m == (hi - lo) * m) by (nonlinear_arith);
    } else {
        assert((hi - lo) * m == 0) by (nonlinear_arith)
            requires
                hi == lo,
        ;
    }
}

pub proof fn lemma_sum_nonneg(f: spec_fn(int) -> int, lo: int, hi: int)
    requires
        forall|i: int| lo <= i < hi ==> 0 <= #[trigger] f(i),
    ensures
        0 <= sum_range(f, lo, hi),
    decreases hi - lo,
{
    if hi > lo {
        lemma_sum_nonneg(f, lo, hi - 1);
    }
}

pub proof fn lemma_rect_split_rows(
    f: spec_fn(int, int) -> int,
    lo1: int,
    mid: int,
    hi1: int,
    lo2: int,
    hi2: int,
)
    requires
        lo1 <= mid <= hi1,
    ensures
        rect_sum(f, lo1, hi1, lo2, hi2) == rect_sum(f, lo1, mid, lo2, hi2) + rect_sum(
            f,
            mid,
            hi1,
            lo2,
            hi2,
        ),
{
    lemma_sum_split(|p: int| row_sum(f, p, lo2, hi2), lo1, mid, hi1);
}

pub proof fn lemma_rect_split_cols(
    f: spec_fn(int, int) -> int,
    lo1: int,
    hi1: int,
    lo2: int,
    mid: int,
    hi2: int,
)
    requires
        lo2 <= mid <= hi2,
    ensures
        rect_sum(f, lo1, hi1, lo2, hi2) == rect_sum(f, lo1, hi1, lo2, mid) + rect_sum(
            f,
            lo1,
            hi1,
            mid,
            hi2,
        ),
{
    assert forall|p: int| lo1 <= p < hi1 implies row_sum(f, p, lo2, hi2) == row_sum(f, p, lo2, mid)
        + row_sum(f, p, mid, hi2) by {
        lemma_sum_split(|q: int| f(p, q), lo2, mid, hi2);
    }
    lemma_sum_add(
        |p: int| row_sum(f, p, lo2, mid),
        |p: int| row_sum(f, p, mid, hi2),
        |p: int| row_sum(f, p, lo2, hi2),
        lo1,
        hi1,
    );
}

/// Each pair term between 0 and `m` bounds a rectangle's sum by its area times `m`.
pub proof fn lemma_rect_bounds(
    f: spec_fn(int, int) -> int,
    m: int,
    lo1: int,
    hi1: int,
    lo2: int,
    hi2: int,
)
    requires
        lo1 <= hi1,
        lo2 <= hi2,
        0 <= m,
        forall|p: int, q: int| 0 <= #[trigger] f(p, q) <= m,
    ensures
        0 <= rect_sum(f, lo1, hi1, lo2, hi2) <= (hi1 - lo1) * (hi2 - lo2) * m,
{
    assert forall|p: int| lo1 <= p < hi1 implies 0 <= #[trigger] row_sum(f, p, lo2, hi2) <= (hi2 - lo2) * m by {
        lemma_sum_bounds(|q: int| f(p, q), m, lo2, hi2);
    }
    lemma_sum_bounds(|p: int| row_sum(f, p, lo2, hi2), (hi2 - lo2) * m, lo1, hi1);
    assert((hi1 - lo1) * ((hi2 - lo2) * m) == (hi1 - lo1) * (hi2 - lo2) * m) by (nonlinear_arith);
}

/// A rectangle's sum of a constant 1 is its area.
pub proof fn lemma_rect_area(f: spec_fn(int, int) -> int, lo1: int, hi1: int, lo2: int, hi2: int)
    requires
        lo1 <= hi1,
        lo2 <= hi2,
        forall|p: int, q: int| #[trigger] f(p, q) == 1,
    ensures
        rect_sum(f, lo1, hi1, lo2, hi2) == (hi1 - lo1) * (hi2 - lo2),
{
    assert forall|p: int| lo1 <= p < hi1 implies row_sum(f, p, lo2, hi2) == hi2 - lo2 by {
        lemma_sum_const(|q: int| f(p, q), 1, lo2, hi2);
    }
    lemma_sum_const(|p: int| row_sum(f, p, lo2, hi2), hi2 - lo2, lo1, hi1);
}

/// Rectangle sums are additive in the summed term.
pub proof fn lemma_rect_add(
    f: spec_fn(int, int) -> int,
    g: spec_fn(int, int) -> int,
    h: spec_fn(int, int) -> int,
    lo1: int,
    hi1: int,
    lo2: int,
    hi2: int,
)
    requires
        forall|p: int, q: int| #[trigger] h(p, q) == f(p, q) + g(p, q),
    ensures
        rect_sum(h, lo1, hi1, lo2, hi2) == rect_sum(f, lo1, hi1, lo2, hi2) + rect_sum(
            g,
            lo1,
            hi1,
            lo2,
            hi2,
        ),
{
    assert forall|p: int| lo1 <= p < hi1 implies row_sum(h, p, lo2, hi2) == row_sum(f, p, lo2, hi2)
        + row_sum(g, p, lo2, hi2) by {
        lemma_sum_add(|q: int| f(p, q), |q: int| g(p, q), |q: int| h(p, q), lo2, hi2);
    }
    lemma_sum_add(
        |p: int| row_sum(f, p, lo2, hi2),
        |p: int| row_sum(g, p, lo2, hi2),
        |p: int| row_sum(h, p, lo2, hi2),
        lo1,
        hi1,
    );
}

/// Summing `f` over a rectangle equals summing its transpose `g` over the
/// transposed rectangle.
pub proof fn lemma_rect_transpose(
    f: spec_fn(int, int) -> int,
    g: spec_fn(int, int) -> int,
    lo1: int,
    hi1: int,
    lo2: int,
    hi2: int,
)
    requires
        forall|p: int, q: int| #[trigger] g(q, p) == f(p, q),
        lo1 <= hi1,
        lo2 <= hi2,
    ensures
        rect_sum(f, lo1, hi1, lo2, hi2) == rect_sum(g, lo2, hi2, lo1, hi1),
    decreases hi1 - lo1,
{
    if hi1 == lo1 {
        assert forall|q: int| lo2 <= q < hi2 implies row_sum(g, q, lo1, hi1) == 0 by {}
        lemma_sum_const(|q: int| row_sum(g, q, lo1, hi1), 0, lo2, hi2);
    } else {
        let h = hi1 - 1;
        lemma_rect_transpose(f, g, lo1, h, lo2, hi2);
        lemma_rect_split_cols(g, lo2, hi2, lo1, h, hi1);
        assert forall|q: int| lo2 <= q < hi2 implies row_sum(g, q, h, hi1) == f(h, q) by {
            lemma_sum_single(|x: int| g(q, x), h);
        }
        lemma_sum_ext(|q: int| row_sum(g, q, h, hi1), |q: int| f(h, q), lo2, hi2);
    }
}

/// Over a square, a symmetric term sums to twice its strict lower triangle
/// plus its diagonal.
pub proof fn lemma_square_as_triangle(f: spec_fn(int, int) -> int, lo: int, hi: int)
    requires
        lo <= hi,
        forall|p: int, q: int| #[trigger] f(p, q) == f(q, p),
    ensures
        rect_sum(f, lo, hi, lo, hi) == 2 * tri_sum(f, lo, hi) + diag_sum(f, lo, hi),
    decreases hi - lo,
{
    if hi > lo {
        let h = hi - 1;
        lemma_square_as_triangle(f, lo, h);
        lemma_rect_split_cols(f, lo, h, lo, h, hi);
        assert forall|p: int| lo <= p < h implies row_sum(f, p, h, hi) == f(h, p) by {
            lemma_sum_single(|q: int| f(p, q), h);
        }
        lemma_sum_ext(|p: int| row_sum(f, p, h, hi), |p: int| f(h, p), lo, h);
        assert(rect_sum(f, lo, hi, lo, hi) == rect_sum(f, lo, h, lo, hi) + row_sum(f, h, lo, hi));
    }
}

/// A strict lower triangle splits at `mid` into two smaller triangles and the
/// rectangle below the first one.
pub proof fn lemma_tri_split(f: spec_fn(int, int) -> int, lo: int, mid: int, hi: int)
    requires
        lo <= mid <= hi,
    ensures
        tri_sum(f, lo, hi) == tri_sum(f, lo, mid) + rect_sum(f, mid, hi, lo, mid) + tri_sum(
            f,
            mid,
            hi,
        ),
{
    lemma_sum_split(|p: int| row_sum(f, p, lo, p), lo, mid, hi);
    assert forall|p: int| mid <= p < hi implies row_sum(f, p, lo, p) == row_sum(f, p, lo, mid)
        + row_sum(f, p, mid, p) by {
        lemma_sum_split(|q: int| f(p, q), lo, mid, p);
    }
    lemma_sum_add(
        |p: int| row_sum(f, p, lo, mid),
        |p: int| row_sum(f, p, mid, p),
        |p: int| row_sum(f, p, lo, p),
        mid,
        hi,
    );
}

} // verus!
