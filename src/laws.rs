//! What the whole computation yields: the merged histogram of a block grid,
//! compared with counting every ordered pair directly, and the laws that
//! follow.
use vstd::prelude::*;
use crate::sums::{
    sum_range,
    lemma_sum_nonneg,
    lemma_rect_area,
    lemma_rect_add,
    lemma_rect_transpose,
    row_sum,
    rect_sum,
    tri_sum,
    lemma_sum_const,
    lemma_sum_ext,
    lemma_sum_split,
    lemma_rect_split_rows,
    lemma_rect_split_cols,
    lemma_tri_split,
};
use crate::geometry::{
    XYZData,
    HistogramSpecs,
    bin_hit,
    bin_beyond,
    pair_bin,
    sq_dist,
    square,
    linear_bin,
    clip,
};
use crate::partition::{WorkBlock, chunk_edge, grid_block, cross_grid, self_grid, lemma_chunk_edges};
use crate::kernel::{
    cross_block_count,
    self_block_count,
    parts_sum,
    lemma_self_square,
    lemma_pair_bin_symmetric,
    lemma_hit_range,
};

verus! {

/// The sum of `g` over a sequence of blocks.
pub open spec fn blocks_total(g: spec_fn(WorkBlock) -> int, blocks: Seq<WorkBlock>) -> int
    decreases blocks.len(),
{
    if blocks.len() == 0 {
        0
    } else {
        blocks_total(g, blocks.drop_last()) + g(blocks.last())
    }
}

/// Squared bin `k` counted directly: the ordered pairs of a point of `d1` and
/// a point of `d2` whose squared bin is `k`.
pub open spec fn pair_histogram(specs: HistogramSpecs, d1: XYZData, d2: XYZData, k: int) -> int {
    rect_sum(
        bin_hit(d1.data@, d2.data@, specs.bin_size as int, k),
        0,
        d1.n_points as int,
        0,
        d2.n_points as int,
    )
}

/// Squared bin `k` merged over the blocks that compare two distinct sets cut
/// into `t` chunks each.
pub open spec fn cross_histogram(
    specs: HistogramSpecs,
    d1: XYZData,
    d2: XYZData,
    t: int,
    k: int,
) -> int {
    blocks_total(
        |blk: WorkBlock| cross_block_count(d1.data@, d2.data@, specs.bin_size as int, k, blk),
        cross_grid(d1.n_points as int, d2.n_points as int, t, t),
    )
}

/// Squared bin `k` merged over the triangular grid of blocks that compare a
/// set cut into `t` chunks with itself.
pub open spec fn self_histogram(specs: HistogramSpecs, d: XYZData, t: int, k: int) -> int {
    blocks_total(
        |blk: WorkBlock| self_block_count(d.data@, specs.bin_size as int, k, blk),
        self_grid(d.n_points as int, t, t),
    )
}

pub proof fn lemma_blocks_total_append(
    g: spec_fn(WorkBlock) -> int,
    s1: Seq<WorkBlock>,
    s2: Seq<WorkBlock>,
)
    ensures
        blocks_total(g, s1 + s2) == blocks_total(g, s1) + blocks_total(g, s2),
    decreases s2.len(),
{
    if s2.len() == 0 {
        assert(s1 + s2 =~= s1);
    } else {
        lemma_blocks_total_append(g, s1, s2.drop_last());
        assert((s1 + s2).drop_last() =~= s1 + s2.drop_last());
        assert((s1 + s2).last() == s2.last());
    }
}

/// Partial histograms, one per block, each holding its block's counts, merge
/// into the blocks' total.
pub proof fn lemma_parts_total(
    parts: Seq<Vec<u64>>,
    blocks: Seq<WorkBlock>,
    g: spec_fn(WorkBlock) -> int,
    k: int,
)
    requires
        parts.len() == blocks.len(),
        forall|i: int| 0 <= i < parts.len() ==> (#[trigger] parts[i])@[k] as int == g(blocks[i]),
    ensures
        parts_sum(parts, k, parts.len() as int) == blocks_total(g, blocks),
    decreases parts.len(),
{
    if parts.len() > 0 {
        let n = parts.len() - 1;
        lemma_parts_total(parts.drop_last(), blocks.drop_last(), g, k);
        lemma_sum_ext(
            |i: int| parts[i]@[k] as int,
            |i: int| parts.drop_last()[i]@[k] as int,
            0,
            n as int,
        );
    }
}

proof fn lemma_new_drop_last(m: int, f: spec_fn(int) -> WorkBlock)
    requires
        m > 0,
    ensures
        Seq::new(m as nat, f).drop_last() =~= Seq::new((m - 1) as nat, f),
        Seq::new(m as nat, f).last() == f(m - 1),
{
}

proof fn lemma_rect_empty_cols(f: spec_fn(int, int) -> int, lo1: int, hi1: int, c: int)
    requires
        lo1 <= hi1,
    ensures
        rect_sum(f, lo1, hi1, c, c) == 0,
{
    assert forall|p: int| lo1 <= p < hi1 implies #[trigger] row_sum(f, p, c, c) == 0 by {}
    lemma_sum_const(|p: int| row_sum(f, p, c, c), 0, lo1, hi1);
}

/// The first `m` blocks of row `i` of the cross grid cover the columns
/// `[0, edge(m))` of that row's chunk.
proof fn lemma_cross_row(
    a: Seq<i64>,
    b: Seq<i64>,
    u: int,
    k: int,
    n1: int,
    n2: int,
    t: int,
    i: int,
    m: int,
)
    requires
        0 <= n1 <= usize::MAX,
        0 <= n2 <= usize::MAX,
        0 <= i < t,
        0 <= m <= t,
    ensures
        blocks_total(
            |blk: WorkBlock| cross_block_count(a, b, u, k, blk),
            Seq::new(m as nat, |j: int| grid_block(n1, n2, t, i, j, false)),
        ) == rect_sum(
            bin_hit(a, b, u, k),
            chunk_edge(n1, t, i),
            chunk_edge(n1, t, i + 1),
            0,
            chunk_edge(n2, t, m),
        ),
    decreases m,
{
    let f = |j: int| grid_block(n1, n2, t, i, j, false);
    let h = bin_hit(a, b, u, k);
    lemma_chunk_edges(n1, t, i, i + 1);
    if m == 0 {
        lemma_chunk_edges(n2, t, 0, 0);
        lemma_rect_empty_cols(h, chunk_edge(n1, t, i), chunk_edge(n1, t, i + 1), 0);
    } else {
        lemma_cross_row(a, b, u, k, n1, n2, t, i, m - 1);
        lemma_new_drop_last(m, f);
        lemma_chunk_edges(n2, t, m - 1, m);
        lemma_rect_split_cols(
            h,
            chunk_edge(n1, t, i),
            chunk_edge(n1, t, i + 1),
            0,
            chunk_edge(n2, t, m - 1),
            chunk_edge(n2, t, m),
        );
    }
}

proof fn lemma_cross_rows(
    a: Seq<i64>,
    b: Seq<i64>,
    u: int,
    k: int,
    n1: int,
    n2: int,
    t: int,
    r: int,
)
    requires
        0 <= n1 <= usize::MAX,
        0 <= n2 <= usize::MAX,
        0 <= r <= t,
        0 < t,
    ensures
        blocks_total(|blk: WorkBlock| cross_block_count(a, b, u, k, blk), cross_grid(n1, n2, t, r))
            == rect_sum(bin_hit(a, b, u, k), 0, chunk_edge(n1, t, r), 0, n2),
    decreases r,
{
    let g = |blk: WorkBlock| cross_block_count(a, b, u, k, blk);
    let h = bin_hit(a, b, u, k);
    if r == 0 {
        lemma_chunk_edges(n1, t, 0, 0);
    } else {
        lemma_cross_rows(a, b, u, k, n1, n2, t, r - 1);
        let row = Seq::new(t as nat, |j: int| grid_block(n1, n2, t, r - 1, j, false));
        lemma_blocks_total_append(g, cross_grid(n1, n2, t, r - 1), row);
        lemma_cross_row(a, b, u, k, n1, n2, t, r - 1, t);
        lemma_chunk_edges(n2, t, t, t);
        lemma_chunk_edges(n1, t, r - 1, r);
        lemma_rect_split_rows(h, 0, chunk_edge(n1, t, r - 1), chunk_edge(n1, t, r), 0, n2);
    }
}

/// The first `m` blocks of row `i` of the triangular grid, all off the
/// diagonal, count twice the columns `[0, edge(m))` of that row's chunk.
proof fn lemma_self_row(a: Seq<i64>, u: int, k: int, n: int, t: int, i: int, m: int)
    requires
        0 <= n <= usize::MAX,
        0 <= m <= i < t,
    ensures
        blocks_total(
            |blk: WorkBlock| self_block_count(a, u, k, blk),
            Seq::new(m as nat, |j: int| grid_block(n, n, t, i, j, j == i)),
        ) == 2 * rect_sum(
            bin_hit(a, a, u, k),
            chunk_edge(n, t, i),
            chunk_edge(n, t, i + 1),
            0,
            chunk_edge(n, t, m),
        ),
    decreases m,
{
    let f = |j: int| grid_block(n, n, t, i, j, j == i);
    let h = bin_hit(a, a, u, k);
    lemma_chunk_edges(n, t, i, i + 1);
    if m == 0 {
        lemma_chunk_edges(n, t, 0, 0);
        lemma_rect_empty_cols(h, chunk_edge(n, t, i), chunk_edge(n, t, i + 1), 0);
    } else {
        lemma_self_row(a, u, k, n, t, i, m - 1);
        lemma_new_drop_last(m, f);
        lemma_chunk_edges(n, t, m - 1, m);
        lemma_rect_split_cols(
            h,
            chunk_edge(n, t, i),
            chunk_edge(n, t, i + 1),
            0,
            chunk_edge(n, t, m - 1),
            chunk_edge(n, t, m),
        );
    }
}

proof fn lemma_self_rows(a: Seq<i64>, u: int, k: int, n: int, t: int, r: int)
    requires
        0 <= n <= usize::MAX,
        0 <= r <= t,
        0 < t,
    ensures
        blocks_total(|blk: WorkBlock| self_block_count(a, u, k, blk), self_grid(n, t, r)) == 2
            * tri_sum(bin_hit(a, a, u, k), 0, chunk_edge(n, t, r)) + (if k == 0 {
            chunk_edge(n, t, r)
        } else {
            0
        }),
    decreases r,
{
    let g = |blk: WorkBlock| self_block_count(a, u, k, blk);
    let h = bin_hit(a, a, u, k);
    if r == 0 {
        lemma_chunk_edges(n, t, 0, 0);
    } else {
        let i = r - 1;
        let f = |j: int| grid_block(n, n, t, i, j, j == i);
        lemma_self_rows(a, u, k, n, t, i);
        lemma_blocks_total_append(g, self_grid(n, t, i), Seq::new(r as nat, f));
        lemma_new_drop_last(r, f);
        lemma_self_row(a, u, k, n, t, i, i);
        lemma_chunk_edges(n, t, i, r);
        lemma_tri_split(h, 0, chunk_edge(n, t, i), chunk_edge(n, t, r));
    }
}

proof fn lemma_pair_bin_nonneg(a: Seq<i64>, p: int, b: Seq<i64>, q: int, u: int)
    requires
        u > 0,
    ensures
        pair_bin(a, p, b, q, u) >= 0,
{
    assert forall|x: int| #[trigger] square(x) >= 0 by {
        assert(x * x >= 0) by (nonlinear_arith);
    }
    let d = sq_dist(a, p, b, q);
    assert(d / (u * u) >= 0) by (nonlinear_arith)
        requires
            d >= 0,
            u > 0,
    ;
}

/// Summing the linear bins of a squared histogram whose bins all fall below
/// the last linear bin gives the squared histogram's total.
proof fn lemma_linear_total(h: spec_fn(int) -> int, n: int, m: int)
    requires
        0 <= n,
        0 <= m,
    ensures
        sum_range(|i: int| linear_bin(h, n, i), 0, m) == sum_range(h, 0, clip(m * m, n)),
    decreases m,
{
    if m > 0 {
        lemma_linear_total(h, n, m - 1);
        assert((m - 1) * (m - 1) <= m * m) by (nonlinear_arith)
            requires
                m > 0,
        ;
        assert((m - 1) * (m - 1) >= 0) by (nonlinear_arith);
        lemma_sum_split(h, 0, clip((m - 1) * (m - 1), n), clip(m * m, n));
        assert((m - 1 + 1) * (m - 1 + 1) == m * m);
        assert(linear_bin(h, n, m - 1) == sum_range(h, clip((m - 1) * (m - 1), n), clip(m * m, n)));
    } else {
        assert(m * m == 0) by (nonlinear_arith)
            requires
                m == 0,
        ;
    }
}

/// The pairs counted in the squared bins below `limit`, plus those beyond
/// it, are all the pairs.
proof fn lemma_bins_total(a: Seq<i64>, b: Seq<i64>, u: int, limit: int, n1: int, n2: int)
    requires
        u > 0,
        0 <= limit,
        0 <= n1,
        0 <= n2,
    ensures
        sum_range(|k: int| rect_sum(bin_hit(a, b, u, k), 0, n1, 0, n2), 0, limit) + rect_sum(
            bin_beyond(a, b, u, limit),
            0,
            n1,
            0,
            n2,
        ) == n1 * n2,
    decreases limit,
{
    if limit == 0 {
        assert forall|p: int, q: int| #[trigger] bin_beyond(a, b, u, 0)(p, q) == 1 by {
            lemma_pair_bin_nonneg(a, p, b, q, u);
        }
        lemma_rect_area(bin_beyond(a, b, u, 0), 0, n1, 0, n2);
    } else {
        lemma_bins_total(a, b, u, limit - 1, n1, n2);
        lemma_rect_add(
            bin_hit(a, b, u, limit - 1),
            bin_beyond(a, b, u, limit),
            bin_beyond(a, b, u, limit - 1),
            0,
            n1,
            0,
            n2,
        );
    }
}

/// Cutting two distinct sets into any positive number of chunks, the merged
/// block histogram counts every ordered pair of a point of `d1` and a point
/// of `d2` exactly once, in its squared bin.
pub proof fn law_cross_blocks_count_every_pair(
    specs: HistogramSpecs,
    d1: XYZData,
    d2: XYZData,
    t: int,
)
    requires
        d1.wf(),
        d2.wf(),
        t > 0,
    ensures
        forall|k: int| #[trigger]
            cross_histogram(specs, d1, d2, t, k) == pair_histogram(specs, d1, d2, k),
{
    assert forall|k: int| #[trigger]
        cross_histogram(specs, d1, d2, t, k) == pair_histogram(specs, d1, d2, k) by {
        lemma_cross_rows(
            d1.data@,
            d2.data@,
            specs.bin_size as int,
            k,
            d1.n_points as int,
            d2.n_points as int,
            t,
            t,
        );
        lemma_chunk_edges(d1.n_points as int, t, t, t);
    }
}

/// Comparing a set with itself over the triangular grid, counting each
/// mirrored pair twice and each self-pair once, gives bin for bin the
/// histogram of comparing the set with a copy of itself over the full grid,
/// whatever the two chunk counts.
pub proof fn law_self_blocks_match_full_comparison(
    specs: HistogramSpecs,
    d: XYZData,
    copy: XYZData,
    t_self: int,
    t_cross: int,
)
    requires
        specs.wf(),
        d.wf(),
        copy.wf(),
        copy.data@ == d.data@,
        t_self > 0,
        t_cross > 0,
    ensures
        forall|k: int| #[trigger]
            self_histogram(specs, d, t_self, k) == cross_histogram(specs, d, copy, t_cross, k),
{
    law_cross_blocks_count_every_pair(specs, d, copy, t_cross);
    assert forall|k: int| #[trigger]
        self_histogram(specs, d, t_self, k) == cross_histogram(specs, d, copy, t_cross, k) by {
        let n = d.n_points as int;
        lemma_self_rows(d.data@, specs.bin_size as int, k, n, t_self, t_self);
        lemma_chunk_edges(n, t_self, t_self, t_self);
        lemma_self_square(d.data@, specs.bin_size as int, k, 0, n);
        assert(pair_histogram(specs, d, copy, k) == rect_sum(
            bin_hit(d.data@, d.data@, specs.bin_size as int, k),
            0,
            n,
            0,
            n,
        ));
    }
}

/// The merged histogram of two distinct sets does not depend on the number
/// of chunks they are cut into.
pub proof fn law_cross_partition_independence(
    specs: HistogramSpecs,
    d1: XYZData,
    d2: XYZData,
    t1: int,
    t2: int,
)
    requires
        d1.wf(),
        d2.wf(),
        t1 > 0,
        t2 > 0,
    ensures
        forall|k: int| #[trigger]
            cross_histogram(specs, d1, d2, t1, k) == cross_histogram(specs, d1, d2, t2, k),
{
    law_cross_blocks_count_every_pair(specs, d1, d2, t1);
    law_cross_blocks_count_every_pair(specs, d1, d2, t2);
}

/// The merged histogram of a set compared with itself does not depend on
/// the number of chunks it is cut into.
pub proof fn law_self_partition_independence(specs: HistogramSpecs, d: XYZData, t1: int, t2: int)
    requires
        specs.wf(),
        d.wf(),
        t1 > 0,
        t2 > 0,
    ensures
        forall|k: int| #[trigger]
            self_histogram(specs, d, t1, k) == self_histogram(specs, d, t2, k),
{
    law_self_blocks_match_full_comparison(specs, d, d, t1, 1);
    law_self_blocks_match_full_comparison(specs, d, d, t2, 1);
}

/// Swapping the two sets of a cross comparison leaves every squared bin, and
/// so every linear bin, unchanged.
pub proof fn law_cross_swap_invariance(specs: HistogramSpecs, d1: XYZData, d2: XYZData, t: int)
    requires
        d1.wf(),
        d2.wf(),
        t > 0,
    ensures
        forall|k: int| #[trigger]
            cross_histogram(specs, d1, d2, t, k) == cross_histogram(specs, d2, d1, t, k),
{
    law_cross_blocks_count_every_pair(specs, d1, d2, t);
    law_cross_blocks_count_every_pair(specs, d2, d1, t);
    assert forall|k: int| #[trigger]
        cross_histogram(specs, d1, d2, t, k) == cross_histogram(specs, d2, d1, t, k) by {
        let u = specs.bin_size as int;
        let f = bin_hit(d1.data@, d2.data@, u, k);
        let g = bin_hit(d2.data@, d1.data@, u, k);
        assert forall|p: int, q: int| #[trigger] g(q, p) == f(p, q) by {
            lemma_pair_bin_symmetric(d1.data@, d2.data@, p, q, u);
        }
        lemma_rect_transpose(f, g, 0, d1.n_points as int, 0, d2.n_points as int);
    }
}

/// Comparing a set of `N` points with itself, squared bin 0 holds at least
/// `N` counts: each point's distance to itself.
pub proof fn law_self_pairs_in_bin_zero(specs: HistogramSpecs, d: XYZData, t: int)
    requires
        specs.wf(),
        d.wf(),
        t > 0,
    ensures
        self_histogram(specs, d, t, 0) >= d.n_points,
{
    let n = d.n_points as int;
    let a = d.data@;
    let u = specs.bin_size as int;
    let f = bin_hit(a, a, u, 0);
    lemma_self_rows(a, u, 0, n, t, t);
    lemma_chunk_edges(n, t, t, t);
    lemma_hit_range(a, a, u, 0);
    assert forall|p: int| 0 <= p < n implies 0 <= #[trigger] row_sum(f, p, 0, p) by {
        lemma_sum_nonneg(|q: int| f(p, q), 0, p);
    }
    lemma_sum_nonneg(|p: int| row_sum(f, p, 0, p), 0, n);
}

/// Comparing two distinct sets of `N1` and `N2` points, when every squared
/// bin falls below the last linear bin, the linear histogram's counts plus
/// the pairs dropped beyond the squared bins add up to `N1 * N2`.
pub proof fn law_cross_conservation(specs: HistogramSpecs, d1: XYZData, d2: XYZData, t: int)
    requires
        specs.wf(),
        d1.wf(),
        d2.wf(),
        t > 0,
        specs.n_square_bins <= specs.n_linear_bins * specs.n_linear_bins,
    ensures
        sum_range(
            |i: int|
                linear_bin(
                    |k: int| cross_histogram(specs, d1, d2, t, k),
                    specs.n_square_bins as int,
                    i,
                ),
            0,
            specs.n_linear_bins as int,
        ) + rect_sum(
            bin_beyond(d1.data@, d2.data@, specs.bin_size as int, specs.n_square_bins as int),
            0,
            d1.n_points as int,
            0,
            d2.n_points as int,
        ) == d1.n_points * d2.n_points,
{
    let a = d1.data@;
    let b = d2.data@;
    let u = specs.bin_size as int;
    let nsq = specs.n_square_bins as int;
    let nlin = specs.n_linear_bins as int;
    let n1 = d1.n_points as int;
    let n2 = d2.n_points as int;
    let h = |k: int| cross_histogram(specs, d1, d2, t, k);
    lemma_linear_total(h, nsq, nlin);
    law_cross_blocks_count_every_pair(specs, d1, d2, t);
    lemma_sum_ext(h, |k: int| rect_sum(bin_hit(a, b, u, k), 0, n1, 0, n2), 0, nsq);
    lemma_bins_total(a, b, u, nsq, n1, n2);
}

/// Comparing a set of `N` points with itself, when every squared bin falls
/// below the last linear bin, the linear histogram's counts (self-pairs
/// included) plus the pairs dropped beyond the squared bins add up to `N^2`.
pub proof fn law_self_conservation(specs: HistogramSpecs, d: XYZData, t: int)
    requires
        specs.wf(),
        d.wf(),
        t > 0,
        specs.n_square_bins <= specs.n_linear_bins * specs.n_linear_bins,
    ensures
        sum_range(
            |i: int|
                linear_bin(
                    |k: int| self_histogram(specs, d, t, k),
                    specs.n_square_bins as int,
                    i,
                ),
            0,
            specs.n_linear_bins as int,
        ) + rect_sum(
            bin_beyond(d.data@, d.data@, specs.bin_size as int, specs.n_square_bins as int),
            0,
            d.n_points as int,
            0,
            d.n_points as int,
        ) == d.n_points * d.n_points,
{
    let nsq = specs.n_square_bins as int;
    let nlin = specs.n_linear_bins as int;
    let hs = |k: int| self_histogram(specs, d, t, k);
    let hc = |k: int| cross_histogram(specs, d, d, 1, k);
    law_self_blocks_match_full_comparison(specs, d, d, t, 1);
    law_cross_conservation(specs, d, d, 1);
    lemma_linear_total(hs, nsq, nlin);
    lemma_linear_total(hc, nsq, nlin);
    lemma_sum_ext(hs, hc, 0, nsq);
}

} // verus!
