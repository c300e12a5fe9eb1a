//! The pairwise counting kernel, run once per work block, and the reducer
//! that merges the partial histograms of many blocks.
use vstd::prelude::*;
use crate::sums::{
    sum_range,
    row_sum,
    rect_sum,
    tri_sum,
    diag_sum,
    lemma_sum_bounds,
    lemma_sum_const,
    lemma_sum_nonneg,
    lemma_sum_split,
    lemma_rect_bounds,
    lemma_square_as_triangle,
};
use crate::geometry::{XYZData, HistogramSpecs, bin_hit, pair_bin, sq_dist, square};
use crate::partition::WorkBlock;

verus! {

/// What a block of two distinct sets adds to squared bin `k`: each pair of
/// the rectangle counts once.
pub open spec fn cross_block_count(a: Seq<i64>, b: Seq<i64>, unit: int, k: int, blk: WorkBlock) -> int {
    rect_sum(
        bin_hit(a, b, unit, k),
        blk.start_1 as int,
        blk.end_1 as int,
        blk.start_2 as int,
        blk.end_2 as int,
    )
}

/// What a block of a set compared with itself adds to squared bin `k`. Off
/// the diagonal each pair stands for itself and its mirror and counts twice;
/// on it, each pair `q < p` of the range counts twice and each point's
/// distance to itself counts once, in bin 0.
pub open spec fn self_block_count(a: Seq<i64>, unit: int, k: int, blk: WorkBlock) -> int {
    if blk.on_diagonal {
        2 * tri_sum(bin_hit(a, a, unit, k), blk.start_1 as int, blk.end_1 as int) + if k == 0 {
            blk.end_1 - blk.start_1
        } else {
            0
        }
    } else {
        2 * rect_sum(
            bin_hit(a, a, unit, k),
            blk.start_1 as int,
            blk.end_1 as int,
            blk.start_2 as int,
            blk.end_2 as int,
        )
    }
}

/// Bin `k` summed over the first `n` partial histograms.
pub open spec fn parts_sum(parts: Seq<Vec<u64>>, k: int, n: int) -> int {
    sum_range(|i: int| parts[i]@[k] as int, 0, n)
}

/// The distance between two points does not depend on their order.
pub proof fn lemma_pair_bin_symmetric(a: Seq<i64>, b: Seq<i64>, p: int, q: int, unit: int)
    ensures
        pair_bin(a, p, b, q, unit) == pair_bin(b, q, a, p, unit),
{
    assert forall|x: int, y: int| #[trigger] square(x - y) == square(y - x) by {
        assert((x - y) * (x - y) == (y - x) * (y - x)) by (nonlinear_arith);
    }
    assert(sq_dist(a, p, b, q) == sq_dist(b, q, a, p));
}

/// Each term of a bin's pair count is 0 or 1.
pub proof fn lemma_hit_range(a: Seq<i64>, b: Seq<i64>, unit: int, k: int)
    ensures
        forall|p: int, q: int| 0 <= #[trigger] bin_hit(a, b, unit, k)(p, q) <= 1,
{
}

/// Over a square block of one set, twice the strict lower triangle plus the
/// self-pairs in bin 0 is the full square of ordered pairs.
pub proof fn lemma_self_square(a: Seq<i64>, unit: int, k: int, s: int, e: int)
    requires
        unit > 0,
        s <= e,
    ensures
        2 * tri_sum(bin_hit(a, a, unit, k), s, e) + (if k == 0 {
            e - s
        } else {
            0
        }) == rect_sum(bin_hit(a, a, unit, k), s, e, s, e),
        rect_sum(bin_hit(a, a, unit, k), s, e, s, e) <= (e - s) * (e - s),
{
    let f = bin_hit(a, a, unit, k);
    assert forall|p: int, q: int| #[trigger] f(p, q) == f(q, p) by {
        lemma_pair_bin_symmetric(a, a, p, q, unit);
    }
    lemma_square_as_triangle(f, s, e);
    assert forall|p: int| s <= p < e implies #[trigger] f(p, p) == (if k == 0 {
        1int
    } else {
        0int
    }) by {
        assert(sq_dist(a, p, a, p) == 0);
        assert(0int / (unit * unit) == 0) by (nonlinear_arith)
            requires
                unit > 0,
        ;
    }
    lemma_sum_const(|p: int| f(p, p), if k == 0 { 1int } else { 0int }, s, e);
    lemma_hit_range(a, a, unit, k);
    lemma_rect_bounds(f, 1, s, e, s, e);
}

/// While the diagonal block's loops stand at `(p, q)`, one more count stays
/// within the block's triangle.
proof fn lemma_triangle_step(a: Seq<i64>, unit: int, k: int, s: int, p: int, q: int, e: int)
    requires
        s <= q < p < e,
        bin_hit(a, a, unit, k)(p, q) == 1,
    ensures
        tri_sum(bin_hit(a, a, unit, k), s, p) + row_sum(bin_hit(a, a, unit, k), p, s, q) + 1
            <= tri_sum(bin_hit(a, a, unit, k), s, e),
{
    let f = bin_hit(a, a, unit, k);
    lemma_hit_range(a, a, unit, k);
    let g = |y: int| f(p, y);
    lemma_sum_split(g, s, q + 1, p);
    lemma_sum_nonneg(g, q + 1, p);
    let rows = |x: int| row_sum(f, x, s, x);
    assert forall|x: int| p + 1 <= x < e implies 0 <= #[trigger] rows(x) by {
        lemma_sum_nonneg(|y: int| f(x, y), s, x);
    }
    lemma_sum_split(rows, s, p + 1, e);
    lemma_sum_nonneg(rows, p + 1, e);
}

fn count_triangle(specs: &HistogramSpecs, data: &XYZData, s: usize, e: usize) -> (h: Vec<u64>)
    requires
        specs.wf(),
        data.wf(),
        s <= e <= data.n_points,
        (e - s) * (e - s) <= u64::MAX,
    ensures
        h@.len() == specs.n_square_bins,
        forall|k: int|
            0 <= k < specs.n_square_bins ==> #[trigger] h@[k] == 2 * tri_sum(
                bin_hit(data.data@, data.data@, specs.bin_size as int, k),
                s as int,
                e as int,
            ) + (if k == 0 {
                e - s
            } else {
                0
            }),
{
    let ghost a = data.data@;
    let ghost u = specs.bin_size as int;
    let mut h = specs.create_empty_histogram();
    let mut p: usize = s;
    while p < e
        invariant
            specs.wf(),
            data.wf(),
            a == data.data@,
            u == specs.bin_size as int,
            s <= p <= e <= data.n_points,
            (e - s) * (e - s) <= u64::MAX,
            h@.len() == specs.n_square_bins,
            forall|k: int|
                0 <= k < specs.n_square_bins ==> #[trigger] h@[k] == 2 * tri_sum(
                    bin_hit(a, a, u, k),
                    s as int,
                    p as int,
                ),
        decreases e - p,
    {
        let mut q: usize = s;
        while q < p
            invariant
                specs.wf(),
                data.wf(),
                a == data.data@,
                u == specs.bin_size as int,
                s <= q <= p < e <= data.n_points,
                (e - s) * (e - s) <= u64::MAX,
                h@.len() == specs.n_square_bins,
                forall|k: int|
                    0 <= k < specs.n_square_bins ==> #[trigger] h@[k] == 2 * (tri_sum(
                        bin_hit(a, a, u, k),
                        s as int,
                        p as int,
                    ) + row_sum(bin_hit(a, a, u, k), p as int, s as int, q as int)),
            decreases p - q,
        {
            let found = specs.square_bin_index(data, p, data, q);
            if let Some(bin) = found {
                proof {
                    lemma_triangle_step(a, u, bin as int, s as int, p as int, q as int, e as int);
                    lemma_self_square(a, u, bin as int, s as int, e as int);
                }
                h.set(bin, h[bin] + 2);
            }
            proof {
                assert forall|k: int| 0 <= k < specs.n_square_bins implies #[trigger] h@[k] == 2
                    * (tri_sum(bin_hit(a, a, u, k), s as int, p as int) + row_sum(
                    bin_hit(a, a, u, k),
                    p as int,
                    s as int,
                    q + 1,
                )) by {
                    let f = bin_hit(a, a, u, k);
                    assert(row_sum(f, p as int, s as int, q + 1) == row_sum(
                        f,
                        p as int,
                        s as int,
                        q as int,
                    ) + f(p as int, q as int));
                }
            }
            q = q + 1;
        }
        proof {
            assert forall|k: int| 0 <= k < specs.n_square_bins implies #[trigger] h@[k] == 2
                * tri_sum(bin_hit(a, a, u, k), s as int, p + 1) by {
                let f = bin_hit(a, a, u, k);
                assert(tri_sum(f, s as int, p + 1) == tri_sum(f, s as int, p as int) + row_sum(
                    f,
                    p as int,
                    s as int,
                    p as int,
                ));
            }
        }
        p = p + 1;
    }
    if h.len() > 0 {
        proof {
            lemma_self_square(a, u, 0, s as int, e as int);
        }
        let self_pairs: u64 = (e - s) as u64;
        h.set(0, h[0] + self_pairs);
    }
    h
}

fn count_rect(
    specs: &HistogramSpecs,
    data_1: &XYZData,
    data_2: &XYZData,
    s1: usize,
    e1: usize,
    s2: usize,
    e2: usize,
    weight: u64,
) -> (h: Vec<u64>)
    requires
        specs.wf(),
        data_1.wf(),
        data_2.wf(),
        s1 <= e1 <= data_1.n_points,
        s2 <= e2 <= data_2.n_points,
        weight * (e1 - s1) * (e2 - s2) <= u64::MAX,
    ensures
        h@.len() == specs.n_square_bins,
        forall|k: int|
            0 <= k < specs.n_square_bins ==> #[trigger] h@[k] == weight * rect_sum(
                bin_hit(data_1.data@, data_2.data@, specs.bin_size as int, k),
                s1 as int,
                e1 as int,
                s2 as int,
                e2 as int,
            ),
{
    let ghost a = data_1.data@;
    let ghost b = data_2.data@;
    let ghost u = specs.bin_size as int;
    let ghost w = weight as int;
    let ghost l1 = e1 - s1;
    let ghost l2 = e2 - s2;
    let mut h = specs.create_empty_histogram();
    let mut p: usize = s1;
    while p < e1
        invariant
            specs.wf(),
            data_1.wf(),
            data_2.wf(),
            a == data_1.data@,
            b == data_2.data@,
            u == specs.bin_size as int,
            w == weight as int,
            s1 <= p <= e1 <= data_1.n_points,
            s2 <= e2 <= data_2.n_points,
            w * l1 * l2 <= u64::MAX,
            l1 == e1 - s1,
            l2 == e2 - s2,
            h@.len() == specs.n_square_bins,
            forall|k: int|
                0 <= k < specs.n_square_bins ==> #[trigger] h@[k] == w * rect_sum(
                    bin_hit(a, b, u, k),
                    s1 as int,
                    p as int,
                    s2 as int,
                    e2 as int,
                ),
        decreases e1 - p,
    {
        let mut q: usize = s2;
        while q < e2
            invariant
                specs.wf(),
                data_1.wf(),
                data_2.wf(),
                a == data_1.data@,
                b == data_2.data@,
                u == specs.bin_size as int,
                w == weight as int,
                s1 <= p < e1 <= data_1.n_points,
                s2 <= q <= e2 <= data_2.n_points,
                w * l1 * l2 <= u64::MAX,
                l1 == e1 - s1,
                l2 == e2 - s2,
                h@.len() == specs.n_square_bins,
                forall|k: int|
                    0 <= k < specs.n_square_bins ==> #[trigger] h@[k] == w * (rect_sum(
                        bin_hit(a, b, u, k),
                        s1 as int,
                        p as int,
                        s2 as int,
                        e2 as int,
                    ) + row_sum(bin_hit(a, b, u, k), p as int, s2 as int, q as int)),
            decreases e2 - q,
        {
            let ghost old_h = h@;
            let found = specs.square_bin_index(data_1, p, data_2, q);
            if let Some(bin) = found {
                proof {
                    let f = bin_hit(a, b, u, bin as int);
                    lemma_hit_range(a, b, u, bin as int);
                    lemma_rect_bounds(f, 1, s1 as int, p as int, s2 as int, e2 as int);
                    lemma_sum_bounds(|y: int| f(p as int, y), 1, s2 as int, q as int);
                    let c = rect_sum(f, s1 as int, p as int, s2 as int, e2 as int) + row_sum(
                        f,
                        p as int,
                        s2 as int,
                        q as int,
                    );
                    assert(c + 1 <= (p - s1 + 1) * l2) by (nonlinear_arith)
                        requires
                            c <= (p - s1) * l2 + (q - s2),
                            q - s2 < l2,
                    ;
                    assert((p - s1 + 1) * l2 <= l1 * l2) by (nonlinear_arith)
                        requires
                            p - s1 + 1 <= l1,
                            l2 >= 0,
                    ;
                    assert(w * (c + 1) <= w * l1 * l2) by (nonlinear_arith)
                        requires
                            c + 1 <= l1 * l2,
                            w >= 0,
                    ;
                    assert(w * (c + 1) == w * c + w) by (nonlinear_arith);
                }
                h.set(bin, h[bin] + weight);
            }
            proof {
                assert forall|k: int| 0 <= k < specs.n_square_bins implies #[trigger] h@[k] == w
                    * (rect_sum(bin_hit(a, b, u, k), s1 as int, p as int, s2 as int, e2 as int)
                    + row_sum(bin_hit(a, b, u, k), p as int, s2 as int, q + 1)) by {
                    let f = bin_hit(a, b, u, k);
                    let r = rect_sum(f, s1 as int, p as int, s2 as int, e2 as int);
                    let c = row_sum(f, p as int, s2 as int, q as int);
                    assert(row_sum(f, p as int, s2 as int, q + 1) == c + f(p as int, q as int));
                    if pair_bin(a, p as int, b, q as int, u) == k {
                        assert(w * (r + c + 1) == w * (r + c) + w) by (nonlinear_arith);
                    }
                }
            }
            q = q + 1;
        }
        proof {
            assert forall|k: int| 0 <= k < specs.n_square_bins implies #[trigger] h@[k] == w
                * rect_sum(bin_hit(a, b, u, k), s1 as int, p + 1, s2 as int, e2 as int) by {
                let f = bin_hit(a, b, u, k);
                assert(rect_sum(f, s1 as int, p + 1, s2 as int, e2 as int) == rect_sum(
                    f,
                    s1 as int,
                    p as int,
                    s2 as int,
                    e2 as int,
                ) + row_sum(f, p as int, s2 as int, e2 as int));
            }
        }
        p = p + 1;
    }
    h
}

/// The partial histogram of one block comparing two distinct sets: bin `k`
/// counts the pairs of the block whose squared bin is `k`. Pairs beyond the
/// histogram are dropped.
pub fn count_cross_block(
    specs: &HistogramSpecs,
    data_1: &XYZData,
    data_2: &XYZData,
    block: &WorkBlock,
) -> (h: Vec<u64>)
    requires
        specs.wf(),
        data_1.wf(),
        data_2.wf(),
        block.start_1 <= block.end_1 <= data_1.n_points,
        block.start_2 <= block.end_2 <= data_2.n_points,
        (block.end_1 - block.start_1) * (block.end_2 - block.start_2) <= u64::MAX,
    ensures
        h@.len() == specs.n_square_bins,
        forall|k: int|
            0 <= k < specs.n_square_bins ==> #[trigger] h@[k] == cross_block_count(
                data_1.data@,
                data_2.data@,
                specs.bin_size as int,
                k,
                *block,
            ),
{
    count_rect(
        specs,
        data_1,
        data_2,
        block.start_1,
        block.end_1,
        block.start_2,
        block.end_2,
        1,
    )
}

/// The partial histogram of one block of a set compared with itself. Off
/// the diagonal each pair of the block counts twice, for itself and its
/// mirror; on the diagonal each pair `q < p` of the first range counts twice
/// and each point adds its self-pair to bin 0 (the second range is not read).
/// Pairs beyond the histogram are dropped.
pub fn count_self_block(specs: &HistogramSpecs, data: &XYZData, block: &WorkBlock) -> (h: Vec<
    u64,
>)
    requires
        specs.wf(),
        data.wf(),
        block.start_1 <= block.end_1 <= data.n_points,
        block.on_diagonal ==> (block.end_1 - block.start_1) * (block.end_1 - block.start_1)
            <= u64::MAX,
        !block.on_diagonal ==> block.start_2 <= block.end_2 <= data.n_points && 2 * (block.end_1
            - block.start_1) * (block.end_2 - block.start_2) <= u64::MAX,
    ensures
        h@.len() == specs.n_square_bins,
        forall|k: int|
            0 <= k < specs.n_square_bins ==> #[trigger] h@[k] == self_block_count(
                data.data@,
                specs.bin_size as int,
                k,
                *block,
            ),
{
    if block.on_diagonal {
        count_triangle(specs, data, block.start_1, block.end_1)
    } else {
        count_rect(
            specs,
            data,
            data,
            block.start_1,
            block.end_1,
            block.start_2,
            block.end_2,
            2,
        )
    }
}

impl HistogramSpecs {
    /// Merges partial histograms by adding them bin by bin. `None` when a
    /// part does not have this geometry's number of squared bins, or when a
    /// merged bin does not fit in 64 bits. No part gives the zero histogram.
    pub fn reduce_histograms(&self, parts: &Vec<Vec<u64>>) -> (r: Option<Vec<u64>>)
        ensures
            r is Some <==> (forall|i: int|
                0 <= i < parts@.len() ==> (#[trigger] parts@[i])@.len() == self.n_square_bins)
                && (forall|k: int|
                0 <= k < self.n_square_bins ==> #[trigger] parts_sum(
                    parts@,
                    k,
                    parts@.len() as int,
                ) <= u64::MAX),
            r matches Some(h) ==> h@.len() == self.n_square_bins && forall|k: int|
                0 <= k < self.n_square_bins ==> #[trigger] h@[k] == parts_sum(
                    parts@,
                    k,
                    parts@.len() as int,
                ),
    {
        let n = self.n_square_bins;
        let np = parts.len();
        let mut i: usize = 0;
        while i < np
            invariant
                np == parts@.len(),
                n == self.n_square_bins,
                i <= np,
                forall|x: int| 0 <= x < i ==> (#[trigger] parts@[x])@.len() == n,
            decreases np - i,
        {
            if parts[i].len() != n {
                assert(parts@[i as int]@.len() != self.n_square_bins);
                return None;
            }
            i = i + 1;
        }
        let mut acc = self.create_empty_histogram();
        let mut i: usize = 0;
        while i < np
            invariant
                np == parts@.len(),
                n == self.n_square_bins,
                i <= np,
                forall|x: int| 0 <= x < np ==> (#[trigger] parts@[x])@.len() == n,
                acc@.len() == n,
                forall|k: int| 0 <= k < n ==> #[trigger] acc@[k] == parts_sum(parts@, k, i as int),
            decreases np - i,
        {
            let part = &parts[i];
            let mut k: usize = 0;
            while k < n
                invariant
                    np == parts@.len(),
                    n == self.n_square_bins,
                    i < np,
                    k <= n,
                    forall|x: int| 0 <= x < np ==> (#[trigger] parts@[x])@.len() == n,
                    part@ == parts@[i as int]@,
                    acc@.len() == n,
                    forall|x: int|
                        0 <= x < k ==> #[trigger] acc@[x] == parts_sum(parts@, x, i + 1),
                    forall|x: int|
                        k <= x < n ==> #[trigger] acc@[x] == parts_sum(parts@, x, i as int),
                decreases n - k,
            {
                let ghost g = |y: int| parts@[y]@[k as int] as int;
                if acc[k] > u64::MAX - part[k] {
                    proof {
                        lemma_sum_split(g, 0, i + 1, np as int);
                        lemma_sum_nonneg(g, i + 1, np as int);
                        assert(parts_sum(parts@, k as int, np as int) > u64::MAX);
                    }
                    return None;
                }
                acc.set(k, acc[k] + part[k]);
                k = k + 1;
            }
            i = i + 1;
        }
        assert forall|k: int| 0 <= k < n implies #[trigger] parts_sum(parts@, k, np as int)
            <= u64::MAX by {
            assert(acc@[k] == parts_sum(parts@, k, np as int));
        }
        Some(acc)
    }
}

} // verus!
