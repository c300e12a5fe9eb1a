//! The whole squared-distance computation on one worker: partition, count
//! each block, and merge, in order.
use vstd::prelude::*;
use crate::sums::{row_sum, lemma_sum_nonneg, lemma_rect_bounds};
use crate::geometry::{XYZData, HistogramSpecs, bin_hit};
use crate::partition::{
    WorkBlock,
    chunk_edge,
    grid_block,
    cross_grid,
    self_grid,
    cross_blocks,
    self_blocks,
    lemma_chunk_edges,
};
use crate::kernel::{
    cross_block_count,
    self_block_count,
    count_cross_block,
    count_self_block,
    lemma_hit_range,
    lemma_self_square,
};
use crate::laws::{
    blocks_total,
    cross_histogram,
    self_histogram,
    pair_histogram,
    lemma_blocks_total_append,
    law_cross_blocks_count_every_pair,
    law_self_blocks_match_full_comparison,
};

verus! {

/// A block of two distinct sets of `n1` and `n2` points.
pub open spec fn cross_block_ok(blk: WorkBlock, n1: int, n2: int) -> bool {
    blk.start_1 <= blk.end_1 <= n1 && blk.start_2 <= blk.end_2 <= n2
}

/// A block of a set of `n` points compared with itself: on the diagonal its
/// two ranges agree, off it the second range lies below the first.
pub open spec fn self_block_ok(blk: WorkBlock, n: int) -> bool {
    &&& blk.start_1 <= blk.end_1 <= n
    &&& blk.start_2 <= blk.end_2 <= n
    &&& blk.on_diagonal ==> blk.start_2 == blk.start_1 && blk.end_2 == blk.end_1
    &&& !blk.on_diagonal ==> blk.end_2 <= blk.start_1
}

proof fn lemma_cross_grid_ok(n1: int, n2: int, t: int, r: int)
    requires
        0 <= n1 <= usize::MAX,
        0 <= n2 <= usize::MAX,
        0 <= r <= t,
    ensures
        forall|x: int|
            0 <= x < cross_grid(n1, n2, t, r).len() ==> cross_block_ok(
                #[trigger] cross_grid(n1, n2, t, r)[x],
                n1,
                n2,
            ),
    decreases r,
{
    if r > 0 {
        lemma_cross_grid_ok(n1, n2, t, r - 1);
        lemma_chunk_edges(n1, t, r - 1, r);
        let prev = cross_grid(n1, n2, t, r - 1);
        assert forall|x: int| 0 <= x < cross_grid(n1, n2, t, r).len() implies cross_block_ok(
            #[trigger] cross_grid(n1, n2, t, r)[x],
            n1,
            n2,
        ) by {
            if x >= prev.len() {
                let j = x - prev.len();
                lemma_chunk_edges(n2, t, j, j + 1);
                assert(cross_grid(n1, n2, t, r)[x] == grid_block(n1, n2, t, r - 1, j, false));
            } else {
                assert(cross_grid(n1, n2, t, r)[x] == prev[x]);
            }
        }
    }
}

proof fn lemma_self_grid_ok(n: int, t: int, r: int)
    requires
        0 <= n <= usize::MAX,
        0 <= r <= t,
    ensures
        forall|x: int|
            0 <= x < self_grid(n, t, r).len() ==> self_block_ok(
                #[trigger] self_grid(n, t, r)[x],
                n,
            ),
    decreases r,
{
    if r > 0 {
        lemma_self_grid_ok(n, t, r - 1);
        lemma_chunk_edges(n, t, r - 1, r);
        let prev = self_grid(n, t, r - 1);
        assert forall|x: int| 0 <= x < self_grid(n, t, r).len() implies self_block_ok(
            #[trigger] self_grid(n, t, r)[x],
            n,
        ) by {
            if x >= prev.len() {
                let j = x - prev.len();
                lemma_chunk_edges(n, t, j, j + 1);
                if j < r - 1 {
                    lemma_chunk_edges(n, t, j + 1, r - 1);
                }
                assert(self_grid(n, t, r)[x] == grid_block(n, n, t, r - 1, j, j == r - 1));
            } else {
                assert(self_grid(n, t, r)[x] == prev[x]);
            }
        }
    }
}

proof fn lemma_blocks_total_nonneg(g: spec_fn(WorkBlock) -> int, s: Seq<WorkBlock>)
    requires
        forall|x: int| 0 <= x < s.len() ==> 0 <= #[trigger] g(s[x]),
    ensures
        0 <= blocks_total(g, s),
    decreases s.len(),
{
    if s.len() > 0 {
        lemma_blocks_total_nonneg(g, s.drop_last());
    }
}

/// A prefix of the blocks totals no more than all of them.
proof fn lemma_blocks_prefix(g: spec_fn(WorkBlock) -> int, s: Seq<WorkBlock>, i: int)
    requires
        0 <= i < s.len(),
        forall|x: int| 0 <= x < s.len() ==> 0 <= #[trigger] g(s[x]),
    ensures
        blocks_total(g, s.take(i + 1)) == blocks_total(g, s.take(i)) + g(s[i]),
        blocks_total(g, s.take(i + 1)) <= blocks_total(g, s),
{
    assert(s.take(i + 1).drop_last() =~= s.take(i));
    assert(s =~= s.take(i + 1) + s.skip(i + 1));
    lemma_blocks_total_append(g, s.take(i + 1), s.skip(i + 1));
    assert forall|x: int| 0 <= x < s.skip(i + 1).len() implies 0 <= #[trigger] g(
        s.skip(i + 1)[x],
    ) by {
        assert(s.skip(i + 1)[x] == s[x + i + 1]);
    }
    lemma_blocks_total_nonneg(g, s.skip(i + 1));
}

proof fn lemma_cross_count_nonneg(a: Seq<i64>, b: Seq<i64>, u: int, k: int, blk: WorkBlock)
    ensures
        0 <= cross_block_count(a, b, u, k, blk),
{
    let f = bin_hit(a, b, u, k);
    lemma_hit_range(a, b, u, k);
    assert forall|p: int| 0 <= #[trigger] row_sum(f, p, blk.start_2 as int, blk.end_2 as int) by {
        lemma_sum_nonneg(|q: int| f(p, q), blk.start_2 as int, blk.end_2 as int);
    }
    lemma_sum_nonneg(
        |p: int| row_sum(f, p, blk.start_2 as int, blk.end_2 as int),
        blk.start_1 as int,
        blk.end_1 as int,
    );
}

proof fn lemma_self_count_nonneg(a: Seq<i64>, u: int, k: int, blk: WorkBlock, n: int)
    requires
        self_block_ok(blk, n),
    ensures
        0 <= self_block_count(a, u, k, blk),
{
    let f = bin_hit(a, a, u, k);
    lemma_hit_range(a, a, u, k);
    lemma_cross_count_nonneg(a, a, u, k, blk);
    let s = blk.start_1 as int;
    assert forall|p: int| 0 <= #[trigger] row_sum(f, p, s, p) by {
        lemma_sum_nonneg(|q: int| f(p, q), s, p);
    }
    lemma_sum_nonneg(|p: int| row_sum(f, p, s, p), s, blk.end_1 as int);
}

/// Adds `part` into `acc` bin by bin.
fn add_into(acc: &mut Vec<u64>, part: &Vec<u64>)
    requires
        old(acc)@.len() == part@.len(),
        forall|k: int| 0 <= k < part@.len() ==> old(acc)@[k] + part@[k] <= u64::MAX,
    ensures
        final(acc)@.len() == part@.len(),
        forall|k: int|
            0 <= k < part@.len() ==> #[trigger] final(acc)@[k] == old(acc)@[k] + part@[k],
{
    let ghost start = acc@;
    let n = part.len();
    let mut k: usize = 0;
    while k < n
        invariant
            n == part@.len(),
            start.len() == n,
            acc@.len() == n,
            k <= n,
            forall|x: int| 0 <= x < n ==> start[x] + part@[x] <= u64::MAX,
            forall|x: int| 0 <= x < k ==> #[trigger] acc@[x] == start[x] + part@[x],
            forall|x: int| k <= x < n ==> #[trigger] acc@[x] == start[x],
        decreases n - k,
    {
        let v = acc[k] + part[k];
        acc.set(k, v);
        k = k + 1;
    }
}

/// The squared-distance histogram of two distinct sets, computed block by
/// block over `n_threads x n_threads` chunks on one worker: bin `k` is the
/// merged count of the cross grid, that is, every ordered pair in bin `k`.
pub fn cross_square_histogram(
    specs: &HistogramSpecs,
    data_1: &XYZData,
    data_2: &XYZData,
    n_threads: usize,
) -> (h: Vec<u64>)
    requires
        specs.wf(),
        data_1.wf(),
        data_2.wf(),
        data_1.n_points * data_2.n_points <= u64::MAX,
    ensures
        h@.len() == specs.n_square_bins,
        forall|k: int|
            0 <= k < specs.n_square_bins ==> #[trigger] h@[k] == cross_histogram(
                *specs,
                *data_1,
                *data_2,
                n_threads as int,
                k,
            ),
{
    let ghost a = data_1.data@;
    let ghost b = data_2.data@;
    let ghost u = specs.bin_size as int;
    let ghost n1 = data_1.n_points as int;
    let ghost n2 = data_2.n_points as int;
    let blocks = cross_blocks(data_1.n_points, data_2.n_points, n_threads);
    proof {
        lemma_cross_grid_ok(n1, n2, n_threads as int, n_threads as int);
        if n_threads > 0 {
            law_cross_blocks_count_every_pair(*specs, *data_1, *data_2, n_threads as int);
        }
    }
    let mut acc = specs.create_empty_histogram();
    let mut i: usize = 0;
    while i < blocks.len()
        invariant
            specs.wf(),
            data_1.wf(),
            data_2.wf(),
            a == data_1.data@,
            b == data_2.data@,
            u == specs.bin_size as int,
            n1 == data_1.n_points,
            n2 == data_2.n_points,
            n1 * n2 <= u64::MAX,
            blocks@ == cross_grid(n1, n2, n_threads as int, n_threads as int),
            n_threads > 0 ==> forall|k: int| #[trigger]
                cross_histogram(*specs, *data_1, *data_2, n_threads as int, k)
                    == pair_histogram(*specs, *data_1, *data_2, k),
            forall|x: int| 0 <= x < blocks@.len() ==> cross_block_ok(#[trigger] blocks@[x], n1, n2),
            i <= blocks@.len(),
            acc@.len() == specs.n_square_bins,
            forall|k: int|
                0 <= k < specs.n_square_bins ==> #[trigger] acc@[k] == blocks_total(
                    |blk: WorkBlock| cross_block_count(a, b, u, k, blk),
                    blocks@.take(i as int),
                ),
        decreases blocks@.len() - i,
    {
        let block = &blocks[i];
        proof {
            assert(cross_block_ok(blocks@[i as int], n1, n2));
            assert((block.end_1 - block.start_1) * (block.end_2 - block.start_2) <= n1 * n2)
                by (nonlinear_arith)
                requires
                    0 <= block.end_1 - block.start_1 <= n1,
                    0 <= block.end_2 - block.start_2 <= n2,
            ;
        }
        let part = count_cross_block(specs, data_1, data_2, block);
        proof {
            assert forall|k: int| 0 <= k < part@.len() implies acc@[k] + part@[k] <= u64::MAX
                && #[trigger] acc@[k] + part@[k] == blocks_total(
                |blk: WorkBlock| cross_block_count(a, b, u, k, blk),
                blocks@.take(i + 1),
            ) by {
                let g = |blk: WorkBlock| cross_block_count(a, b, u, k, blk);
                assert forall|x: int| 0 <= x < blocks@.len() implies 0 <= #[trigger] g(
                    blocks@[x],
                ) by {
                    lemma_cross_count_nonneg(a, b, u, k, blocks@[x]);
                }
                lemma_blocks_prefix(g, blocks@, i as int);
                lemma_hit_range(a, b, u, k);
                lemma_rect_bounds(bin_hit(a, b, u, k), 1, 0, n1, 0, n2);
                assert(part@[k] == g(blocks@[i as int]));
                assert(g =~= (|blk: WorkBlock|
                    cross_block_count(data_1.data@, data_2.data@, specs.bin_size as int, k, blk)));
                assert(blocks_total(g, blocks@) == cross_histogram(
                    *specs,
                    *data_1,
                    *data_2,
                    n_threads as int,
                    k,
                ));
                assert(blocks_total(g, blocks@) <= n1 * n2);
            }
        }
        add_into(&mut acc, &part);
        i = i + 1;
    }
    proof {
        assert(blocks@.take(blocks@.len() as int) =~= blocks@);
    }
    acc
}

/// The squared-distance histogram of one set compared with itself, computed
/// block by block over the triangular grid of `n_threads` chunks on one
/// worker: bin `k` is the merged count of that grid.
pub fn self_square_histogram(specs: &HistogramSpecs, data: &XYZData, n_threads: usize) -> (h: Vec<
    u64,
>)
    requires
        specs.wf(),
        data.wf(),
        data.n_points * data.n_points <= u64::MAX,
    ensures
        h@.len() == specs.n_square_bins,
        forall|k: int|
            0 <= k < specs.n_square_bins ==> #[trigger] h@[k] == self_histogram(
                *specs,
                *data,
                n_threads as int,
                k,
            ),
{
    let ghost a = data.data@;
    let ghost u = specs.bin_size as int;
    let ghost n = data.n_points as int;
    let blocks = self_blocks(data.n_points, n_threads);
    proof {
        lemma_self_grid_ok(n, n_threads as int, n_threads as int);
        if n_threads > 0 {
            law_self_blocks_match_full_comparison(*specs, *data, *data, n_threads as int, 1);
            law_cross_blocks_count_every_pair(*specs, *data, *data, 1);
        }
    }
    let mut acc = specs.create_empty_histogram();
    let mut i: usize = 0;
    while i < blocks.len()
        invariant
            specs.wf(),
            data.wf(),
            a == data.data@,
            u == specs.bin_size as int,
            n == data.n_points,
            n * n <= u64::MAX,
            blocks@ == self_grid(n, n_threads as int, n_threads as int),
            n_threads > 0 ==> forall|k: int| #[trigger]
                self_histogram(*specs, *data, n_threads as int, k) == pair_histogram(
                    *specs,
                    *data,
                    *data,
                    k,
                ),
            forall|x: int| 0 <= x < blocks@.len() ==> self_block_ok(#[trigger] blocks@[x], n),
            i <= blocks@.len(),
            acc@.len() == specs.n_square_bins,
            forall|k: int|
                0 <= k < specs.n_square_bins ==> #[trigger] acc@[k] == blocks_total(
                    |blk: WorkBlock| self_block_count(a, u, k, blk),
                    blocks@.take(i as int),
                ),
        decreases blocks@.len() - i,
    {
        let block = &blocks[i];
        proof {
            assert(self_block_ok(blocks@[i as int], n));
            let x = block.end_1 - block.start_1;
            let y = block.end_2 - block.start_2;
            assert(x * x <= n * n && (x + y <= n ==> 2 * x * y <= n * n)) by (nonlinear_arith)
                requires
                    0 <= x <= n,
                    0 <= y,
            ;
        }
        let part = count_self_block(specs, data, block);
        proof {
            assert forall|k: int| 0 <= k < part@.len() implies acc@[k] + part@[k] <= u64::MAX
                && #[trigger] acc@[k] + part@[k] == blocks_total(
                |blk: WorkBlock| self_block_count(a, u, k, blk),
                blocks@.take(i + 1),
            ) by {
                let g = |blk: WorkBlock| self_block_count(a, u, k, blk);
                assert forall|x: int| 0 <= x < blocks@.len() implies 0 <= #[trigger] g(
                    blocks@[x],
                ) by {
                    lemma_self_count_nonneg(a, u, k, blocks@[x], n);
                }
                lemma_blocks_prefix(g, blocks@, i as int);
                lemma_hit_range(a, a, u, k);
                lemma_rect_bounds(bin_hit(a, a, u, k), 1, 0, n, 0, n);
                assert(part@[k] == g(blocks@[i as int]));
                assert(g =~= (|blk: WorkBlock|
                    self_block_count(data.data@, specs.bin_size as int, k, blk)));
                assert(blocks_total(g, blocks@) == self_histogram(
                    *specs,
                    *data,
                    n_threads as int,
                    k,
                ));
                assert(blocks_total(g, blocks@) <= n * n);
            }
        }
        add_into(&mut acc, &part);
        i = i + 1;
    }
    proof {
        assert(blocks@.take(blocks@.len() as int) =~= blocks@);
    }
    acc
}

} // verus!
