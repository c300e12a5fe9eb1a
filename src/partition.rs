//! Splitting point index ranges into near-equal chunks, and the grids of work
//! blocks that cover every pair of points to compare.
use vstd::prelude::*;
use vstd::arithmetic::div_mod::{lemma_div_is_ordered, lemma_div_by_multiple};

verus! {

/// One unit of work: a range of points of the first set, a range of points of
/// the second, and whether the block lies on the diagonal of a set compared
/// with itself.
#[derive(Debug, Clone, Copy, PartialEq, Eq, Structural)]
pub struct WorkBlock {
    pub start_1: usize,
    pub end_1: usize,
    pub start_2: usize,
    pub end_2: usize,
    pub on_diagonal: bool,
}

/// Edge `i` of `n` points cut into `t` chunks: `floor(i * n / t)`.
pub open spec fn chunk_edge(n: int, t: int, i: int) -> int {
    i * n / t
}

/// The block of chunk `i` of the first set and chunk `j` of the second.
pub open spec fn grid_block(n1: int, n2: int, t: int, i: int, j: int, diagonal: bool) -> WorkBlock {
    WorkBlock {
        start_1: chunk_edge(n1, t, i) as usize,
        end_1: chunk_edge(n1, t, i + 1) as usize,
        start_2: chunk_edge(n2, t, j) as usize,
        end_2: chunk_edge(n2, t, j + 1) as usize,
        on_diagonal: diagonal,
    }
}

/// The first `rows` rows of the full `t x t` grid over two distinct sets,
/// row by row.
pub open spec fn cross_grid(n1: int, n2: int, t: int, rows: int) -> Seq<WorkBlock>
    decreases rows,
{
    if rows <= 0 {
        Seq::empty()
    } else {
        cross_grid(n1, n2, t, rows - 1) + Seq::new(
            t as nat,
            |j: int| grid_block(n1, n2, t, rows - 1, j, false),
        )
    }
}

/// The first `rows` rows of the lower triangular grid over one set compared
/// with itself: row `i` holds the blocks `(i, j)` for `j <= i`, and `(i, i)`
/// is on the diagonal.
pub open spec fn self_grid(n: int, t: int, rows: int) -> Seq<WorkBlock>
    decreases rows,
{
    if rows <= 0 {
        Seq::empty()
    } else {
        self_grid(n, t, rows - 1) + Seq::new(
            rows as nat,
            |j: int| grid_block(n, n, t, rows - 1, j, j == rows - 1),
        )
    }
}

/// Chunk edges start at 0, end at `n`, and never decrease.
pub proof fn lemma_chunk_edges(n: int, t: int, i: int, j: int)
    requires
        0 <= n,
        0 < t,
        0 <= i <= j <= t,
    ensures
        chunk_edge(n, t, 0) == 0,
        chunk_edge(n, t, t) == n,
        0 <= chunk_edge(n, t, i) <= chunk_edge(n, t, j) <= n,
{
    assert(0 <= i * n <= j * n <= t * n) by (nonlinear_arith)
        requires
            0 <= i <= j <= t,
            0 <= n,
    ;
    lemma_div_is_ordered(0, i * n, t);
    lemma_div_is_ordered(i * n, j * n, t);
    lemma_div_is_ordered(j * n, t * n, t);
    lemma_div_by_multiple(n, t);
    assert(t * n == n * t) by (nonlinear_arith);
    assert(0 * n == 0);
}

/// Edge `i` of `n` points cut into `n_threads` chunks.
pub fn chunk_edge_at(n: usize, n_threads: usize, i: usize) -> (r: usize)
    requires
        0 < n_threads,
        i <= n_threads,
    ensures
        r == chunk_edge(n as int, n_threads as int, i as int),
{
    proof {
        lemma_chunk_edges(n as int, n_threads as int, i as int, n_threads as int);
        assert((i as int) * (n as int) < 0x1_0000_0000_0000_0000_0000_0000_0000_0000)
            by (nonlinear_arith)
            requires
                0 <= i < 0x1_0000_0000_0000_0000,
                0 <= n < 0x1_0000_0000_0000_0000,
        ;
    }
    (i as u128 * n as u128 / n_threads as u128) as usize
}

/// All work blocks comparing a set of `n_1` points with a distinct set of
/// `n_2` points: the `n_threads x n_threads` grid of chunk pairs, row by row.
/// None is on the diagonal; a thread count of 0 gives no block.
pub fn cross_blocks(n_1: usize, n_2: usize, n_threads: usize) -> (r: Vec<WorkBlock>)
    ensures
        r@ == cross_grid(n_1 as int, n_2 as int, n_threads as int, n_threads as int),
{
    let t = n_threads;
    let mut r: Vec<WorkBlock> = Vec::new();
    let mut i: usize = 0;
    while i < t
        invariant
            i <= t,
            r@ == cross_grid(n_1 as int, n_2 as int, t as int, i as int),
        decreases t - i,
    {
        let s1 = chunk_edge_at(n_1, t, i);
        let e1 = chunk_edge_at(n_1, t, i + 1);
        let ghost f = |j: int| grid_block(n_1 as int, n_2 as int, t as int, i as int, j, false);
        let mut j: usize = 0;
        while j < t
            invariant
                i < t,
                j <= t,
                s1 == chunk_edge(n_1 as int, t as int, i as int),
                e1 == chunk_edge(n_1 as int, t as int, i + 1),
                f == (|j: int| grid_block(n_1 as int, n_2 as int, t as int, i as int, j, false)),
                r@ == cross_grid(n_1 as int, n_2 as int, t as int, i as int) + Seq::new(
                    j as nat,
                    f,
                ),
            decreases t - j,
        {
            let s2 = chunk_edge_at(n_2, t, j);
            let e2 = chunk_edge_at(n_2, t, j + 1);
            r.push(WorkBlock { start_1: s1, end_1: e1, start_2: s2, end_2: e2, on_diagonal: false });
            assert(r@ =~= cross_grid(n_1 as int, n_2 as int, t as int, i as int) + Seq::new(
                (j + 1) as nat,
                f,
            ));
            j = j + 1;
        }
        i = i + 1;
    }
    r
}

/// All work blocks comparing a set of `n` points with itself: for each pair
/// of chunks `j <= i` of the `n_threads` chunks, row by row, with the block
/// `(i, i)` on the diagonal. A thread count of 0 gives no block.
pub fn self_blocks(n: usize, n_threads: usize) -> (r: Vec<WorkBlock>)
    ensures
        r@ == self_grid(n as int, n_threads as int, n_threads as int),
{
    let t = n_threads;
    let mut r: Vec<WorkBlock> = Vec::new();
    let mut i: usize = 0;
    while i < t
        invariant
            i <= t,
            r@ == self_grid(n as int, t as int, i as int),
        decreases t - i,
    {
        let s1 = chunk_edge_at(n, t, i);
        let e1 = chunk_edge_at(n, t, i + 1);
        let ghost f = |j: int| grid_block(n as int, n as int, t as int, i as int, j, j == i);
        let mut j: usize = 0;
        while j <= i
            invariant
                i < t,
                j <= i + 1,
                s1 == chunk_edge(n as int, t as int, i as int),
                e1 == chunk_edge(n as int, t as int, i + 1),
                f == (|j: int| grid_block(n as int, n as int, t as int, i as int, j, j == i)),
                r@ == self_grid(n as int, t as int, i as int) + Seq::new(j as nat, f),
            decreases i + 1 - j,
        {
            let s2 = chunk_edge_at(n, t, j);
            let e2 = chunk_edge_at(n, t, j + 1);
            r.push(WorkBlock { start_1: s1, end_1: e1, start_2: s2, end_2: e2, on_diagonal: i == j });
            assert(r@ =~= self_grid(n as int, t as int, i as int) + Seq::new((j + 1) as nat, f));
            j = j + 1;
        }
        i = i + 1;
    }
    r
}

} // verus!
