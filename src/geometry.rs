//! Point buffers, binning geometry, and the squared-distance to bin mapping.
//!
//! Coordinates are fixed-point integers: one linear bin is `bin_size`
//! coordinate units wide, so a pair at squared distance `d2` (in squared
//! units) falls into squared bin `floor(d2 / bin_size^2)`.
use vstd::prelude::*;
use crate::sums::{sum_range, lemma_sum_bounds, lemma_sum_split, lemma_sum_single};

verus! {

/// Coordinate `c` (0, 1 or 2) of point `p` in a flat `x, y, z` buffer.
pub open spec fn coord(a: Seq<i64>, p: int, c: int) -> int {
    a[3 * p + c] as int
}

pub open spec fn square(x: int) -> int {
    x * x
}

/// Squared Euclidean distance between point `p` of `a` and point `q` of `b`.
pub open spec fn sq_dist(a: Seq<i64>, p: int, b: Seq<i64>, q: int) -> int {
    square(coord(a, p, 0) - coord(b, q, 0)) + square(coord(a, p, 1) - coord(b, q, 1)) + square(
        coord(a, p, 2) - coord(b, q, 2),
    )
}

/// The squared bin of a pair: its squared distance in units of `unit^2`,
/// truncated.
pub open spec fn pair_bin(a: Seq<i64>, p: int, b: Seq<i64>, q: int, unit: int) -> int {
    sq_dist(a, p, b, q) / (unit * unit)
}

/// 1 for a pair that lands in squared bin `k`, else 0.
pub open spec fn bin_hit(a: Seq<i64>, b: Seq<i64>, unit: int, k: int) -> spec_fn(int, int) -> int {
    |p: int, q: int| if pair_bin(a, p, b, q, unit) == k { 1int } else { 0int }
}

/// 1 for a pair whose squared bin is at least `limit` (outside a histogram of
/// `limit` squared bins), else 0.
pub open spec fn bin_beyond(a: Seq<i64>, b: Seq<i64>, unit: int, limit: int) -> spec_fn(
    int,
    int,
) -> int {
    |p: int, q: int| if pair_bin(a, p, b, q, unit) >= limit { 1int } else { 0int }
}

/// A histogram as a function from bin index to count.
pub open spec fn counts(h: Seq<u64>) -> spec_fn(int) -> int {
    |j: int| h[j] as int
}

/// The sum of every bin of a histogram.
pub open spec fn hist_sum(h: Seq<u64>) -> int {
    sum_range(counts(h), 0, h.len() as int)
}

pub open spec fn clip(x: int, n: int) -> int {
    if x < n {
        x
    } else {
        n
    }
}

/// Linear bin `i` of a squared-distance histogram `h` of `n` bins: the sum of
/// the squared bins `[i^2, (i+1)^2)` that exist.
pub open spec fn linear_bin(h: spec_fn(int) -> int, n: int, i: int) -> int {
    sum_range(h, clip(i * i, n), clip((i + 1) * (i + 1), n))
}

/// The number of squared bins up to radius `max_r`: `floor(max_r^2 / bin_size^2)`.
pub open spec fn square_bins_for(bin_size: int, max_r: int) -> int {
    (max_r * max_r) / (bin_size * bin_size)
}

/// An ordered set of 3-D points, stored flat as `x, y, z` per point.
pub struct XYZData {
    pub data: Vec<i64>,
    pub n_points: usize,
}

impl XYZData {
    pub open spec fn wf(&self) -> bool {
        self.data@.len() == 3 * self.n_points
    }

    /// Groups a flat coordinate stream into points; `None` when its length is
    /// not a multiple of three.
    pub fn new(data: Vec<i64>) -> (r: Option<XYZData>)
        ensures
            r is Some <==> data@.len() % 3 == 0,
            r matches Some(d) ==> d.wf() && d.data@ == data@,
    {
        if data.len() % 3 != 0 {
            return None;
        }
        let n_points = data.len() / 3;
        Some(XYZData { data, n_points })
    }
}

/// Why a binning geometry was refused.
#[derive(Debug, Clone, Copy, PartialEq, Eq, Structural)]
pub enum SpecsError {
    ZeroBinSize,
    RadiusNotAboveBinSize,
    TooManyBins,
}

/// The binning geometry: the width of a linear bin in coordinate units and
/// the number of linear and squared bins.
pub struct HistogramSpecs {
    pub bin_size: u32,
    pub n_linear_bins: usize,
    pub n_square_bins: usize,
}

pub open spec fn abs(x: int) -> int {
    if x < 0 {
        -x
    } else {
        x
    }
}

fn abs_diff(x: i64, y: i64) -> (r: u128)
    ensures
        r as int == abs(x - y),
        (r as int) < 0x1_0000_0000_0000_0000,
{
    let d: i128 = x as i128 - y as i128;
    if d < 0 {
        (-d) as u128
    } else {
        d as u128
    }
}

proof fn lemma_square_abs(x: int)
    requires
        abs(x) < 0x1_0000_0000_0000_0000,
    ensures
        abs(x) * abs(x) == square(x),
        0 <= square(x) < 0x1_0000_0000_0000_0000_0000_0000_0000_0000,
{
    let a = abs(x);
    assert(a * a == x * x) by (nonlinear_arith)
        requires
            a == x || a == -x,
    ;
    assert(0 <= a * a < 0x1_0000_0000_0000_0000_0000_0000_0000_0000) by (nonlinear_arith)
        requires
            0 <= a < 0x1_0000_0000_0000_0000,
    ;
}

proof fn lemma_big_quotient(d: int, m: int)
    requires
        d >= 0x1_0000_0000_0000_0000_0000_0000_0000_0000,
        0 < m < 0x1_0000_0000_0000_0000,
    ensures
        d / m >= 0x1_0000_0000_0000_0000,
{
    let q = d / m;
    let r = d % m;
    assert(d == m * q + r && 0 <= r < m) by (nonlinear_arith)
        requires
            q == d / m,
            r == d % m,
            m > 0,
    ;
    if q < 0x1_0000_0000_0000_0000 {
        assert(m * q + r < 0x1_0000_0000_0000_0000_0000_0000_0000_0000) by (nonlinear_arith)
            requires
                0 <= r < m,
                m < 0x1_0000_0000_0000_0000,
                q < 0x1_0000_0000_0000_0000,
                q >= 0,
        ;
    }
}

proof fn lemma_wide_square(x: int)
    requires
        0 <= x < 0x1_0000_0000_0000_0000,
    ensures
        0 <= x * x < 0x1_0000_0000_0000_0000_0000_0000_0000_0000,
        x > 0 ==> x * x > 0,
{
    assert(0 <= x * x < 0x1_0000_0000_0000_0000_0000_0000_0000_0000 && (x > 0 ==> x * x > 0))
        by (nonlinear_arith)
        requires
            0 <= x < 0x1_0000_0000_0000_0000,
    ;
}

/// There are never more linear bins than squared bins.
proof fn lemma_linear_below_square(b: int, r: int)
    requires
        0 < b < r,
    ensures
        r / b <= square_bins_for(b, r),
{
    let q = r / b;
    assert(q * b <= r && q >= 1) by (nonlinear_arith)
        requires
            q == r / b,
            0 < b < r,
    ;
    assert(q * q * (b * b) <= r * r) by (nonlinear_arith)
        requires
            0 <= q * b <= r,
            q >= 1,
            b > 0,
    ;
    assert(q <= q * q) by (nonlinear_arith)
        requires
            q >= 1,
    ;
    assert(q * q <= (r * r) / (b * b)) by (nonlinear_arith)
        requires
            q * q * (b * b) <= r * r,
            b > 0,
    ;
}

impl HistogramSpecs {
    pub open spec fn wf(&self) -> bool {
        self.bin_size > 0
    }

    /// The squared bin of point `p` of `a` and point `q` of `b` under this
    /// geometry's unit.
    pub open spec fn bin_of(&self, a: Seq<i64>, p: int, b: Seq<i64>, q: int) -> int {
        pair_bin(a, p, b, q, self.bin_size as int)
    }

    /// Builds the geometry for linear bins `bin_size` units wide up to the
    /// radius `max_r` (in the same units): `floor(max_r / bin_size)` linear
    /// bins and `floor(max_r^2 / bin_size^2)` squared bins.
    pub fn new(bin_size: u32, max_r: u64) -> (r: Result<HistogramSpecs, SpecsError>)
        ensures
            bin_size == 0 ==> r == Err::<HistogramSpecs, SpecsError>(SpecsError::ZeroBinSize),
            bin_size > 0 && max_r <= bin_size ==> r == Err::<HistogramSpecs, SpecsError>(
                SpecsError::RadiusNotAboveBinSize,
            ),
            bin_size > 0 && max_r > bin_size && square_bins_for(bin_size as int, max_r as int)
                > usize::MAX ==> r == Err::<HistogramSpecs, SpecsError>(SpecsError::TooManyBins),
            r is Ok <==> bin_size > 0 && max_r > bin_size && square_bins_for(
                bin_size as int,
                max_r as int,
            ) <= usize::MAX,
            r matches Ok(s) ==> s.wf() && s.bin_size == bin_size && s.n_linear_bins == (max_r as int)
                / (bin_size as int) && s.n_square_bins == square_bins_for(
                bin_size as int,
                max_r as int,
            ),
    {
        if bin_size == 0 {
            return Err(SpecsError::ZeroBinSize);
        }
        if max_r <= bin_size as u64 {
            return Err(SpecsError::RadiusNotAboveBinSize);
        }
        proof {
            lemma_wide_square(max_r as int);
            lemma_wide_square(bin_size as int);
        }
        let r2: u128 = max_r as u128 * max_r as u128;
        let b2: u128 = bin_size as u128 * bin_size as u128;
        let n_square: u128 = r2 / b2;
        if n_square > usize::MAX as u128 {
            return Err(SpecsError::TooManyBins);
        }
        let n_linear: u64 = max_r / bin_size as u64;
        proof {
            lemma_linear_below_square(bin_size as int, max_r as int);
        }
        Ok(HistogramSpecs {
            bin_size,
            n_linear_bins: n_linear as usize,
            n_square_bins: n_square as usize,
        })
    }

    /// A zero-filled squared-distance histogram.
    pub fn create_empty_histogram(&self) -> (r: Vec<u64>)
        ensures
            r@.len() == self.n_square_bins,
            forall|k: int| 0 <= k < r@.len() ==> r@[k] == 0,
    {
        vec![0u64; self.n_square_bins]
    }

    /// The squared bin of point `p` of `a` and point `q` of `b`, or `None`
    /// when it lies outside this histogram.
    pub fn square_bin_index(&self, a: &XYZData, p: usize, b: &XYZData, q: usize) -> (r: Option<
        usize,
    >)
        requires
            self.wf(),
            a.wf(),
            b.wf(),
            p < a.n_points,
            q < b.n_points,
        ensures
            r == (if self.bin_of(a.data@, p as int, b.data@, q as int) < self.n_square_bins {
                Some(self.bin_of(a.data@, p as int, b.data@, q as int) as usize)
            } else {
                None::<usize>
            }),
            r matches Some(bin) ==> bin as int == self.bin_of(a.data@, p as int, b.data@, q as int),
    {
        let la = a.data.len();
        let lb = b.data.len();
        let i: usize = 3 * p;
        let j: usize = 3 * q;
        let dx = abs_diff(a.data[i], b.data[j]);
        let dy = abs_diff(a.data[i + 1], b.data[j + 1]);
        let dz = abs_diff(a.data[i + 2], b.data[j + 2]);
        proof {
            lemma_square_abs(coord(a.data@, p as int, 0) - coord(b.data@, q as int, 0));
            lemma_square_abs(coord(a.data@, p as int, 1) - coord(b.data@, q as int, 1));
            lemma_square_abs(coord(a.data@, p as int, 2) - coord(b.data@, q as int, 2));
        }
        let sx: u128 = dx * dx;
        let sy: u128 = dy * dy;
        let sz: u128 = dz * dz;
        let ghost d2 = sq_dist(a.data@, p as int, b.data@, q as int);
        let ghost u = self.bin_size as int;
        proof {
            assert(0 < u * u < 0x1_0000_0000_0000_0000) by (nonlinear_arith)
                requires
                    0 < u < 0x1_0000_0000,
            ;
        }
        let m: u128 = self.bin_size as u128 * self.bin_size as u128;
        if sx > u128::MAX - sy || sx + sy > u128::MAX - sz {
            proof {
                lemma_big_quotient(d2, u * u);
            }
            return None;
        }
        let bin: u128 = (sx + sy + sz) / m;
        if bin < self.n_square_bins as u128 {
            Some(bin as usize)
        } else {
            None
        }
    }

    /// Folds a squared-distance histogram into linear bins: linear bin `i`
    /// sums the squared bins `[i^2, (i+1)^2)` that exist.
    pub fn unsquare_historgam(&self, data: Vec<u64>) -> (r: Vec<u64>)
        requires
            hist_sum(data@) <= u64::MAX,
        ensures
            r@.len() == self.n_linear_bins,
            forall|i: int|
                0 <= i < self.n_linear_bins ==> #[trigger] r@[i] == linear_bin(
                    counts(data@),
                    data@.len() as int,
                    i,
                ),
    {
        let n = data.len();
        let ghost h = counts(data@);
        proof {
            lemma_sum_bounds(h, u64::MAX as int, 0, n as int);
        }
        let mut output: Vec<u64> = Vec::new();
        let mut i: usize = 0;
        while i < self.n_linear_bins
            invariant
                n == data@.len(),
                h == counts(data@),
                0 <= sum_range(h, 0, n as int) <= u64::MAX,
                i <= self.n_linear_bins,
                output@.len() == i,
                forall|x: int| 0 <= x < i ==> #[trigger] output@[x] == linear_bin(h, n as int, x),
            decreases self.n_linear_bins - i,
        {
            let ii: u128 = i as u128;
            proof {
                assert(ii * ii < 0x1_0000_0000_0000_0000_0000_0000_0000_0000 && (ii + 1) * (ii + 1)
                    < 0x1_0000_0000_0000_0000_0000_0000_0000_0000) by (nonlinear_arith)
                    requires
                        ii < 0x1_0000_0000_0000_0000 - 1,
                ;
            }
            let lo_wide: u128 = ii * ii;
            let hi_wide: u128 = (ii + 1) * (ii + 1);
            let lo: usize = if lo_wide < n as u128 { lo_wide as usize } else { n };
            let hi: usize = if hi_wide < n as u128 { hi_wide as usize } else { n };
            proof {
                assert(ii * ii <= (ii + 1) * (ii + 1)) by (nonlinear_arith);
            }
            let mut acc: u64 = 0;
            let mut j: usize = lo;
            while j < hi
                invariant
                    n == data@.len(),
                    h == counts(data@),
                    0 <= sum_range(h, 0, n as int) <= u64::MAX,
                    lo <= j <= hi <= n,
                    acc == sum_range(h, lo as int, j as int),
                decreases hi - j,
            {
                proof {
                    lemma_sum_split(h, 0, lo as int, n as int);
                    lemma_sum_split(h, lo as int, j as int + 1, n as int);
                    lemma_sum_bounds(h, u64::MAX as int, 0, lo as int);
                    lemma_sum_bounds(h, u64::MAX as int, j as int + 1, n as int);
                }
                acc = acc + data[j];
                j = j + 1;
            }
            output.push(acc);
            i = i + 1;
        }
        output
    }
}

/// The total count of a histogram, or `None` when it does not fit in 64 bits.
pub fn histogram_total(h: &Vec<u64>) -> (r: Option<u64>)
    ensures
        r == (if hist_sum(h@) <= u64::MAX {
            Some(hist_sum(h@) as u64)
        } else {
            None::<u64>
        }),
{
    let ghost f = counts(h@);
    let mut acc: u64 = 0;
    let mut j: usize = 0;
    while j < h.len()
        invariant
            f == counts(h@),
            j <= h@.len(),
            acc == sum_range(f, 0, j as int),
        decreases h@.len() - j,
    {
        proof {
            lemma_sum_split(f, 0, j as int + 1, h@.len() as int);
            lemma_sum_bounds(f, u64::MAX as int, j as int + 1, h@.len() as int);
        }
        if acc > u64::MAX - h[j] {
            return None;
        }
        acc = acc + h[j];
        j = j + 1;
    }
    Some(acc)
}

} // verus!
