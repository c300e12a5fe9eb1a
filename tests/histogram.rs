use pair_counts::{
    chunk_edge_at, count_cross_block, count_self_block, cross_blocks, cross_square_histogram,
    histogram_total, self_blocks, self_square_histogram, HistogramSpecs, SpecsError, WorkBlock,
    XYZData,
};

fn points(coords: &[i64]) -> XYZData {
    XYZData::new(coords.to_vec()).unwrap()
}

fn specs(bin_size: u32, max_r: u64) -> HistogramSpecs {
    HistogramSpecs::new(bin_size, max_r).unwrap()
}

fn cross_squared(s: &HistogramSpecs, a: &XYZData, b: &XYZData, t: usize) -> Vec<u64> {
    let blocks = cross_blocks(a.n_points, b.n_points, t);
    let parts: Vec<Vec<u64>> = blocks.iter().map(|blk| count_cross_block(s, a, b, blk)).collect();
    s.reduce_histograms(&parts).unwrap()
}

fn self_squared(s: &HistogramSpecs, a: &XYZData, t: usize) -> Vec<u64> {
    let blocks = self_blocks(a.n_points, t);
    let parts: Vec<Vec<u64>> = blocks.iter().map(|blk| count_self_block(s, a, blk)).collect();
    s.reduce_histograms(&parts).unwrap()
}

fn linear(s: &HistogramSpecs, h: Vec<u64>) -> Vec<u64> {
    s.unsquare_historgam(h)
}

fn dropped(s: &HistogramSpecs, a: &XYZData, b: &XYZData) -> u64 {
    let mut n = 0;
    for p in 0..a.n_points {
        for q in 0..b.n_points {
            if s.square_bin_index(a, p, b, q).is_none() {
                n += 1;
            }
        }
    }
    n
}

// A scattered set with pairs inside and beyond a radius of 10.
fn scattered() -> XYZData {
    points(&[
        0, 0, 0, 3, 0, 0, 1, 2, 2, 7, -4, 1, 0, 9, 0, -3, -3, -3, 12, 5, -1, 2, 2, 2, 0, 0, 1,
        -8, 0, 6, 4, 4, 4,
    ])
}

fn other_set() -> XYZData {
    points(&[1, 1, 1, -2, 5, 0, 6, 6, 6, 0, -1, 3, 9, 0, 0])
}

#[test]
fn two_points_three_apart() {
    let s = specs(1, 10);
    let a = points(&[0, 0, 0]);
    let b = points(&[3, 0, 0]);
    assert_eq!(s.square_bin_index(&a, 0, &b, 0), Some(9));
    let lin = linear(&s, cross_squared(&s, &a, &b, 1));
    assert_eq!(lin, vec![0, 0, 0, 1, 0, 0, 0, 0, 0, 0]);
}

#[test]
fn two_coincident_points_diagonal() {
    let s = specs(1, 10);
    let a = points(&[0, 0, 0, 0, 0, 0]);
    let sq = self_squared(&s, &a, 1);
    assert_eq!(sq[0], 4);
    let lin = linear(&s, sq);
    assert_eq!(lin[0], 4);
    assert_eq!(lin[1..].iter().sum::<u64>(), 0);
}

#[test]
fn cross_conservation_counts_every_pair() {
    let s = specs(1, 10);
    let a = scattered();
    let b = other_set();
    let lin = linear(&s, cross_squared(&s, &a, &b, 3));
    let total: u64 = lin.iter().sum();
    assert_eq!(total + dropped(&s, &a, &b), (a.n_points * b.n_points) as u64);
    assert!(dropped(&s, &a, &b) > 0);
}

#[test]
fn self_conservation_counts_every_pair() {
    let s = specs(1, 10);
    let a = scattered();
    let lin = linear(&s, self_squared(&s, &a, 4));
    let total: u64 = lin.iter().sum();
    assert_eq!(total + dropped(&s, &a, &a), (a.n_points * a.n_points) as u64);
}

#[test]
fn diagonal_matches_full_comparison() {
    let s = specs(1, 10);
    let a = scattered();
    let copy = scattered();
    for t in [1usize, 2, 3, 5] {
        assert_eq!(self_squared(&s, &a, t), cross_squared(&s, &a, &copy, t));
    }
}

#[test]
fn result_independent_of_thread_count() {
    let s = specs(1, 10);
    let a = scattered();
    let b = other_set();
    let lin_cross = linear(&s, cross_squared(&s, &a, &b, 1));
    let lin_self = linear(&s, self_squared(&s, &a, 1));
    for t in [2usize, 7, 11] {
        assert_eq!(linear(&s, cross_squared(&s, &a, &b, t)), lin_cross);
        assert_eq!(linear(&s, self_squared(&s, &a, t)), lin_self);
    }
}

#[test]
fn self_distance_fills_bin_zero() {
    let s = specs(1, 10);
    let a = scattered();
    let sq = self_squared(&s, &a, 3);
    assert!(sq[0] >= a.n_points as u64);
}

#[test]
fn swapping_sets_keeps_histogram() {
    let s = specs(1, 10);
    let a = scattered();
    let b = other_set();
    assert_eq!(cross_squared(&s, &a, &b, 2), cross_squared(&s, &b, &a, 2));
    assert_eq!(
        linear(&s, cross_squared(&s, &a, &b, 3)),
        linear(&s, cross_squared(&s, &b, &a, 3))
    );
}

#[test]
fn fixed_point_units_scale_distances() {
    // Bins 10 units wide: a distance of 25 units is 2.5 bins, squared 6.25.
    let s = specs(10, 100);
    assert_eq!(s.n_linear_bins, 10);
    assert_eq!(s.n_square_bins, 100);
    let a = points(&[0, 0, 0]);
    let b = points(&[25, 0, 0]);
    assert_eq!(s.square_bin_index(&a, 0, &b, 0), Some(6));
    let lin = linear(&s, cross_squared(&s, &a, &b, 1));
    assert_eq!(lin, vec![0, 0, 1, 0, 0, 0, 0, 0, 0, 0]);
}

#[test]
fn pair_beyond_histogram_is_dropped() {
    let s = specs(1, 3);
    let a = points(&[0, 0, 0]);
    let b = points(&[3, 0, 0, 1, 1, 1]);
    assert_eq!(s.n_square_bins, 9);
    assert_eq!(s.square_bin_index(&a, 0, &b, 0), None);
    assert_eq!(s.square_bin_index(&a, 0, &b, 1), Some(3));
    let sq = cross_squared(&s, &a, &b, 2);
    assert_eq!(sq, vec![0, 0, 0, 1, 0, 0, 0, 0, 0]);
}

#[test]
fn extreme_coordinates_are_dropped() {
    let s = specs(1, 10);
    let a = points(&[i64::MIN, i64::MIN, i64::MIN]);
    let b = points(&[i64::MAX, i64::MAX, i64::MAX]);
    assert_eq!(s.square_bin_index(&a, 0, &b, 0), None);
}

#[test]
fn geometry_from_radius() {
    let s = specs(2, 7);
    assert_eq!(s.bin_size, 2);
    assert_eq!(s.n_linear_bins, 3);
    assert_eq!(s.n_square_bins, 12);
    assert_eq!(s.create_empty_histogram(), vec![0u64; 12]);
}

#[test]
fn geometry_errors() {
    assert_eq!(HistogramSpecs::new(0, 10).err(), Some(SpecsError::ZeroBinSize));
    assert_eq!(HistogramSpecs::new(5, 5).err(), Some(SpecsError::RadiusNotAboveBinSize));
    assert_eq!(HistogramSpecs::new(5, 3).err(), Some(SpecsError::RadiusNotAboveBinSize));
    assert_eq!(HistogramSpecs::new(1, u64::MAX).err(), Some(SpecsError::TooManyBins));
}

#[test]
fn misaligned_coordinates_refused() {
    assert!(XYZData::new(vec![1, 2, 3, 4]).is_none());
    let d = XYZData::new(vec![1, 2, 3, 4, 5, 6]).unwrap();
    assert_eq!(d.n_points, 2);
    assert!(XYZData::new(Vec::new()).unwrap().n_points == 0);
}

#[test]
fn chunk_edges_split_evenly() {
    let edges: Vec<usize> = (0..=3).map(|i| chunk_edge_at(10, 3, i)).collect();
    assert_eq!(edges, vec![0, 3, 6, 10]);
}

#[test]
fn cross_grid_is_full_product() {
    let blocks = cross_blocks(4, 6, 2);
    assert_eq!(blocks.len(), 4);
    assert_eq!(
        blocks[1],
        WorkBlock { start_1: 0, end_1: 2, start_2: 3, end_2: 6, on_diagonal: false }
    );
    assert!(blocks.iter().all(|b| !b.on_diagonal));
}

#[test]
fn self_grid_is_triangular() {
    let blocks = self_blocks(9, 3);
    assert_eq!(blocks.len(), 6);
    let diag: Vec<&WorkBlock> = blocks.iter().filter(|b| b.on_diagonal).collect();
    assert_eq!(diag.len(), 3);
    assert_eq!(
        blocks[4],
        WorkBlock { start_1: 6, end_1: 9, start_2: 3, end_2: 6, on_diagonal: false }
    );
    assert_eq!(
        blocks[5],
        WorkBlock { start_1: 6, end_1: 9, start_2: 6, end_2: 9, on_diagonal: true }
    );
}

#[test]
fn no_threads_or_points_gives_zero_histogram() {
    let s = specs(1, 4);
    assert!(cross_blocks(5, 5, 0).is_empty());
    assert!(self_blocks(5, 0).is_empty());
    let empty = points(&[]);
    let sq = self_squared(&s, &empty, 3);
    assert_eq!(sq, vec![0u64; 16]);
    let none: Vec<Vec<u64>> = Vec::new();
    assert_eq!(s.reduce_histograms(&none), Some(vec![0u64; 16]));
}

#[test]
fn diagonal_block_counts_pairs_twice_and_self_once() {
    let s = specs(1, 10);
    let a = points(&[0, 0, 0, 1, 0, 0, 0, 2, 0]);
    let blk = WorkBlock { start_1: 0, end_1: 3, start_2: 0, end_2: 3, on_diagonal: true };
    let h = count_self_block(&s, &a, &blk);
    // Squared distances: (1,0) -> 1, (2,0) -> 4, (2,1) -> 5.
    assert_eq!(h[0], 3);
    assert_eq!(h[1], 2);
    assert_eq!(h[4], 2);
    assert_eq!(h[5], 2);
    let off = WorkBlock { start_1: 1, end_1: 3, start_2: 0, end_2: 1, on_diagonal: false };
    let h = count_self_block(&s, &a, &off);
    assert_eq!(h[1], 2);
    assert_eq!(h[4], 2);
    assert_eq!(h[0], 0);
}

#[test]
fn reduce_adds_bin_by_bin() {
    let s = specs(1, 2);
    let parts = vec![vec![1, 2, 3, 4], vec![10, 20, 30, 40]];
    assert_eq!(s.reduce_histograms(&parts), Some(vec![11, 22, 33, 44]));
    let bad_len = vec![vec![1, 2, 3]];
    assert_eq!(s.reduce_histograms(&bad_len), None);
    let overflow = vec![vec![u64::MAX, 0, 0, 0], vec![1, 0, 0, 0]];
    assert_eq!(s.reduce_histograms(&overflow), None);
}

#[test]
fn unsquare_folds_square_ranges() {
    let s = specs(1, 3);
    let h: Vec<u64> = (1..=9).collect();
    // [0,1) -> 1; [1,4) -> 2+3+4; [4,9) -> 5+6+7+8+9
    assert_eq!(s.unsquare_historgam(h), vec![1, 9, 35]);
    let s = HistogramSpecs { bin_size: 1, n_linear_bins: 4, n_square_bins: 5 };
    assert_eq!(s.unsquare_historgam(vec![1, 1, 1, 1, 1]), vec![1, 3, 1, 0]);
}

#[test]
fn total_of_histogram() {
    assert_eq!(histogram_total(&vec![1, 2, 3]), Some(6));
    assert_eq!(histogram_total(&Vec::new()), Some(0));
    assert_eq!(histogram_total(&vec![u64::MAX, 1]), None);
}

#[test]
fn one_worker_pipeline_matches_merged_blocks() {
    let s = specs(1, 10);
    let a = scattered();
    let b = other_set();
    for t in [0usize, 1, 3, 8] {
        assert_eq!(cross_square_histogram(&s, &a, &b, t), cross_squared(&s, &a, &b, t));
        assert_eq!(self_square_histogram(&s, &a, t), self_squared(&s, &a, t));
    }
}

#[test]
fn one_worker_pipeline_scenarios() {
    let s = specs(1, 10);
    let a = points(&[0, 0, 0]);
    let b = points(&[3, 0, 0]);
    let lin = s.unsquare_historgam(cross_square_histogram(&s, &a, &b, 2));
    assert_eq!(lin, vec![0, 0, 0, 1, 0, 0, 0, 0, 0, 0]);
    let c = points(&[0, 0, 0, 0, 0, 0]);
    let lin = s.unsquare_historgam(self_square_histogram(&s, &c, 2));
    assert_eq!(lin, vec![4, 0, 0, 0, 0, 0, 0, 0, 0, 0]);
    // With no chunks nothing is compared.
    assert_eq!(self_square_histogram(&s, &c, 0), vec![0u64; 100]);
}
