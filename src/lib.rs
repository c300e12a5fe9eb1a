//! Binned histograms of pairwise distances between two sets of 3-D points.
//!
//! Point sets are cut into chunks, each pair of chunks is a work block that
//! a counting kernel turns into a partial histogram of squared distances,
//! the partial histograms are merged, and the merged histogram is folded into
//! equal-width radius bins. `laws` states what the merged result is.

pub mod sums;
pub mod geometry;
pub mod partition;
pub mod kernel;
pub mod laws;
pub mod pipeline;

pub use geometry::{XYZData, HistogramSpecs, SpecsError, histogram_total};
pub use partition::{WorkBlock, chunk_edge_at, cross_blocks, self_blocks};
pub use kernel::{count_cross_block, count_self_block};
pub use pipeline::{cross_square_histogram, self_square_histogram};
