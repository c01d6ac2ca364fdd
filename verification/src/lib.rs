//! A mergeable streaming histogram with a fixed number of buckets.
//!
//! Observations are positions on a line of whole ticks, in whatever unit the
//! caller counts in. Every `i32` strictly between `i32::MIN` and `i32::MAX`
//! is a position; the two extremes stand for the infinite ends of the line,
//! below and above every observation.
//!
//! A histogram keeps at most `capacity` buckets. A bucket holds the number of
//! its observations and the sum of their positions, and stands at their exact
//! mean. When an insertion or a merge leaves more buckets than the capacity,
//! the two neighbours that lie closest together are fused into one at their
//! weighted mean position, until the histogram fits again. Fusing loses
//! where the single observations lay and nothing else: the total weight of a
//! histogram is always the exact number of observations that went into it,
//! and its total moment the exact sum of their positions.
//!
//! A query estimates how many observations lie at or below a threshold by
//! interpolating linearly between the buckets. The estimate is an exact
//! fraction.
//!
//! The modules `model`, `compress` and `estimate` hold the mathematical model
//! that the contracts of `Histogram` speak of; `laws` holds what follows from
//! it for every histogram; `wide` holds the numbers that an estimate is
//! written in.
pub mod compress;
pub mod estimate;
pub mod histogram;
pub mod laws;
pub mod model;
pub mod wide;

pub use estimate::Estimate;
pub use histogram::{Bucket, Histogram};
pub use wide::Wide;
