//! Exponential fenceposts over a numeric range, and the buckets they bound.
//!
//! A range `low..=high` is cut into `count` segments whose widths grow
//! geometrically. The crate validates such a range, walks its fenceposts from
//! either end, assigns numbers to buckets and keeps one extremum per bucket.
//!
//! Real numbers are carried as IEEE-754 binary64 bit patterns; see
//! [`binary64`]. The transcendental arithmetic itself (logarithm and
//! exponential) is done by the caller, who hands its results in as bit
//! patterns; everything decided from them is decided here.

pub mod binary64;
pub mod bybucket;
pub mod cli;
pub mod interval;
pub mod sequence;
pub mod text;

pub use bybucket::{select_per_bucket, ByBucket, Extremum, Sample};
pub use interval::{find_fenceposts, Interval, IntervalError};
pub use sequence::{Breakpoint, IntervalIter};
