//! Recursive partitioning of a 16-bit grayscale image: each region is split
//! along the interior row or column that leaves the two halves most uniform,
//! each half is pulled toward its own mean, and the halves are split again.
//!
//! All statistics and scores are computed exactly, in integer arithmetic:
//! a mean is the fraction `sum / count`, and scores are compared as fractions.
use vstd::prelude::*;

pub mod buffer;
pub mod stats;
pub mod cut;
pub mod partition;
pub mod stretch;
