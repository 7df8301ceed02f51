//! The coarse partition of the vector set.

pub mod ivf;
pub mod posting;
pub mod stats;

pub use ivf::IVFIndex;
pub use stats::IVFStats;
