//! Agglomerative hierarchical clustering with Ward's minimum-variance
//! criterion, computed from a condensed pairwise-distance matrix.
//!
//! Distances are handled as IEEE 754 binary64 bit patterns (`u64`). The
//! library orders, stores and selects them; the arithmetic of the
//! Lance–Williams update is supplied by the caller, one value at a time.
//!
//! - `condensed`: offsets into the condensed matrix.
//! - `distance`, `candidate`: bit patterns and the order of merge candidates.
//! - `queue`, `cache`: the candidate queue and the distances between clusters.
//! - `model`: the merge loop as a state machine over mathematical values.
//! - `rounds`: the same clustering merge by merge, as a function of its input.
//! - `clustering`: the loop over machine values, one answer at a time.
//! - `ward`: the loop in one call.
//! - `tally`, `invariants`, `progress`, `laws`, `symmetry`: what is proved
//!   of it.

pub mod cache;
pub mod candidate;
pub mod clustering;
pub mod condensed;
pub mod distance;
pub mod invariants;
pub mod laws;
pub mod model;
pub mod progress;
pub mod queue;
pub mod rounds;
pub mod symmetry;
pub mod tally;
pub mod ward;

pub use crate::ward::linkage;
