//! Infers per-entity ratings from pairwise comparisons: an adaptive comparison
//! scheduler that keeps the comparison graph connected under skips, and a
//! builder that assembles the resulting observations into an anchored
//! least-squares system.

pub mod pair;
pub mod graph;
pub mod randomness;
pub mod schedule;
pub mod system;
