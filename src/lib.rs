//! An incremental computation graph: memoised node results, invalidation that
//! clears and dirties entries, cleaning that avoids reruns when inputs are
//! unchanged, a draining switch, and critical-path analysis.
pub mod node;
pub mod graph;
pub mod critical;
