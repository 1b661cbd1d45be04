//! Turns a filesystem subtree into a size-bounded cache: when free space on
//! the volume falls below a configured target, files are evicted in
//! least-recently-accessed order until enough space is reclaimed, skipping
//! files accessed more recently than an age floor.
//!
//! The crate holds the decision core of such a sweep — the streaming
//! selection of a near-minimal set of eviction candidates, the
//! reconciliation of that set against a freshly probed deficit, and the
//! accounting of the final drain — each with a proved contract.  Walking the
//! tree, probing free space and deleting files are the caller's business:
//! the caller hands in plain metadata and probe readings and receives the
//! eviction list back.

pub mod candidate;
pub mod executor;
pub mod plan;
pub mod reconciler;
pub mod selector;
pub mod set;
