//! Core engine of a bisection helper: hex commit identifiers, a commit
//! graph built from a linear parent listing, a breadth-first proximity
//! search over that graph, the set of already-evaluated commits, and the
//! policy that decides when a cached evaluation history is stale.

pub mod freshness;
pub mod graph;
pub mod history;
pub mod lines;
pub mod oid;
pub mod page;
pub mod search;
pub mod tail;
