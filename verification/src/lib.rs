//! Bubble detection in bidirected assembly graphs.
//!
//! A bubble is a pair of nodes `(start, end)` such that the paths leaving
//! `start` diverge into several parallel branches that later reconverge at
//! `end`.  The crate drives a lock-step multi-branch frontier search
//! (`BubbleState`) from every divergence node found during a whole-graph
//! scan (`find_bubbles`), with a bounded restart heuristic to recover from
//! dead ends and cycles.

use vstd::prelude::*;

pub mod driver;
pub mod graph;
pub mod measure;
pub mod model;
pub mod order;
pub mod state;

verus! {

/// A detected bubble: the divergence node and the node where all branches
/// reconverged.
#[derive(Debug, Clone, Copy, PartialEq, Eq, Structural)]
pub struct Bubble {
    pub start: u64,
    pub end: u64,
}

} // verus!
