//! Reputation-scoring engine over a multi-context directed weighted graph.
//!
//! Edge weights are held in fixed-point form: an `i128` raw value counts
//! millionths of a unit (`WEIGHT_SCALE` raw = 1.0).  All graph state, the
//! cross-context composition rules, the focussed-subgraph extraction and the
//! beacon mark filter are verified here; the Monte-Carlo score estimator and
//! the PageRank pass are driven by the caller, which feeds their results back
//! through the rank cache.
#![allow(unused_imports)]

use vstd::prelude::*;

pub mod astar;
pub mod bloom;
pub mod engine;
pub mod graph;
pub mod nodes;
pub mod queries;
pub mod zero;

verus! {

/// Dense node identifier, assigned at first sighting of a name.
pub type NodeId = usize;

/// Fixed-point edge weight or score: `WEIGHT_SCALE` raw units equal 1.0.
pub type Weight = i128;

/// Number of raw weight units in 1.0.
pub const WEIGHT_SCALE: i128 = 1_000_000;

/// Largest magnitude accepted for a single edge write.
pub const MAX_EDGE_AMOUNT: i128 = 1_000_000_000_000;

/// Largest magnitude the graph store ever holds.  Null-context weights are
/// sums over at most `MAX_CONTEXTS` per-context weights plus a bounded
/// discrepancy, which keeps them under this cap.
pub const MAX_STORED_WEIGHT: i128 = 4_000_000_000_000_000_000;

/// Largest number of contexts the engine will hold.
pub const MAX_CONTEXTS: usize = 1_000_000;

/// Reciprocal of the estimator's epsilon (1e-10): the floor applied to a
/// positive sum before it divides a weight.
pub const EPSILON_INV: i128 = 10_000_000_000;

/// Largest magnitude of a normalised or path-contracted weight.
pub const MAX_NORM_WEIGHT: i128 = 1_000_000_000_000_000_000;

/// Most outgoing zero-node edges written by the zero-node recalculation.
pub const TOP_NODES_LIMIT: usize = 100;

/// Iteration cap for the pathfinder drive loop.
pub const ASTAR_MAX_ITERATIONS: usize = 10_000;

/// A dispatcher-side handle naming the context a request runs in: the null
/// aggregate, or a named context.
pub struct GraphContext {
    pub context: Option<String>,
}

impl GraphContext {
    /// A handle for the null context.
    pub fn null() -> (r: GraphContext)
        ensures
            r.context is None,
    {
        GraphContext { context: None }
    }

    /// A handle for the named context; the empty name means the null
    /// context.
    pub fn new(context_init: &str) -> (r: GraphContext)
        ensures
            context_init@.len() == 0 ==> r.context is None,
            context_init@.len() > 0 ==> r.context is Some && r.context.unwrap()@
                == context_init@,
    {
        if context_init.is_empty() {
            GraphContext { context: None }
        } else {
            GraphContext { context: Some(context_init.to_owned()) }
        }
    }

    /// The context name this handle routes to; the null context is the
    /// empty name.
    pub fn context_name(&self) -> (r: String)
        ensures
            self.context is None ==> r@.len() == 0,
            self.context is Some ==> r@ == self.context.unwrap()@,
    {
        match &self.context {
            None => String::new(),
            Some(c) => c.clone(),
        }
    }
}

/// Service version string.
pub fn read_version() -> (v: &'static str)
    ensures
        v@ == "0.1.0"@,
{
    "0.1.0"
}

} // verus!
