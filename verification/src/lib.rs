//! A routing engine for road networks: builds a directed weighted graph
//! from raw network sources, persists it in a compressed binary format,
//! and answers cheapest-path and reachability queries over it.
//!
//! Coordinates are stored as integer micro-degrees (degrees times 1e6),
//! and edge weights are unsigned integers in profile-defined units, so
//! that every computation in the engine is exact.

use vstd::prelude::*;

pub mod builder;
pub mod codec;
pub mod model;
pub mod osrm;
pub mod relational;
pub mod spatial;
pub mod routing;
pub mod walks;

verus! {

/// Cost sentinel: a node with this distance is unreached.
pub const INFINITE_COST: u64 = u64::MAX;

/// Errors of the build and query pipeline.
///
/// `SourceFormat`: malformed or truncated ingestion input, fatal to a build.
/// `InvariantViolation`: an edge references a node that was never
/// materialized; fatal during re-keying.
/// `EmptyGraph`: a graph with no nodes cannot serve queries.
#[derive(Clone, Copy, Debug, PartialEq, Eq, Structural)]
pub enum GraphError {
    SourceFormat,
    InvariantViolation,
    EmptyGraph,
}

} // verus!
