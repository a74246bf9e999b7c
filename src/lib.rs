//! Fits an evolving set of weighted balls to a stream of points.
//!
//! Every arriving point is absorbed by the ball nearest to it or spawns a new
//! ball; balls that overlap merge, and masses decay so that stale balls are
//! pruned. Each ball caches its two nearest peers in a small graph, so that an
//! update only looks at a ball and its neighbors.
//!
//! The geometry is the user's: a `Space` gives the distances (as order-preserving
//! keys) and the arithmetic of balls over some point type.
use vstd::prelude::*;

pub mod algorithm;
pub mod graph;
pub mod model;
pub mod neighbors;

pub use algorithm::Algo;
pub use model::{Model, Space};

verus! {

/// Number of neighbors cached per ball.
pub const MAX_NEIGHBORS: usize = 2;

} // verus!
