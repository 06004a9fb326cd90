//! Exact solver for a two-player edge-deletion game on finite multigraphs:
//! players alternately remove an edge, score a point for each endpoint the
//! removal isolates, and keep the turn exactly when they scored. The library
//! holds the verified core: the graph model, the isomorphism-invariant
//! canonical labeler whose key indexes the transposition table, the
//! leaf-pruning forest detector that ends the search, and the game-tree
//! engines, one memoized and one that recomputes every position.

use vstd::prelude::*;

pub mod canon;
pub mod engine;
pub mod gen;
pub mod graph;
pub mod laws;
pub mod memo;
pub mod model;
pub mod runner;
pub mod text;

verus! {

pub use crate::model::Edge;

} // verus!
