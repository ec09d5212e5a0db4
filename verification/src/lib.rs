//! Glauber dynamics over proper graph colorings.
//!
//! The crate builds a compact adjacency structure from sharded edge-list
//! text, seeds it with a greedy proper coloring, and then evolves the
//! coloring as a Markov chain that resamples one vertex at a time, guarded
//! by per-vertex try-only read/write locks.

use vstd::prelude::*;

pub mod cell;
pub mod color;
pub mod graph;
pub mod graphio;
pub mod rng;
pub mod scanner;
pub mod simsvm;
pub mod sampler;

verus! {

} // verus!
