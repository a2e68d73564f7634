//! Dependency-aware installation of systems: a directed acyclic graph of
//! system dependencies, the dispatch priorities that it induces, and the
//! installer that turns registered systems into an ordered install plan.
use vstd::prelude::*;

pub mod graph;
pub mod paths;
pub mod dag;
pub mod priority;
pub mod system;
pub mod example;
pub mod hotload;

verus! {

} // verus!
