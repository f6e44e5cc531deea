//! The pipeline model behind a hydraulic network editor: from the editor's graph of
//! pumps, pipes and fittings, the tree of series and parallel sections that the
//! hydraulic calculation runs on.
use vstd::prelude::*;

pub mod acyclic;
pub mod builder;
pub mod docs;
pub mod graph;
pub mod junction;
pub mod model;
pub mod nearest;
pub mod search;
pub mod shape;
pub mod steps;
pub mod termination;
pub mod walk;

verus! {

} // verus!
