//! A library for checking models of systems, with an emphasis on distributed systems: actors,
//! the model of a system of actors communicating over a network, reference sequential semantics,
//! a linearizability tester, paths of states, the steps of breadth-first, depth-first and
//! simulated checking, progress reports, and the symmetry-reduction helpers used while checking.

use vstd::prelude::*;

pub mod actor;
pub mod checker;
pub mod report;
pub mod semantics;
pub mod util;

pub use checker::{
    DiscoveryClassification, Expectation, Mapping, Path, Reindex, Representative, Rewrite,
    RewritePlan, UniformChooser,
};

verus! {

} // verus!
