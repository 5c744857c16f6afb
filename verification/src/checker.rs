//! Helpers for checking models: the symmetry reduction that rewrites states into a representative
//! of their class ([`Representative`], [`Rewrite`], [`RewritePlan`], [`Reindex`]), and paths of
//! states and actions ([`Path`]).

use vstd::prelude::*;

pub mod bfs;
pub mod dfs;
pub mod expectation;
pub mod has_discoveries;
pub mod path;
pub mod ranking;
pub mod reindex;
pub mod rewrite;
pub mod rewrite_collections;
pub mod representative;
pub mod rewrite_plan;
pub mod simulation;

pub use expectation::{DiscoveryClassification, Expectation};
pub use has_discoveries::HasDiscoveries;
pub use path::Path;
pub use reindex::Reindex;
pub use representative::Representative;
pub use rewrite::Rewrite;
pub use rewrite_plan::{Indexed, Mapping, RewritePlan};
pub use simulation::{Chooser, UniformChooser, UniformChooserState};

verus! {

} // verus!
