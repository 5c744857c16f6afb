//! [`Representative`]: choosing a representative of a state's symmetry class.

use vstd::prelude::*;

verus! {

/// This trait is used to reduce the state space when checking a model with symmetry reduction.
/// The trait indicates the ability to generate a representative from a symmetry equivalence
/// class for each state.
///
/// A typical implementation builds a [`crate::checker::rewrite_plan::RewritePlan`] from the
/// process states (for instance with [`From`] on a [`crate::util::DenseNatMap`] of them) and
/// [`crate::checker::rewrite::Rewrite`]s every field with it.
pub trait Representative: Sized {
    /// Generates a representative value in an equivalence class for `self`.
    fn representative(&self) -> Self;
}

} // verus!
