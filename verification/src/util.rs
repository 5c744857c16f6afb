//! Utilities: [`VectorClock`], [`DenseNatMap`], and [`Choice`].

use vstd::prelude::*;

pub mod choice;
pub mod densenatmap;
pub mod digest;
pub mod text;
pub mod vector_clock;

pub use choice::{Choice, ChoiceText, Never};
pub use densenatmap::DenseNatMap;
pub use vector_clock::VectorClock;

verus! {

} // verus!
