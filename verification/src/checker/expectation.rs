//! Whether a property is expected always, eventually or sometimes, and how a discovery for it is
//! classified.

use vstd::prelude::*;

verus! {

/// Indicates whether a property is always, eventually, or sometimes true.
#[derive(Clone, Copy, Debug, Eq, Ord, PartialEq, PartialOrd, Structural)]
pub enum Expectation {
    /// The property is true for all reachable states.
    Always,
    /// The property is eventually true for all behavior paths.
    Eventually,
    /// The property is true for at least one reachable state.
    Sometimes,
}

impl Expectation {
    /// Whether finding a discovery for the property means that the property fails: a
    /// counterexample for `always` and `eventually`, an example for `sometimes`.
    pub fn discovery_is_failure(&self) -> (r: bool)
        ensures
            r == !(*self is Sometimes),
    {
        match self {
            Expectation::Always => true,
            Expectation::Eventually => true,
            Expectation::Sometimes => false,
        }
    }

    /// How a discovery for the property is classified.
    pub fn classification(&self) -> (r: DiscoveryClassification)
        ensures
            r is Counterexample <==> !(*self is Sometimes),
    {
        if self.discovery_is_failure() {
            DiscoveryClassification::Counterexample
        } else {
            DiscoveryClassification::Example
        }
    }
}

/// The classification of a property discovery.
#[derive(Clone, Copy, Debug, Eq, PartialEq, Structural)]
pub enum DiscoveryClassification {
    /// An example has been found.
    Example,
    /// A counterexample has been found.
    Counterexample,
}

impl DiscoveryClassification {
    /// The name of the classification: `"example"` or `"counterexample"`.
    pub fn display_text(&self) -> (r: String)
        ensures
            r@ == if *self is Example { "example"@ } else { "counterexample"@ },
    {
        match self {
            DiscoveryClassification::Example => String::from_str("example"),
            DiscoveryClassification::Counterexample => String::from_str("counterexample"),
        }
    }
}

} // verus!
