//! Conditions on the discoveries of a check, such as "any property has a discovery".

use crate::checker::expectation::Expectation;
use vstd::prelude::*;

verus! {

/// The names, as text.
pub open spec fn names(s: Seq<String>) -> Seq<Seq<char>> {
    s.map_values(|n: String| n@)
}

/// A condition on the discoveries of a check.
#[derive(Debug, Clone)]
pub enum HasDiscoveries {
    /// Every property has a discovery.
    All,
    /// Some property has a discovery.
    Any,
    /// Some property whose discovery means a failure has one.
    AnyFailures,
    /// Every property whose discovery means a failure has one.
    AllFailures,
    /// Each of the named properties has a discovery.
    AllOf(Vec<String>),
    /// One of the named properties has a discovery.
    AnyOf(Vec<String>),
}

/// Whether `names` holds a name equal to `name`.
fn holds_name(names_held: &[String], name: &String) -> (r: bool)
    ensures
        r == names(names_held@).contains(name@),
{
    let mut i: usize = 0;
    while i < names_held.len()
        invariant
            i <= names_held@.len(),
            forall|j: int| 0 <= j < i ==> #[trigger] names_held@[j]@ != name@,
        decreases names_held@.len() - i,
    {
        if names_held[i] == *name {
            proof {
                assert(names(names_held@)[i as int] == name@);
            }
            return true;
        }
        i = i + 1;
    }
    proof {
        if names(names_held@).contains(name@) {
            let j = choose|j: int| 0 <= j < names(names_held@).len() && names(names_held@)[j] == name@;
            assert(names_held@[j]@ == name@);
        }
    }
    false
}

/// Whether each of `props` is among `discoveries`.
fn all_named(discoveries: &[String], props: &Vec<String>) -> (r: bool)
    ensures
        r == forall|i: int| 0 <= i < props@.len() ==> #[trigger] names(discoveries@).contains(props@[i]@),
{
    let mut i: usize = 0;
    while i < props.len()
        invariant
            i <= props@.len(),
            forall|j: int| 0 <= j < i ==> #[trigger] names(discoveries@).contains(props@[j]@),
        decreases props@.len() - i,
    {
        if !holds_name(discoveries, &props[i]) {
            return false;
        }
        i = i + 1;
    }
    true
}

/// Whether one of `props` is among `discoveries`.
fn any_named(discoveries: &[String], props: &Vec<String>) -> (r: bool)
    ensures
        r == exists|i: int| 0 <= i < props@.len() && #[trigger] names(discoveries@).contains(props@[i]@),
{
    let mut i: usize = 0;
    while i < props.len()
        invariant
            i <= props@.len(),
            forall|j: int| 0 <= j < i ==> !#[trigger] names(discoveries@).contains(props@[j]@),
        decreases props@.len() - i,
    {
        if holds_name(discoveries, &props[i]) {
            return true;
        }
        i = i + 1;
    }
    false
}

impl HasDiscoveries {
    /// Whether the condition holds of the names of the properties with a discovery,
    /// `discoveries` (each once), among `properties` (their names and expectations).
    pub fn matches(&self, discoveries: &[String], properties: &[(String, Expectation)]) -> (r: bool)
        ensures
            r == match self {
                HasDiscoveries::All => discoveries@.len() == properties@.len(),
                HasDiscoveries::Any => discoveries@.len() > 0,
                HasDiscoveries::AnyFailures => exists|i: int|
                    0 <= i < properties@.len() && !(properties@[i].1 is Sometimes) && #[trigger] names(
                        discoveries@,
                    ).contains(properties@[i].0@),
                HasDiscoveries::AllFailures => forall|i: int|
                    0 <= i < properties@.len() && !(properties@[i].1 is Sometimes) ==> #[trigger] names(
                        discoveries@,
                    ).contains(properties@[i].0@),
                HasDiscoveries::AllOf(props) => forall|i: int|
                    0 <= i < props@.len() ==> #[trigger] names(discoveries@).contains(props@[i]@),
                HasDiscoveries::AnyOf(props) => exists|i: int|
                    0 <= i < props@.len() && #[trigger] names(discoveries@).contains(props@[i]@),
            },
    {
        match self {
            HasDiscoveries::All => discoveries.len() == properties.len(),
            HasDiscoveries::Any => discoveries.len() > 0,
            HasDiscoveries::AnyFailures => {
                let mut i: usize = 0;
                while i < properties.len()
                    invariant
                        i <= properties@.len(),
                        *self is AnyFailures,
                        forall|j: int|
                            0 <= j < i && !(properties@[j].1 is Sometimes) ==> !#[trigger] names(
                                discoveries@,
                            ).contains(properties@[j].0@),
                    decreases properties@.len() - i,
                {
                    if properties[i].1.discovery_is_failure() && holds_name(discoveries, &properties[i].0) {
                        return true;
                    }
                    i = i + 1;
                }
                false
            },
            HasDiscoveries::AllFailures => {
                let mut i: usize = 0;
                while i < properties.len()
                    invariant
                        i <= properties@.len(),
                        *self is AllFailures,
                        forall|j: int|
                            0 <= j < i && !(properties@[j].1 is Sometimes) ==> #[trigger] names(
                                discoveries@,
                            ).contains(properties@[j].0@),
                    decreases properties@.len() - i,
                {
                    if properties[i].1.discovery_is_failure() && !holds_name(discoveries, &properties[i].0) {
                        return false;
                    }
                    i = i + 1;
                }
                true
            },
            HasDiscoveries::AllOf(props) => all_named(discoveries, props),
            HasDiscoveries::AnyOf(props) => any_named(discoveries, props),
        }
    }
}

} // verus!
