//! [`Choice`]: a union of types built inductively from a choice between two types.
//!
//! `Choice::new(x)` builds the "left" case; `.or()` wraps a choice with one more choosable type,
//! so a choice among `N + 1` types is `Choice<T, C>` where `C` is a choice among `N` types, and
//! [`Never`] (uninhabited) seeds the pattern. Values compare by position first (the leftmost
//! position is the smallest) and then by the value held.

use core::cmp::Ordering;
use vstd::prelude::*;
use vstd::std_specs::cmp::{PartialOrdSpec, PartialOrdSpecImpl};

verus! {

/// Represents a choice between two types, which composes to represent a choice between more
/// types -- `Choice<C, Choice<A, B>>` for instance.
#[derive(Clone, Copy, Debug, Eq, Hash, Ord, PartialEq)]
pub enum Choice<L, R> {
    /// The "left" case.
    L(L),
    /// The "right" case.
    R(R),
}

impl<A: PartialOrd, B: PartialOrd> PartialOrd for Choice<A, B> {
    /// Position first (the left position is the smaller), then the values held.
    fn partial_cmp(&self, other: &Self) -> (r: Option<Ordering>) {
        match (self, other) {
            (Choice::L(a), Choice::L(b)) => a.partial_cmp(b),
            (Choice::L(_), Choice::R(_)) => Some(Ordering::Less),
            (Choice::R(_), Choice::L(_)) => Some(Ordering::Greater),
            (Choice::R(a), Choice::R(b)) => a.partial_cmp(b),
        }
    }
}

impl<A: PartialOrd, B: PartialOrd> PartialOrdSpecImpl for Choice<A, B> {
    open spec fn obeys_partial_cmp_spec() -> bool {
        A::obeys_partial_cmp_spec() && B::obeys_partial_cmp_spec()
    }

    open spec fn partial_cmp_spec(&self, other: &Self) -> Option<Ordering> {
        match (*self, *other) {
            (Choice::L(a), Choice::L(b)) => a.partial_cmp_spec(&b),
            (Choice::L(_), Choice::R(_)) => Some(Ordering::Less),
            (Choice::R(_), Choice::L(_)) => Some(Ordering::Greater),
            (Choice::R(a), Choice::R(b)) => a.partial_cmp_spec(&b),
        }
    }
}

/// Represents an uninhabited type, which is used with [`Choice`] to provide a pattern for union
/// types. No value of it exists: it wraps std's uninhabited `Infallible`, and its invariant
/// states as much.
#[derive(Clone, Copy, Debug, Eq, Hash, Ord, PartialEq, PartialOrd)]
pub struct Never(core::convert::Infallible);

impl Never {
    /// No value of `Never` exists.
    #[verifier::type_invariant]
    spec fn uninhabited(self) -> bool {
        false
    }
}

impl<A, B> Choice<A, B> {
    /// Constructs a [`Choice`] between two types, where the "decision" is of the first type.
    pub fn new(choice: A) -> (r: Self)
        ensures
            r == Choice::<A, B>::L(choice),
    {
        Choice::L(choice)
    }

    /// Wraps an existing [`Choice`] with an additional chooseable type.
    pub fn or<L>(self) -> (r: Choice<L, Choice<A, B>>)
        ensures
            r == Choice::<L, Choice<A, B>>::R(self),
    {
        Choice::R(self)
    }
}

impl<A> Choice<A, Never> {
    /// Returns the "left" value, as the right value is provably uninhabited.
    pub fn get(&self) -> (r: &A)
        ensures
            Choice::<A, Never>::L(*r) == *self,
    {
        match self {
            Choice::L(l) => l,
            Choice::R(n) => {
                proof {
                    use_type_invariant(n);
                }
                unreached()
            },
        }
    }
}

/// Renders a value with its `Debug` format, as `format!("{:?}", x)` does.
#[verifier::external_body]
pub(crate) fn debug_of<T: core::fmt::Debug>(x: &T) -> String {
    format!("{:?}", x)
}

/// Renders a value with its `Display` format, as `format!("{}", x)` does.
#[verifier::external_body]
pub(crate) fn display_of<T: core::fmt::Display>(x: &T) -> String {
    format!("{}", x)
}

/// Text of the value a choice holds, whichever position it is in: a choice renders as the
/// value it holds, without any mark of its position.
pub trait ChoiceText {
    /// The `Debug` text of the value held.
    fn debug_text(&self) -> String;

    /// The `Display` text of the value held.
    fn display_text(&self) -> String;
}

impl ChoiceText for Never {
    fn debug_text(&self) -> String {
        proof {
            use_type_invariant(self);
        }
        unreached()
    }

    fn display_text(&self) -> String {
        proof {
            use_type_invariant(self);
        }
        unreached()
    }
}

impl<A: core::fmt::Debug + core::fmt::Display, B: ChoiceText> ChoiceText for Choice<A, B> {
    fn debug_text(&self) -> String {
        match self {
            Choice::L(v) => debug_of(v),
            Choice::R(c) => c.debug_text(),
        }
    }

    fn display_text(&self) -> String {
        match self {
            Choice::L(v) => display_of(v),
            Choice::R(c) => c.display_text(),
        }
    }
}

} // verus!
