//! What it means for a sequential history to linearize a recorded concurrent history.
//!
//! A concurrent history is given by the completed operations of each thread, in completion
//! order, and the operations still in flight. Each operation carries the index of the last
//! operation that every other thread had completed when it started; it may not be ordered before
//! any of those. A linearization picks, one step at a time, a thread whose next completed
//! operation may go next (or, once a thread has no completed operations left, its operation in
//! flight), and applies it to the reference object: a completed operation must return what was
//! recorded, an operation in flight returns whatever the object returns. Operations in flight may
//! be left out; completed operations may not.

use crate::semantics::{valid_history, SequentialSpec};
use vstd::prelude::*;

verus! {

/// An operation that started after the operations listed in `last` completed is held back while
/// one of those is not yet in the linearization: some listed thread has not had all its
/// operations up to the listed index taken.
pub open spec fn held_back<T, C>(
    completed: Map<T, Seq<C>>,
    taken: Map<T, int>,
    last: Seq<(T, usize)>,
) -> bool {
    exists|x: int|
        0 <= x < last.len() && completed.contains_key((#[trigger] last[x]).0) && taken[last[x].0]
            < completed[last[x].0].len() && taken[last[x].0] <= last[x].1
}

/// Every completed operation of every thread has been taken.
pub open spec fn all_taken<T, C>(completed: Map<T, Seq<C>>, taken: Map<T, int>) -> bool {
    forall|t: T| #[trigger] completed.contains_key(t) ==> taken[t] >= completed[t].len()
}

/// One step of a linearization through thread `t`, if that thread may go next: the operation
/// and return value appended, then the operations taken, the operations still in flight, and
/// the state of the reference object after the step.
pub open spec fn step<T, S: SequentialSpec>(
    completed: Map<T, Seq<(Vec<(T, usize)>, S::Op, S::Ret)>>,
    taken: Map<T, int>,
    pending: Map<T, (Vec<(T, usize)>, S::Op)>,
    state: S::V,
    t: T,
) -> Option<((S::Op, S::Ret), Map<T, int>, Map<T, (Vec<(T, usize)>, S::Op)>, S::V)> {
    if !completed.contains_key(t) {
        None
    } else if taken[t] < completed[t].len() {
        let c = completed[t][taken[t]];
        let after = taken.insert(t, taken[t] + 1);
        let (next, ret) = S::invoke_spec(state, c.1);
        if !held_back(completed, after, c.0@) && ret == c.2 {
            Some(((c.1, c.2), after, pending, next))
        } else {
            None
        }
    } else if pending.contains_key(t) {
        let p = pending[t];
        let (next, ret) = S::invoke_spec(state, p.1);
        if !held_back(completed, taken, p.0@) {
            Some(((p.1, ret), taken, pending.remove(t), next))
        } else {
            None
        }
    } else {
        None
    }
}

/// `h` linearizes the rest of a concurrent history: when every completed operation is taken,
/// `h` is empty; otherwise `h` starts with a step through some thread and linearizes the rest.
pub open spec fn linearizes<T, S: SequentialSpec>(
    completed: Map<T, Seq<(Vec<(T, usize)>, S::Op, S::Ret)>>,
    taken: Map<T, int>,
    pending: Map<T, (Vec<(T, usize)>, S::Op)>,
    state: S::V,
    h: Seq<(S::Op, S::Ret)>,
) -> bool
    decreases h.len(),
{
    if all_taken(completed, taken) {
        h.len() == 0
    } else {
        h.len() > 0 && exists|t: T|
            #[trigger] step::<T, S>(completed, taken, pending, state, t) matches Some(
                (e, after, rest, next),
            ) && e == h[0] && linearizes::<T, S>(completed, after, rest, next, h.drop_first())
    }
}

/// No operation taken yet: every thread of `completed` starts at its first operation.
pub open spec fn none_taken<T, C>(completed: Map<T, Seq<C>>) -> Map<T, int> {
    Map::new(|t: T| completed.contains_key(t), |t: T| 0int)
}

/// `h` linearizes a whole concurrent history, from the reference object's initial state.
pub open spec fn is_linearization<T, S: SequentialSpec>(
    completed: Map<T, Seq<(Vec<(T, usize)>, S::Op, S::Ret)>>,
    in_flight: Map<T, (Vec<(T, usize)>, S::Op)>,
    init: S::V,
    h: Seq<(S::Op, S::Ret)>,
) -> bool {
    linearizes::<T, S>(completed, none_taken(completed), in_flight, init, h)
}

/// A linearization is a valid sequential history of the reference object: each operation,
/// applied in turn, returns the value that the linearization gives it.
pub proof fn linearization_is_valid_history<T, S: SequentialSpec>(
    completed: Map<T, Seq<(Vec<(T, usize)>, S::Op, S::Ret)>>,
    taken: Map<T, int>,
    pending: Map<T, (Vec<(T, usize)>, S::Op)>,
    state: S::V,
    h: Seq<(S::Op, S::Ret)>,
)
    requires
        linearizes::<T, S>(completed, taken, pending, state, h),
    ensures
        valid_history::<S>(state, h),
    decreases h.len(),
{
    if !all_taken(completed, taken) {
        let t = choose|t: T|
            #[trigger] step::<T, S>(completed, taken, pending, state, t) matches Some(
                (e, after, rest, next),
            ) && e == h[0] && linearizes::<T, S>(completed, after, rest, next, h.drop_first());
        let (e, after, rest, next) = step::<T, S>(completed, taken, pending, state, t).unwrap();
        linearization_is_valid_history::<T, S>(completed, after, rest, next, h.drop_first());
    }
}

} // verus!
