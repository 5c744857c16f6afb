//! Reference sequential semantics ([`SequentialSpec`]) and consistency testers that check
//! whether a concurrent history of operations is explained by those semantics.

use vstd::pervasive::strictly_cloned;
use vstd::prelude::*;
use vstd::std_specs::cmp::PartialEqSpec;

pub(crate) mod assoc_list;
pub mod linearization;
pub mod consistency_tester;
pub mod linearizability;
pub mod register;
pub mod vec;
pub mod write_once_register;

pub use consistency_tester::ConsistencyTester;
pub use linearizability::LinearizabilityTester;

verus! {

/// Cloning a value of `T` yields an equal value.
pub open spec fn exact_clone<T: Clone>() -> bool {
    forall|a: T, b: T| #[trigger] strictly_cloned(a, b) ==> a == b
}

/// `==` on `T` is equality of values.
pub open spec fn exact_eq<T: PartialEq>() -> bool {
    &&& T::obeys_eq_spec()
    &&& forall|a: T, b: T| #[trigger] a.eq_spec(&b) <==> (a == b)
}

/// `==` and clone on the machine integer types are exact.
pub proof fn integers_are_exact()
    ensures
        exact_eq::<u8>() && exact_clone::<u8>(),
        exact_eq::<u32>() && exact_clone::<u32>(),
        exact_eq::<u64>() && exact_clone::<u64>(),
        exact_eq::<usize>() && exact_clone::<usize>(),
        exact_eq::<i32>() && exact_clone::<i32>(),
        exact_eq::<i64>() && exact_clone::<i64>(),
{
    broadcast use vstd::laws_eq::group_laws_eq;

    reveal(vstd::laws_eq::obeys_concrete_eq);
    assert(vstd::laws_eq::obeys_concrete_eq::<u8>());
    assert(vstd::laws_eq::obeys_concrete_eq::<u32>());
    assert(vstd::laws_eq::obeys_concrete_eq::<u64>());
    assert(vstd::laws_eq::obeys_concrete_eq::<usize>());
    assert(vstd::laws_eq::obeys_concrete_eq::<i32>());
    assert(vstd::laws_eq::obeys_concrete_eq::<i64>());
}

/// Clones a value; the clone equals the original when `T` clones exactly.
pub fn clone_exact<T: Clone>(x: &T) -> (r: T)
    ensures
        exact_clone::<T>() ==> r == *x,
{
    let r = x.clone();
    assert(strictly_cloned(*x, r));
    r
}

/// Cloning a value of `T` yields a value with the same view.
pub open spec fn clone_keeps_view<T: Clone + View>() -> bool {
    forall|a: T, b: T| #[trigger] strictly_cloned(a, b) ==> a@ == b@
}

/// An implementation of this trait serves as a sequential "reference object" for a concurrent
/// system: invoking an operation on it yields the return value the system must produce.
///
/// The abstract state of the object is its view. `invoke_spec` says what an operation does to
/// that state and what it returns; the executable methods follow it when
/// `obeys_sequential_spec` holds (which, for the implementations in this crate, is when the
/// element type clones and compares exactly, as [`integers_are_exact`] shows of the machine integers).
pub trait SequentialSpec: Sized + View {
    /// The type of operation.
    type Op;

    /// The type of return value.
    type Ret;

    /// The state after invoking `op` on a state, and the value `op` returns.
    spec fn invoke_spec(state: Self::V, op: Self::Op) -> (Self::V, Self::Ret);

    /// Whether the executable methods follow [`SequentialSpec::invoke_spec`].
    spec fn obeys_sequential_spec() -> bool;

    /// Invokes an operation on this reference object.
    fn invoke(&mut self, op: &Self::Op) -> (r: Self::Ret)
        ensures
            Self::obeys_sequential_spec() ==> (final(self)@, r) == Self::invoke_spec(
                old(self)@,
                *op,
            ),
    ;

    /// Indicates whether invoking an operation returns the specified value; if it does, the
    /// object is left in the state that the operation produces.
    fn is_valid_step(&mut self, op: &Self::Op, ret: &Self::Ret) -> (r: bool)
        ensures
            Self::obeys_sequential_spec() ==> r == (Self::invoke_spec(old(self)@, *op).1
                == *ret),
            Self::obeys_sequential_spec() && r ==> final(self)@ == Self::invoke_spec(
                old(self)@,
                *op,
            ).0,
    ;

}

/// Checking whole sequential histories against a [`SequentialSpec`]; available on every
/// reference object.
pub trait HistoryCheck: SequentialSpec {
    /// Indicates whether a sequential history of operations and corresponding return values
    /// is valid, i.e. the object returns each value in turn.
    fn is_valid_history(&mut self, ops: Vec<(Self::Op, Self::Ret)>) -> (r: bool)
        ensures
            Self::obeys_sequential_spec() ==> r == valid_history::<Self>(old(self)@, ops@),
    ;
}

impl<S: SequentialSpec> HistoryCheck for S {
    fn is_valid_history(&mut self, ops: Vec<(S::Op, S::Ret)>) -> (r: bool) {
        check_history(self, ops)
    }
}

/// Checks a sequential history step by step with [`SequentialSpec::is_valid_step`], stopping
/// at the first step that returns a different value.
pub fn check_history<S: SequentialSpec>(s: &mut S, history: Vec<(S::Op, S::Ret)>) -> (r: bool)
    ensures
        S::obeys_sequential_spec() ==> r == valid_history::<S>(old(s)@, history@),
{
    let ghost start = s@;
    let ghost input = history@;
    let total = history.len();
    let mut ops = history;
    let ghost all = ops@;
    let mut rev: Vec<(S::Op, S::Ret)> = Vec::new();
    while ops.len() > 0
        invariant
            rev@.len() + ops@.len() == all.len(),
            forall|j: int| 0 <= j < ops@.len() ==> ops@[j] == all[j],
            forall|j: int|
                0 <= j < rev@.len() ==> #[trigger] rev@[j] == all[all.len() - 1 - j],
        decreases ops@.len(),
    {
        let x = ops.pop().unwrap();
        rev.push(x);
    }
    let mut done: usize = 0;
    assert(all.skip(0) =~= all);
    while rev.len() > 0
        invariant
            start == old(s)@,
            all == input,
            input == history@,
            total == all.len(),
            done + rev@.len() == all.len(),
            forall|j: int|
                0 <= j < rev@.len() ==> #[trigger] rev@[j] == all[all.len() - 1 - j],
            S::obeys_sequential_spec() ==> valid_history::<S>(start, all) == valid_history::<S>(
                s@,
                all.skip(done as int),
            ),
        decreases rev@.len(),
    {
        let ghost before = s@;
        let ghost idx = rev@.len() - 1;
        let (op, ret) = rev.pop().unwrap();
        assert((op, ret) == all[all.len() - 1 - idx]);
        let ok = s.is_valid_step(&op, &ret);
        proof {
            assert(all.skip(done as int).drop_first() =~= all.skip(done + 1));
            assert(all.skip(done as int)[0] == all[done as int]);
            assert(all.skip(done as int).len() > 0);
        }
        if !ok {
            proof {
                if S::obeys_sequential_spec() {
                    let rest = all.skip(done as int);
                    assert(rest[0] == (op, ret));
                    assert(S::invoke_spec(before, op).1 != ret);
                    assert(!valid_history::<S>(before, rest));
                }
            }
            return false;
        }
        done = done + 1;
    }
    proof {
        assert(all.skip(done as int).len() == 0);
    }
    true
}

/// Whether each operation of `h`, applied in turn from `state`, returns the value recorded with
/// it.
pub open spec fn valid_history<S: SequentialSpec>(state: S::V, h: Seq<(S::Op, S::Ret)>) -> bool
    decreases h.len(),
{
    if h.len() == 0 {
        true
    } else {
        let (next, ret) = S::invoke_spec(state, h[0].0);
        ret == h[0].1 && valid_history::<S>(next, h.drop_first())
    }
}

/// The state reached by applying the operations of `h` in turn from `state`.
pub open spec fn run_history<S: SequentialSpec>(state: S::V, h: Seq<(S::Op, S::Ret)>) -> S::V
    decreases h.len(),
{
    if h.len() == 0 {
        state
    } else {
        run_history::<S>(S::invoke_spec(state, h[0].0).0, h.drop_first())
    }
}

/// A valid history extends by one step exactly when the step is valid from the state the
/// history reaches.
pub proof fn valid_history_push<S: SequentialSpec>(
    state: S::V,
    h: Seq<(S::Op, S::Ret)>,
    op: S::Op,
    ret: S::Ret,
)
    requires
        valid_history::<S>(state, h),
    ensures
        valid_history::<S>(state, h.push((op, ret))) == (S::invoke_spec(
            run_history::<S>(state, h),
            op,
        ).1 == ret),
        run_history::<S>(state, h.push((op, ret))) == S::invoke_spec(
            run_history::<S>(state, h),
            op,
        ).0,
    decreases h.len(),
{
    let hp = h.push((op, ret));
    if h.len() > 0 {
        let next = S::invoke_spec(state, h[0].0).0;
        assert(hp.drop_first() =~= h.drop_first().push((op, ret)));
        assert(hp[0] == h[0]);
        valid_history_push::<S>(next, h.drop_first(), op, ret);
    } else {
        assert(hp.drop_first() =~= Seq::<(S::Op, S::Ret)>::empty());
        assert(hp[0] == (op, ret));
        let next = S::invoke_spec(state, op).0;
        assert(valid_history::<S>(next, hp.drop_first()));
        assert(run_history::<S>(next, hp.drop_first()) == next);
    }
}

} // verus!
