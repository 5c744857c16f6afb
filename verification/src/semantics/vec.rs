//! Implements [`SequentialSpec`] for [`Vec`] operational semantics.

use crate::semantics::linearizability::faithful;
use crate::semantics::{clone_exact, clone_keeps_view, exact_clone, exact_eq, SequentialSpec};
use vstd::prelude::*;

verus! {

/// An operation that can be invoked upon a [`Vec`], resulting in a [`VecRet`].
#[derive(Debug, Hash, PartialEq)]
pub enum VecOp<T> {
    Push(T),
    Pop,
    Len,
}

/// A return value for a [`VecOp`] invoked upon a [`Vec`].
#[derive(Debug, Hash, PartialEq)]
pub enum VecRet<T> {
    PushOk,
    PopOk(Option<T>),
    LenOk(usize),
}

impl<T: Clone> Clone for VecOp<T> {
    /// Clones the operation and the value it pushes.
    fn clone(&self) -> (r: Self)
        ensures
            exact_clone::<T>() ==> r == *self,
    {
        match self {
            VecOp::Push(v) => VecOp::Push(clone_exact(v)),
            VecOp::Pop => VecOp::Pop,
            VecOp::Len => VecOp::Len,
        }
    }
}

impl<T: Clone> Clone for VecRet<T> {
    /// Clones the return value and the value it holds.
    fn clone(&self) -> (r: Self)
        ensures
            exact_clone::<T>() ==> r == *self,
    {
        match self {
            VecRet::PushOk => VecRet::PushOk,
            VecRet::PopOk(None) => VecRet::PopOk(None),
            VecRet::PopOk(Some(v)) => VecRet::PopOk(Some(clone_exact(v))),
            VecRet::LenOk(n) => VecRet::LenOk(*n),
        }
    }
}

/// A linearizability tester over vectors behaves as specified when thread identifiers compare
/// exactly and the elements clone and compare exactly.
pub proof fn vec_is_faithful<T: PartialEq, V: Clone + PartialEq>()
    requires
        exact_eq::<T>(),
        exact_clone::<V>(),
        exact_eq::<V>(),
    ensures
        faithful::<T, Vec<V>>(),
{
    assert forall|a: Vec<V>, b: Vec<V>| #[trigger] vstd::pervasive::strictly_cloned(a, b) implies a@ == b@ by {
        assert(a@ =~= b@);
    }
    assert(clone_keeps_view::<Vec<V>>());
    assert(exact_clone::<VecOp<V>>());
    assert(exact_clone::<VecRet<V>>());
}

impl<T: Clone + PartialEq> SequentialSpec for Vec<T> {
    type Op = VecOp<T>;

    type Ret = VecRet<T>;

    /// A push appends and acknowledges; a pop removes and returns the last element (`None` when
    /// empty); a length query returns the number of elements.
    open spec fn invoke_spec(state: Seq<T>, op: VecOp<T>) -> (Seq<T>, VecRet<T>) {
        match op {
            VecOp::Push(v) => (state.push(v), VecRet::PushOk),
            VecOp::Pop => if state.len() == 0 {
                (state, VecRet::PopOk(None))
            } else {
                (state.drop_last(), VecRet::PopOk(Some(state.last())))
            },
            VecOp::Len => (state, VecRet::LenOk(state.len() as usize)),
        }
    }

    open spec fn obeys_sequential_spec() -> bool {
        exact_clone::<T>() && exact_eq::<T>()
    }

    fn invoke(&mut self, op: &VecOp<T>) -> (r: VecRet<T>) {
        match op {
            VecOp::Push(v) => {
                self.push(clone_exact(v));
                VecRet::PushOk
            },
            VecOp::Pop => VecRet::PopOk(self.pop()),
            VecOp::Len => VecRet::LenOk(self.len()),
        }
    }

    fn is_valid_step(&mut self, op: &VecOp<T>, ret: &VecRet<T>) -> (r: bool) {
        match (op, ret) {
            (VecOp::Push(v), VecRet::PushOk) => {
                self.push(clone_exact(v));
                true
            },
            (VecOp::Pop, VecRet::PopOk(v)) => {
                let popped = self.pop();
                match (popped, v) {
                    (None, None) => true,
                    (Some(x), Some(y)) => x == *y,
                    _ => false,
                }
            },
            (VecOp::Len, VecRet::LenOk(l)) => self.len() == *l,
            _ => false,
        }
    }
}

} // verus!
