//! Implements [`SequentialSpec`] for [`Register`] operational semantics.

use crate::semantics::linearizability::faithful;
use crate::semantics::{clone_exact, clone_keeps_view, exact_clone, exact_eq, SequentialSpec};
use vstd::prelude::*;

verus! {

/// A simple register used to define reference operational semantics via [`SequentialSpec`].
#[derive(Debug, Default, Eq, Hash, PartialEq)]
pub struct Register<T>(pub T);

/// An operation that can be invoked upon a [`Register`], resulting in a [`RegisterRet`].
#[derive(Debug, Eq, Hash, PartialEq)]
pub enum RegisterOp<T> {
    Write(T),
    Read,
}

/// A return value for a [`RegisterOp`] invoked upon a [`Register`].
#[derive(Debug, Eq, Hash, PartialEq)]
pub enum RegisterRet<T> {
    WriteOk,
    ReadOk(T),
}

impl<T: Clone> Clone for Register<T> {
    /// Clones the held value.
    fn clone(&self) -> (r: Self)
        ensures
            exact_clone::<T>() ==> r == *self,
    {
        Register(clone_exact(&self.0))
    }
}

impl<T: Clone> Clone for RegisterOp<T> {
    /// Clones the operation and the value it writes.
    fn clone(&self) -> (r: Self)
        ensures
            exact_clone::<T>() ==> r == *self,
    {
        match self {
            RegisterOp::Write(v) => RegisterOp::Write(clone_exact(v)),
            RegisterOp::Read => RegisterOp::Read,
        }
    }
}

impl<T: Clone> Clone for RegisterRet<T> {
    /// Clones the return value and the value it reads.
    fn clone(&self) -> (r: Self)
        ensures
            exact_clone::<T>() ==> r == *self,
    {
        match self {
            RegisterRet::WriteOk => RegisterRet::WriteOk,
            RegisterRet::ReadOk(v) => RegisterRet::ReadOk(clone_exact(v)),
        }
    }
}

/// A linearizability tester over registers behaves as specified when thread identifiers
/// compare exactly and the register's values clone and compare exactly.
pub proof fn register_is_faithful<T: PartialEq, V: Clone + PartialEq>()
    requires
        exact_eq::<T>(),
        exact_clone::<V>(),
        exact_eq::<V>(),
    ensures
        faithful::<T, Register<V>>(),
{
    assert(clone_keeps_view::<Register<V>>());
    assert(exact_clone::<RegisterOp<V>>());
    assert(exact_clone::<RegisterRet<V>>());
}

impl<T> View for Register<T> {
    type V = T;

    /// The value held.
    open spec fn view(&self) -> T {
        self.0
    }
}

impl<T: Clone + PartialEq> SequentialSpec for Register<T> {
    type Op = RegisterOp<T>;

    type Ret = RegisterRet<T>;

    /// A write replaces the value and acknowledges; a read returns the value.
    open spec fn invoke_spec(state: T, op: RegisterOp<T>) -> (T, RegisterRet<T>) {
        match op {
            RegisterOp::Write(v) => (v, RegisterRet::WriteOk),
            RegisterOp::Read => (state, RegisterRet::ReadOk(state)),
        }
    }

    open spec fn obeys_sequential_spec() -> bool {
        exact_clone::<T>() && exact_eq::<T>()
    }

    fn invoke(&mut self, op: &RegisterOp<T>) -> (r: RegisterRet<T>) {
        match op {
            RegisterOp::Write(v) => {
                self.0 = clone_exact(v);
                RegisterRet::WriteOk
            },
            RegisterOp::Read => RegisterRet::ReadOk(clone_exact(&self.0)),
        }
    }

    fn is_valid_step(&mut self, op: &RegisterOp<T>, ret: &RegisterRet<T>) -> (r: bool) {
        match (op, ret) {
            (RegisterOp::Write(v), RegisterRet::WriteOk) => {
                self.0 = clone_exact(v);
                true
            },
            (RegisterOp::Read, RegisterRet::ReadOk(v)) => self.0 == *v,
            _ => false,
        }
    }
}

} // verus!
