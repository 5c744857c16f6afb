//! Implements [`SequentialSpec`] for "write-once register" operational semantics.

use crate::semantics::linearizability::faithful;
use crate::semantics::{clone_exact, clone_keeps_view, exact_clone, exact_eq, SequentialSpec};
use vstd::prelude::*;

verus! {

/// A register that accepts only its first written value (rewriting an equal value also
/// succeeds), used to define reference operational semantics via [`SequentialSpec`].
#[derive(Default, Debug, Hash, PartialEq)]
pub struct WORegister<T>(pub Option<T>);

/// An operation that can be invoked upon a [`WORegister`], resulting in a [`WORegisterRet`].
#[derive(Debug, Hash, PartialEq)]
pub enum WORegisterOp<T> {
    Write(T),
    Read,
}

/// A return value for a [`WORegisterOp`] invoked upon a [`WORegister`].
#[derive(Debug, Hash, PartialEq)]
pub enum WORegisterRet<T> {
    WriteOk,
    WriteFail,
    ReadOk(Option<T>),
}

impl<T: Clone> Clone for WORegister<T> {
    /// Clones the value written, if any.
    fn clone(&self) -> (r: Self)
        ensures
            exact_clone::<T>() ==> r == *self,
    {
        WORegister(clone_option(&self.0))
    }
}

impl<T: Clone> Clone for WORegisterOp<T> {
    /// Clones the operation and the value it writes.
    fn clone(&self) -> (r: Self)
        ensures
            exact_clone::<T>() ==> r == *self,
    {
        match self {
            WORegisterOp::Write(v) => WORegisterOp::Write(clone_exact(v)),
            WORegisterOp::Read => WORegisterOp::Read,
        }
    }
}

impl<T: Clone> Clone for WORegisterRet<T> {
    /// Clones the return value and the value it reads.
    fn clone(&self) -> (r: Self)
        ensures
            exact_clone::<T>() ==> r == *self,
    {
        match self {
            WORegisterRet::WriteOk => WORegisterRet::WriteOk,
            WORegisterRet::WriteFail => WORegisterRet::WriteFail,
            WORegisterRet::ReadOk(v) => WORegisterRet::ReadOk(clone_option(v)),
        }
    }
}

/// A linearizability tester over write-once registers behaves as specified when thread
/// identifiers compare exactly and the register's values clone and compare exactly.
pub proof fn write_once_register_is_faithful<T: PartialEq, V: Clone + PartialEq>()
    requires
        exact_eq::<T>(),
        exact_clone::<V>(),
        exact_eq::<V>(),
    ensures
        faithful::<T, WORegister<V>>(),
{
    assert(clone_keeps_view::<WORegister<V>>());
    assert(exact_clone::<WORegisterOp<V>>());
    assert(exact_clone::<WORegisterRet<V>>());
}

impl<T> View for WORegister<T> {
    type V = Option<T>;

    /// The value written, if any.
    open spec fn view(&self) -> Option<T> {
        self.0
    }
}

impl<T: Clone + PartialEq> SequentialSpec for WORegister<T> {
    type Op = WORegisterOp<T>;

    type Ret = WORegisterRet<T>;

    /// The first write succeeds and sets the value; a later write succeeds only if it writes
    /// the value already held, and fails (changing nothing) otherwise; a read returns the value.
    open spec fn invoke_spec(state: Option<T>, op: WORegisterOp<T>) -> (
        Option<T>,
        WORegisterRet<T>,
    ) {
        match op {
            WORegisterOp::Write(v) => match state {
                None => (Some(v), WORegisterRet::WriteOk),
                Some(vp) => if v == vp {
                    (Some(v), WORegisterRet::WriteOk)
                } else {
                    (state, WORegisterRet::WriteFail)
                },
            },
            WORegisterOp::Read => (state, WORegisterRet::ReadOk(state)),
        }
    }

    open spec fn obeys_sequential_spec() -> bool {
        exact_clone::<T>() && exact_eq::<T>()
    }

    fn invoke(&mut self, op: &WORegisterOp<T>) -> (r: WORegisterRet<T>) {
        match op {
            WORegisterOp::Write(v) => {
                let same = match &self.0 {
                    None => None,
                    Some(vp) => Some(*v == *vp),
                };
                match same {
                    None => {
                        self.0 = Some(clone_exact(v));
                        WORegisterRet::WriteOk
                    },
                    Some(true) => {
                        self.0 = Some(clone_exact(v));
                        WORegisterRet::WriteOk
                    },
                    Some(false) => WORegisterRet::WriteFail,
                }
            },
            WORegisterOp::Read => WORegisterRet::ReadOk(clone_option(&self.0)),
        }
    }

    fn is_valid_step(&mut self, op: &WORegisterOp<T>, ret: &WORegisterRet<T>) -> (r: bool) {
        match (op, ret) {
            (WORegisterOp::Write(v), WORegisterRet::WriteOk) => match &self.0 {
                None => {
                    self.0 = Some(clone_exact(v));
                    true
                },
                Some(vp) => *v == *vp,
            },
            (WORegisterOp::Write(v), WORegisterRet::WriteFail) => match &self.0 {
                None => false,
                Some(vp) => !(*v == *vp),
            },
            (WORegisterOp::Read, WORegisterRet::ReadOk(v)) => match (&self.0, v) {
                (None, None) => true,
                (Some(x), Some(y)) => *x == *y,
                _ => false,
            },
            _ => false,
        }
    }
}

/// Clones an optional value.
fn clone_option<T: Clone>(x: &Option<T>) -> (r: Option<T>)
    ensures
        exact_clone::<T>() ==> r == *x,
{
    match x {
        None => None,
        Some(v) => Some(clone_exact(v)),
    }
}

} // verus!
