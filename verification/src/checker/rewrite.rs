//! [`Rewrite`]: rewriting the values of a type held in a data structure by a [`RewritePlan`].

use crate::actor::{Envelope, Id};
use crate::checker::rewrite_plan::{Mapping, RewritePlan};
use crate::checker::ranking::{
    is_permutation, permute, stable_rank, stable_ranks, stable_ranks_permute,
    usize_strict_weak_order,
};
use crate::util::densenatmap::{keys_convert, DenseNatMap};
use vstd::std_specs::convert::FromSpec;
use std::collections::VecDeque;
use vstd::prelude::*;

verus! {

/// Implementations can rewrite their instances of the "rewritten" type `R` based on a specified
/// [`RewritePlan`].
///
/// This is used for symmetry reduction when a model's state implements
/// [`crate::checker::representative::Representative`].
pub trait Rewrite<R>: Sized {
    /// Whether `r` is `self` with each of its values of type `R` rewritten by `f`. An
    /// implementation that does not define this claims nothing.
    open spec fn rewritten_as(&self, f: spec_fn(R) -> R, r: Self) -> bool {
        true
    }

    /// Generates a corresponding instance with values revised based on a particular
    /// `RewritePlan`.
    fn rewrite<S: Mapping<R>>(&self, plan: &RewritePlan<R, S>) -> (r: Self)
        ensures
            S::faithful() ==> self.rewritten_as(plan.rewriting(), r),
    ;
}

impl<R> Rewrite<R> for bool {
    open spec fn rewritten_as(&self, f: spec_fn(R) -> R, r: Self) -> bool {
        r == *self
    }

    /// A `bool` holds no rewritten value.
    fn rewrite<S: Mapping<R>>(&self, plan: &RewritePlan<R, S>) -> (r: Self) {
        *self
    }
}

impl<R> Rewrite<R> for char {
    open spec fn rewritten_as(&self, f: spec_fn(R) -> R, r: Self) -> bool {
        r == *self
    }

    /// A `char` holds no rewritten value.
    fn rewrite<S: Mapping<R>>(&self, plan: &RewritePlan<R, S>) -> (r: Self) {
        *self
    }
}

impl<R> Rewrite<R> for u8 {
    open spec fn rewritten_as(&self, f: spec_fn(R) -> R, r: Self) -> bool {
        r == *self
    }

    /// An integer holds no rewritten value.
    fn rewrite<S: Mapping<R>>(&self, plan: &RewritePlan<R, S>) -> (r: Self) {
        *self
    }
}

impl<R> Rewrite<R> for u16 {
    open spec fn rewritten_as(&self, f: spec_fn(R) -> R, r: Self) -> bool {
        r == *self
    }

    /// An integer holds no rewritten value.
    fn rewrite<S: Mapping<R>>(&self, plan: &RewritePlan<R, S>) -> (r: Self) {
        *self
    }
}

impl<R> Rewrite<R> for u32 {
    open spec fn rewritten_as(&self, f: spec_fn(R) -> R, r: Self) -> bool {
        r == *self
    }

    /// An integer holds no rewritten value.
    fn rewrite<S: Mapping<R>>(&self, plan: &RewritePlan<R, S>) -> (r: Self) {
        *self
    }
}

impl<R> Rewrite<R> for u64 {
    open spec fn rewritten_as(&self, f: spec_fn(R) -> R, r: Self) -> bool {
        r == *self
    }

    /// An integer holds no rewritten value.
    fn rewrite<S: Mapping<R>>(&self, plan: &RewritePlan<R, S>) -> (r: Self) {
        *self
    }
}

impl<R> Rewrite<R> for usize {
    open spec fn rewritten_as(&self, f: spec_fn(R) -> R, r: Self) -> bool {
        r == *self
    }

    /// An integer holds no rewritten value.
    fn rewrite<S: Mapping<R>>(&self, plan: &RewritePlan<R, S>) -> (r: Self) {
        *self
    }
}

impl<R> Rewrite<R> for i8 {
    open spec fn rewritten_as(&self, f: spec_fn(R) -> R, r: Self) -> bool {
        r == *self
    }

    /// An integer holds no rewritten value.
    fn rewrite<S: Mapping<R>>(&self, plan: &RewritePlan<R, S>) -> (r: Self) {
        *self
    }
}

impl<R> Rewrite<R> for i16 {
    open spec fn rewritten_as(&self, f: spec_fn(R) -> R, r: Self) -> bool {
        r == *self
    }

    /// An integer holds no rewritten value.
    fn rewrite<S: Mapping<R>>(&self, plan: &RewritePlan<R, S>) -> (r: Self) {
        *self
    }
}

impl<R> Rewrite<R> for i32 {
    open spec fn rewritten_as(&self, f: spec_fn(R) -> R, r: Self) -> bool {
        r == *self
    }

    /// An integer holds no rewritten value.
    fn rewrite<S: Mapping<R>>(&self, plan: &RewritePlan<R, S>) -> (r: Self) {
        *self
    }
}

impl<R> Rewrite<R> for i64 {
    open spec fn rewritten_as(&self, f: spec_fn(R) -> R, r: Self) -> bool {
        r == *self
    }

    /// An integer holds no rewritten value.
    fn rewrite<S: Mapping<R>>(&self, plan: &RewritePlan<R, S>) -> (r: Self) {
        *self
    }
}

impl<R> Rewrite<R> for isize {
    open spec fn rewritten_as(&self, f: spec_fn(R) -> R, r: Self) -> bool {
        r == *self
    }

    /// An integer holds no rewritten value.
    fn rewrite<S: Mapping<R>>(&self, plan: &RewritePlan<R, S>) -> (r: Self) {
        *self
    }
}

impl<R> Rewrite<R> for &'static str {
    open spec fn rewritten_as(&self, f: spec_fn(R) -> R, r: Self) -> bool {
        r == *self
    }

    /// A string holds no rewritten value.
    fn rewrite<S: Mapping<R>>(&self, plan: &RewritePlan<R, S>) -> (r: Self) {
        *self
    }
}

impl<R> Rewrite<R> for String {
    open spec fn rewritten_as(&self, f: spec_fn(R) -> R, r: Self) -> bool {
        r@ == self@
    }

    /// A string holds no rewritten value.
    fn rewrite<S: Mapping<R>>(&self, plan: &RewritePlan<R, S>) -> (r: Self) {
        self.clone()
    }
}

impl<R, T0: Rewrite<R>, T1: Rewrite<R>> Rewrite<R> for (T0, T1) {
    open spec fn rewritten_as(&self, f: spec_fn(R) -> R, r: Self) -> bool {
        self.0.rewritten_as(f, r.0) && self.1.rewritten_as(f, r.1)
    }

    /// Rewrites each component.
    fn rewrite<S: Mapping<R>>(&self, plan: &RewritePlan<R, S>) -> (r: Self) {
        (self.0.rewrite(plan), self.1.rewrite(plan))
    }
}

impl<R, T: Rewrite<R>> Rewrite<R> for Option<T> {
    open spec fn rewritten_as(&self, f: spec_fn(R) -> R, r: Self) -> bool {
        match (*self, r) {
            (Some(x), Some(y)) => x.rewritten_as(f, y),
            (None, None) => true,
            _ => false,
        }
    }

    /// Rewrites the value held, if any.
    fn rewrite<S: Mapping<R>>(&self, plan: &RewritePlan<R, S>) -> (r: Self) {
        match self {
            Some(v) => Some(v.rewrite(plan)),
            None => None,
        }
    }
}

impl<R, V: Rewrite<R>> Rewrite<R> for Vec<V> {
    open spec fn rewritten_as(&self, f: spec_fn(R) -> R, r: Self) -> bool {
        &&& r@.len() == self@.len()
        &&& forall|i: int| 0 <= i < self@.len() ==> self@[i].rewritten_as(f, #[trigger] r@[i])
    }

    /// Rewrites each element, keeping their order.
    fn rewrite<S: Mapping<R>>(&self, plan: &RewritePlan<R, S>) -> (r: Self) {
        let mut out: Vec<V> = Vec::new();
        let mut i: usize = 0;
        while i < self.len()
            invariant
                i <= self@.len(),
                out@.len() == i,
                S::faithful() ==> forall|x: int|
                    0 <= x < i ==> self@[x].rewritten_as(plan.rewriting(), #[trigger] out@[x]),
            decreases self@.len() - i,
        {
            out.push(self[i].rewrite(plan));
            i = i + 1;
        }
        out
    }
}

impl<R, V: Rewrite<R>> Rewrite<R> for VecDeque<V> {
    open spec fn rewritten_as(&self, f: spec_fn(R) -> R, r: Self) -> bool {
        &&& r@.len() == self@.len()
        &&& forall|i: int| 0 <= i < self@.len() ==> self@[i].rewritten_as(f, #[trigger] r@[i])
    }

    /// Rewrites each element, keeping their order.
    fn rewrite<S: Mapping<R>>(&self, plan: &RewritePlan<R, S>) -> (r: Self) {
        let mut out: VecDeque<V> = VecDeque::new();
        let mut i: usize = 0;
        while i < self.len()
            invariant
                i <= self@.len(),
                out@.len() == i,
                S::faithful() ==> forall|x: int|
                    0 <= x < i ==> self@[x].rewritten_as(plan.rewriting(), #[trigger] out@[x]),
            decreases self@.len() - i,
        {
            out.push_back(self[i].rewrite(plan));
            i = i + 1;
        }
        out
    }
}

/// The positions that a map's indices `0..n` go to when their keys are rewritten by `f`.
pub open spec fn moved_indices<K>(n: nat, f: spec_fn(K) -> K) -> Seq<usize> where
    K: From<usize>,
    usize: From<K>,
 {
    Seq::new(
        n,
        |i: int|
            <usize as FromSpec<K>>::from_spec(f(<K as FromSpec<usize>>::from_spec(i as usize))),
    )
}

impl<K: From<usize> + Copy, V: Rewrite<K>> Rewrite<K> for DenseNatMap<K, V> where usize: From<K> {
    /// When keys convert as specified: each value is rewritten and moves to the position of its
    /// rewritten key, values whose keys land on the same position staying in index order.
    open spec fn rewritten_as(&self, f: spec_fn(K) -> K, r: Self) -> bool {
        keys_convert::<K>() && <K as FromSpec<usize>>::obeys_from_spec() ==> {
            &&& r@.len() == self@.len()
            &&& forall|i: int|
                0 <= i < self@.len() ==> self@[i].rewritten_as(
                    f,
                    #[trigger] r@[stable_rank(moved_indices(self@.len(), f), i) as int],
                )
        }
    }

    /// Rewrites the keys and the values: the value of each key moves to the rewritten key.
    fn rewrite<S: Mapping<K>>(&self, plan: &RewritePlan<K, S>) -> (r: Self) {
        let n = self.len();
        let values = self.values();
        let mut keys: Vec<usize> = Vec::new();
        let mut rewritten: Vec<V> = Vec::new();
        let mut i: usize = 0;
        while i < n
            invariant
                n == self@.len(),
                values@ == self@,
                i <= n,
                keys@.len() == i,
                rewritten@.len() == i,
                S::faithful() && keys_convert::<K>() && <K as FromSpec<usize>>::obeys_from_spec()
                    ==> forall|x: int|
                    0 <= x < i ==> #[trigger] keys@[x] == moved_indices(
                        self@.len(),
                        plan.rewriting(),
                    )[x],
                S::faithful() ==> forall|x: int|
                    0 <= x < i ==> self@[x].rewritten_as(plan.rewriting(), #[trigger] rewritten@[x]),
            decreases n - i,
        {
            let k = plan.rewrite(&K::from(i));
            keys.push(usize::from(k));
            rewritten.push(values[i].rewrite(plan));
            i = i + 1;
        }
        let ranks = stable_ranks(keys.as_slice());
        proof {
            usize_strict_weak_order();
            assert forall|x: int| 0 <= x < n implies #[trigger] ranks@[x] < n by {
                stable_ranks_permute(keys@, x, x);
            }
            assert forall|x: int, y: int| 0 <= x < y < n implies #[trigger] ranks@[x]
                != #[trigger] ranks@[y] by {
                stable_ranks_permute(keys@, x, y);
            }
        }
        let ghost items = rewritten@;
        let out = permute(rewritten, &ranks);
        let r = DenseNatMap::from(out);
        proof {
            crate::util::densenatmap::from_vec_values::<K, V>(out);
            if S::faithful() && keys_convert::<K>() && <K as FromSpec<usize>>::obeys_from_spec() {
                assert(keys@ =~= moved_indices(self@.len(), plan.rewriting()));
                assert forall|i: int| 0 <= i < n implies self@[i].rewritten_as(
                    plan.rewriting(),
                    #[trigger] r@[stable_rank(moved_indices(self@.len(), plan.rewriting()), i) as int],
                ) by {
                    assert(ranks@[i] == stable_rank(keys@, i));
                    assert(out@[ranks@[i] as int] == items[i]);
                }
            }
        }
        r
    }
}

impl Rewrite<Id> for Id {
    open spec fn rewritten_as(&self, f: spec_fn(Id) -> Id, r: Self) -> bool {
        r == f(*self)
    }

    /// An identifier is rewritten by the plan.
    fn rewrite<S: Mapping<Id>>(&self, plan: &RewritePlan<Id, S>) -> (r: Self) {
        plan.rewrite(self)
    }
}

impl<Msg: Rewrite<Id>> Rewrite<Id> for Envelope<Msg> {
    open spec fn rewritten_as(&self, f: spec_fn(Id) -> Id, r: Self) -> bool {
        &&& self.src.rewritten_as(f, r.src)
        &&& self.dst.rewritten_as(f, r.dst)
        &&& self.msg.rewritten_as(f, r.msg)
    }

    /// Rewrites the source, the destination and the message.
    fn rewrite<S: Mapping<Id>>(&self, plan: &RewritePlan<Id, S>) -> (r: Self) {
        Envelope {
            src: self.src.rewrite(plan),
            dst: self.dst.rewrite(plan),
            msg: self.msg.rewrite(plan),
        }
    }
}

} // verus!
