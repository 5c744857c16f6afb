//! [`RewritePlan`]: how to rewrite values of a type, such as process identifiers, while reducing
//! a state to a representative of its symmetry class.

use crate::checker::ranking::{
    is_permutation, ordered_by_spec, permute, stable_rank, stable_ranks, stable_ranks_permute,
    strict_weak_order, usize_strict_weak_order,
};
use crate::checker::rewrite::Rewrite;
use crate::util::densenatmap::{key_index, keys_convert, DenseNatMap};
use core::marker::PhantomData;
use std::collections::VecDeque;
use vstd::prelude::*;
use vstd::std_specs::convert::{FromSpec, FromSpecImpl};

verus! {

/// A collection whose items are indexed by position from zero, as [`RewritePlan::reindex`] reads
/// and builds them.
pub trait Indexed<T>: Sized {
    /// The items, in order of position.
    spec fn items(&self) -> Seq<T>;

    /// The number of items.
    fn count(&self) -> (r: usize)
        ensures
            r == self.items().len(),
    ;

    /// The item at position `i`.
    fn item(&self, i: usize) -> (r: &T)
        requires
            i < self.items().len(),
        ensures
            *r == self.items()[i as int],
    ;

    /// The collection of the items of `v`, in order.
    fn collect_from(v: Vec<T>) -> (r: Self)
        ensures
            r.items() == v@,
    ;
}

impl<T> Indexed<T> for Vec<T> {
    open spec fn items(&self) -> Seq<T> {
        self@
    }

    fn count(&self) -> (r: usize) {
        self.len()
    }

    fn item(&self, i: usize) -> (r: &T) {
        &self[i]
    }

    fn collect_from(v: Vec<T>) -> (r: Self) {
        v
    }
}

impl<T> Indexed<T> for VecDeque<T> {
    open spec fn items(&self) -> Seq<T> {
        self@
    }

    fn count(&self) -> (r: usize) {
        self.len()
    }

    fn item(&self, i: usize) -> (r: &T) {
        &self[i]
    }

    fn collect_from(v: Vec<T>) -> (r: Self) {
        let ghost all = v@;
        let mut rest = v;
        let mut rev: Vec<T> = Vec::new();
        while rest.len() > 0
            invariant
                rev@.len() + rest@.len() == all.len(),
                forall|j: int| 0 <= j < rest@.len() ==> rest@[j] == all[j],
                forall|j: int|
                    0 <= j < rev@.len() ==> #[trigger] rev@[j] == all[all.len() - 1 - j],
            decreases rest@.len(),
        {
            let x = rest.pop().unwrap();
            rev.push(x);
        }
        let mut out: VecDeque<T> = VecDeque::new();
        while rev.len() > 0
            invariant
                out@.len() + rev@.len() == all.len(),
                forall|j: int|
                    0 <= j < rev@.len() ==> #[trigger] rev@[j] == all[all.len() - 1 - j],
                forall|j: int| 0 <= j < out@.len() ==> #[trigger] out@[j] == all[j],
            decreases rev@.len(),
        {
            let x = rev.pop().unwrap();
            out.push_back(x);
        }
        proof {
            assert(out@ =~= all);
        }
        out
    }
}

/// A way to rewrite values of type `R`, held by a [`RewritePlan`].
pub trait Mapping<R> {
    /// Whether [`Mapping::apply`] computes [`Mapping::maps`]. An implementation that does not
    /// define this claims nothing.
    open spec fn faithful() -> bool {
        false
    }

    /// The value that `x` is rewritten to.
    open spec fn maps(&self, x: R) -> R {
        x
    }

    /// Computes the value that `x` is rewritten to.
    fn apply(&self, x: &R) -> (r: R)
        ensures
            Self::faithful() ==> r == self.maps(*x),
    ;
}

/// A map from indices to values maps each value whose index it holds to the value there, and
/// leaves other values as they are.
impl<R: Copy> Mapping<R> for DenseNatMap<R, R> where usize: From<R> {
    open spec fn faithful() -> bool {
        keys_convert::<R>()
    }

    open spec fn maps(&self, x: R) -> R {
        if 0 <= key_index(x) < self@.len() {
            self@[key_index(x)]
        } else {
            x
        }
    }

    fn apply(&self, x: &R) -> (r: R) {
        match self.get(*x) {
            Some(v) => *v,
            None => *x,
        }
    }
}

/// A `RewritePlan<R, S>` is derived from a data structure instance and indicates how values of
/// type `R` (short for "rewritten") should be rewritten. When that plan is recursively applied via
/// [`Rewrite`], the resulting data structure instance will be behaviorally equivalent to the
/// original data structure under a symmetry equivalence relation, enabling symmetry reduction.
///
/// Typically the `RewritePlan` would be constructed by an implementation of
/// [`crate::checker::representative::Representative`] for a model's state.
pub struct RewritePlan<R, S> {
    s: S,
    _rewritten: PhantomData<R>,
}

impl<R, S> RewritePlan<R, S> {
    /// The state of the plan: what it rewrites by.
    pub closed spec fn state(&self) -> S {
        self.s
    }

    /// How the plan rewrites values, as its state maps them.
    pub open spec fn rewriting(&self) -> spec_fn(R) -> R where S: Mapping<R> {
        |x: R| self.state().maps(x)
    }

    /// Applies the rewrite plan to a value of type `R`.
    pub fn rewrite(&self, x: &R) -> (r: R) where S: Mapping<R>
        ensures
            S::faithful() ==> r == self.state().maps(*x),
    {
        self.s.apply(x)
    }

    /// Returns the state. Useful for debugging.
    pub fn get_state(&self) -> (r: &S)
        ensures
            *r == self.state(),
    {
        &self.s
    }

    /// Creates a new rewrite plan from a given state, which rewrites values through its
    /// [`Mapping`].
    pub fn new(s: S) -> (r: Self)
        ensures
            r.state() == s,
    {
        RewritePlan { s, _rewritten: PhantomData }
    }
}

/// The positions that a plan's map sends the indices `0..n` to, read as indices.
pub open spec fn plan_keys<R>(s: Seq<R>) -> Seq<usize> where usize: From<R> {
    Seq::new(s.len(), |i: int| <usize as FromSpec<R>>::from_spec(s[i]))
}

impl<R: From<usize> + Copy> RewritePlan<R, DenseNatMap<R, R>> where usize: From<R> {
    /// The map of the plan: index `i` is rewritten to the value at index `i`.
    pub closed spec fn map(&self) -> Seq<R> {
        self.s@
    }

    /// Constructs a `RewritePlan` by sorting values: index `i` is rewritten to the position of
    /// the `i`-th value once the values are sorted stably. Favor using the [`RewritePlan::new`]
    /// constructor over this one as it provides additional type safety.
    pub fn from_values_to_sort<V: Ord>(to_sort: &[V]) -> (r: Self)
        ensures
            r.map().len() == to_sort@.len(),
            ordered_by_spec::<V>() && <R as FromSpec<usize>>::obeys_from_spec() ==> forall|i: int|
                0 <= i < to_sort@.len() ==> #[trigger] r.map()[i] == <R as FromSpec<
                    usize,
                >>::from_spec(stable_rank(to_sort@, i) as usize),
    {
        let ranks = stable_ranks(to_sort);
        let mut values: Vec<R> = Vec::new();
        let mut i: usize = 0;
        while i < ranks.len()
            invariant
                i <= ranks@.len(),
                ranks@.len() == to_sort@.len(),
                values@.len() == i,
                ordered_by_spec::<V>() ==> forall|x: int|
                    0 <= x < to_sort@.len() ==> #[trigger] ranks@[x] == stable_rank(to_sort@, x),
                <R as FromSpec<usize>>::obeys_from_spec() ==> forall|x: int|
                    0 <= x < i ==> #[trigger] values@[x] == <R as FromSpec<usize>>::from_spec(
                        ranks@[x],
                    ),
            decreases ranks@.len() - i,
        {
            values.push(R::from(ranks[i]));
            i = i + 1;
        }
        let s = DenseNatMap::from(values);
        proof {
            crate::util::densenatmap::from_vec_values::<R, R>(values);
        }
        RewritePlan { s, _rewritten: PhantomData }
    }

    /// Permutes the elements of a collection indexed by position (a [`Vec`] or a [`VecDeque`])
    /// whose indices correspond with the indices of the values that were used to construct this
    /// plan, rewriting each: the elements are ordered by the
    /// positions their indices map to (in order of index where two map to the same position),
    /// so the `i`-th element lands at [`stable_rank`] `i` of the [`plan_keys`].
    pub fn reindex<T: Rewrite<R>, C: Indexed<T>>(&self, indexed: &C) -> (r: C)
        requires
            indexed.items().len() >= self.map().len(),
        ensures
            r.items().len() == self.map().len(),
            keys_convert::<R>() ==> forall|i: int|
                0 <= i < self.map().len() ==> indexed.items()[i].rewritten_as(
                    self.rewriting(),
                    #[trigger] r.items()[stable_rank(plan_keys(self.map()), i) as int],
                ),
    {
        let n = self.s.len();
        let mut keys: Vec<usize> = Vec::new();
        let mut rewritten: Vec<T> = Vec::new();
        let mut i: usize = 0;
        while i < n
            invariant
                n == self.map().len(),
                indexed.items().len() >= n,
                i <= n,
                keys@.len() == i,
                rewritten@.len() == i,
                keys_convert::<R>() ==> forall|x: int|
                    0 <= x < i ==> #[trigger] keys@[x] == plan_keys(self.map())[x],
                keys_convert::<R>() ==> forall|x: int|
                    0 <= x < i ==> indexed.items()[x].rewritten_as(self.rewriting(), #[trigger] rewritten@[x]),
            decreases n - i,
        {
            let k = self.s.values()[i];
            keys.push(usize::from(k));
            rewritten.push(indexed.item(i).rewrite(self));
            i = i + 1;
        }
        let ranks = stable_ranks(keys.as_slice());
        proof {
            if keys_convert::<R>() {
                assert(keys@ =~= plan_keys(self.map()));
            }
        }
        proof {
            usize_strict_weak_order();
            assert forall|x: int| 0 <= x < n implies #[trigger] ranks@[x] < n by {
                stable_ranks_permute(keys@, x, x);
            }
            assert forall|x: int, y: int| 0 <= x < y < n implies #[trigger] ranks@[x]
                != #[trigger] ranks@[y] by {
                stable_ranks_permute(keys@, x, y);
            }
            assert(is_permutation(ranks@));
        }
        let ghost items = rewritten@;
        let out = permute(rewritten, &ranks);
        proof {
            if keys_convert::<R>() {
                assert forall|i: int| 0 <= i < n implies indexed.items()[i].rewritten_as(
                    self.rewriting(),
                    #[trigger] out@[stable_rank(plan_keys(self.map()), i) as int],
                ) by {
                    assert(ranks@[i] == stable_rank(keys@, i));
                    assert(out@[ranks@[i] as int] == items[i]);
                }
            }
        }
        C::collect_from(out)
    }
}

impl<'a, R: From<usize> + Copy, V: Ord> From<&'a DenseNatMap<R, V>> for RewritePlan<
    R,
    DenseNatMap<R, R>,
> where usize: From<R> {
    /// The plan that sorts the values of the map; see [`RewritePlan::from_values_to_sort`].
    fn from(s: &'a DenseNatMap<R, V>) -> (r: Self)
        ensures
            r.map().len() == s@.len(),
            ordered_by_spec::<V>() && <R as FromSpec<usize>>::obeys_from_spec() ==> forall|i: int|
                0 <= i < s@.len() ==> #[trigger] r.map()[i] == <R as FromSpec<usize>>::from_spec(
                    stable_rank(s@, i) as usize,
                ),
    {
        Self::from_values_to_sort(s.values())
    }
}

impl<'a, R: From<usize> + Copy, V: Ord> FromSpecImpl<&'a DenseNatMap<R, V>> for RewritePlan<
    R,
    DenseNatMap<R, R>,
> where usize: From<R> {
    /// The plan is described by the `ensures` of `from` rather than by a spec function.
    open spec fn obeys_from_spec() -> bool {
        false
    }

    open spec fn from_spec(s: &'a DenseNatMap<R, V>) -> Self {
        arbitrary()
    }
}

} // verus!
