//! The set of timers that an actor has set.

use crate::actor::Id;
use crate::checker::rewrite::Rewrite;
use crate::checker::rewrite_plan::{Mapping, RewritePlan};
use crate::semantics::{clone_exact, exact_clone, exact_eq};
use crate::util::digest::{feed, hash_of, sort_numbers, sorted};
use core::hash::Hash;
use vstd::prelude::*;

verus! {

/// A collection of timers that have been set for a given actor.
///
/// The timers are kept in the order in which they were first set; a timer is held at most once
/// (when `==` on `T` is equality of values).
#[derive(Debug)]
pub struct Timers<T: Hash + Eq>(Vec<T>);

impl<T: Hash + Eq> View for Timers<T> {
    type V = Set<T>;

    /// The timers that are set.
    closed spec fn view(&self) -> Set<T> {
        self.0@.to_set()
    }
}

impl<T: Hash + Eq> Timers<T> {
    #[verifier::type_invariant]
    spec fn distinct(self) -> bool {
        exact_eq::<T>() ==> self.0@.no_duplicates()
    }

    /// The timers in the order in which they were first set.
    pub closed spec fn order(&self) -> Seq<T> {
        self.0@
    }

    /// Create a new timer set.
    pub fn new() -> (r: Self)
        ensures
            r@ == Set::<T>::empty(),
            r.order() == Seq::<T>::empty(),
    {
        let r = Timers(Vec::new());
        proof {
            assert(r.0@.to_set() =~= Set::<T>::empty());
        }
        r
    }

    /// The position of `timer`, if it is set.
    fn position(&self, timer: &T) -> (r: Option<usize>)
        ensures
            r matches Some(i) ==> i < self.0@.len(),
            exact_eq::<T>() ==> match r {
                Some(i) => self.0@[i as int] == *timer,
                None => !self.0@.contains(*timer),
            },
    {
        let mut i: usize = 0;
        while i < self.0.len()
            invariant
                i <= self.0@.len(),
                exact_eq::<T>() ==> forall|j: int| 0 <= j < i ==> self.0@[j] != *timer,
            decreases self.0@.len() - i,
        {
            if self.0[i] == *timer {
                return Some(i);
            }
            i = i + 1;
        }
        None
    }

    /// Set a timer. Returns whether it was not set before.
    pub fn set(&mut self, timer: T) -> (r: bool)
        ensures
            exact_eq::<T>() ==> r == !old(self)@.contains(timer),
            exact_eq::<T>() ==> final(self)@ == old(self)@.insert(timer),
            exact_eq::<T>() ==> final(self).order() == if r {
                old(self).order().push(timer)
            } else {
                old(self).order()
            },
    {
        proof {
            use_type_invariant(&*self);
        }
        match self.position(&timer) {
            Some(_) => {
                proof {
                    if exact_eq::<T>() {
                        assert(self.0@.to_set().insert(timer) =~= self.0@.to_set());
                    }
                }
                false
            },
            None => {
                let ghost before = self.0@;
                let mut v = Vec::new();
                std::mem::swap(&mut v, &mut self.0);
                v.push(timer);
                proof {
                    assert(v@ == before.push(timer));
                    before.lemma_push_to_set_commute(timer);
                    if exact_eq::<T>() {
                        assert(v@.no_duplicates()) by {
                            assert forall|a: int, b: int|
                                0 <= a < b < v@.len() implies v@[a] != v@[b] by {
                                if b == v@.len() - 1 {
                                    assert(before.contains(before[a]));
                                }
                            }
                        }
                    }
                }
                self.0 = v;
                true
            },
        }
    }

    /// Cancel a timer. Returns whether it was set.
    pub fn cancel(&mut self, timer: &T) -> (r: bool)
        ensures
            exact_eq::<T>() ==> r == old(self)@.contains(*timer),
            exact_eq::<T>() ==> final(self)@ == old(self)@.remove(*timer),
    {
        proof {
            use_type_invariant(&*self);
        }
        match self.position(timer) {
            Some(i) => {
                let ghost before = self.0@;
                let mut v = Vec::new();
                std::mem::swap(&mut v, &mut self.0);
                v.remove(i);
                proof {
                    assert(v@ == before.remove(i as int));
                    if exact_eq::<T>() {
                        assert(v@.no_duplicates()) by {
                            assert forall|a: int, b: int|
                                0 <= a < b < v@.len() implies v@[a] != v@[b] by {
                                let a2 = if a < i { a } else { a + 1 };
                                let b2 = if b < i { b } else { b + 1 };
                                assert(v@[a] == before[a2]);
                                assert(v@[b] == before[b2]);
                            }
                        }
                        assert(v@.to_set() =~= before.to_set().remove(*timer)) by {
                            assert forall|x: T| #[trigger] v@.to_set().contains(x) <==> before.to_set().remove(*timer).contains(x) by {
                                if v@.contains(x) {
                                    let k = choose|k: int| 0 <= k < v@.len() && v@[k] == x;
                                    let k2 = if k < i { k } else { k + 1 };
                                    assert(before[k2] == x);
                                    assert(k2 != i);
                                }
                                if before.contains(x) && x != *timer {
                                    let k = choose|k: int| 0 <= k < before.len() && before[k] == x;
                                    assert(k != i);
                                    let k2 = if k < i { k } else { k - 1 };
                                    assert(v@[k2] == x);
                                }
                            }
                        }
                    }
                }
                self.0 = v;
                true
            },
            None => {
                proof {
                    if exact_eq::<T>() {
                        assert(self.0@.to_set().remove(*timer) =~= self.0@.to_set());
                    }
                }
                false
            },
        }
    }

    /// Cancels all timers.
    pub fn cancel_all(&mut self)
        ensures
            final(self)@ == Set::<T>::empty(),
            final(self).order() == Seq::<T>::empty(),
    {
        self.0 = Vec::new();
        proof {
            assert(self.0@.to_set() =~= Set::<T>::empty());
        }
    }

    /// The currently set timers, in the order in which they were first set.
    pub fn iter(&self) -> (r: &[T])
        ensures
            r@ == self.order(),
            r@.to_set() == self@,
            exact_eq::<T>() ==> r@.no_duplicates(),
    {
        proof {
            use_type_invariant(self);
        }
        self.0.as_slice()
    }
}

impl<T: Clone + Hash + Eq> Clone for Timers<T> {
    /// Sets a clone of each timer, in order.
    fn clone(&self) -> (r: Self)
        ensures
            exact_eq::<T>() && exact_clone::<T>() ==> r@ == self@,
    {
        proof {
            use_type_invariant(self);
        }
        let mut r = Timers::new();
        let mut i: usize = 0;
        while i < self.0.len()
            invariant
                i <= self.0@.len(),
                exact_eq::<T>() && exact_clone::<T>() ==> r@ == self.0@.take(i as int).to_set(),
            decreases self.0@.len() - i,
        {
            let t = clone_exact(&self.0[i]);
            r.set(t);
            proof {
                if exact_eq::<T>() && exact_clone::<T>() {
                    assert(self.0@.take(i + 1) == self.0@.take(i as int).push(self.0@[i as int]));
                    self.0@.take(i as int).lemma_push_to_set_commute(self.0@[i as int]);
                }
            }
            i = i + 1;
        }
        proof {
            assert(self.0@.take(self.0@.len() as int) == self.0@);
        }
        r
    }
}

impl<T: Hash + Eq> Timers<T> {
    /// The numbers that the hash of the timers is made of: the hashes of the timers, in
    /// increasing order (so that the order in which they were set does not matter).
    pub fn digest(&self) -> (r: Vec<u64>)
        ensures
            r@.len() == self.order().len(),
            sorted(r@),
    {
        let mut hashes: Vec<u64> = Vec::new();
        let mut i: usize = 0;
        while i < self.0.len()
            invariant
                i <= self.0@.len(),
                hashes@.len() == i,
            decreases self.0@.len() - i,
        {
            hashes.push(hash_of(&self.0[i]));
            i = i + 1;
        }
        let ghost raw = hashes@;
        let r = sort_numbers(hashes);
        proof {
            vstd::seq_lib::to_multiset_len(raw);
            vstd::seq_lib::to_multiset_len(r@);
        }
        r
    }
}

impl<T: Hash + Eq> Hash for Timers<T> {
    /// Hashes the digest, so that equal sets of timers hash alike.
    fn hash<H: core::hash::Hasher>(&self, state: &mut H) {
        let d = self.digest();
        feed(&d, state);
    }
}

impl<T: Hash + Eq> Default for Timers<T> {
    /// An empty timer set.
    fn default() -> (r: Self)
        ensures
            r@ == Set::<T>::empty(),
    {
        Self::new()
    }
}

impl<T: Clone + Eq + Hash> Rewrite<Id> for Timers<T> {
    /// Timers hold no [`Id`]: the rewrite is a copy.
    open spec fn rewritten_as(&self, f: spec_fn(Id) -> Id, r: Self) -> bool {
        exact_eq::<T>() && exact_clone::<T>() ==> r@ == self@
    }

    fn rewrite<S: Mapping<Id>>(&self, plan: &RewritePlan<Id, S>) -> (r: Self)
        ensures
            exact_eq::<T>() && exact_clone::<T>() ==> r@ == self@,
    {
        self.clone()
    }
}

} // verus!
