//! A snapshot of a model-checked actor system, and the random choices pending for an actor.

use crate::actor::network::Network;
use crate::actor::timers::Timers;
use crate::actor::{Actor, Id};
use crate::checker::rewrite::Rewrite;
use crate::checker::rewrite_plan::{Mapping, RewritePlan};
use crate::semantics::{clone_exact, exact_clone, exact_eq};
use crate::util::digest::{feed, hash_of, sort_numbers, sorted};
use core::hash::Hash;
use std::sync::Arc;
use vstd::prelude::*;

verus! {

/// Represents a set of random choices for one actor: for each key given to
/// [`crate::actor::Out::choose_random`], the possible choices to select from.
///
/// The keys are kept in the order in which they were first inserted.
#[derive(Debug)]
pub struct RandomChoices<Random> {
    entries: Vec<(String, Vec<Random>)>,
}

/// The keys of a list of entries, as text.
pub open spec fn keys_of<Random>(s: Seq<(String, Vec<Random>)>) -> Seq<Seq<char>> {
    s.map_values(|e: (String, Vec<Random>)| e.0@)
}

impl<Random> View for RandomChoices<Random> {
    type V = Map<Seq<char>, Seq<Random>>;

    /// The choices, by key.
    closed spec fn view(&self) -> Map<Seq<char>, Seq<Random>> {
        Map::new(
            |k: Seq<char>| keys_of(self.entries@).contains(k),
            |k: Seq<char>| self.entries@[keys_of(self.entries@).index_of(k)].1@,
        )
    }
}

impl<Random> RandomChoices<Random> {
    #[verifier::type_invariant]
    spec fn keys_distinct(self) -> bool {
        keys_of(self.entries@).no_duplicates()
    }

    /// The keys and their choices in the order in which the keys were first inserted.
    pub closed spec fn entry_list(&self) -> Seq<(String, Vec<Random>)> {
        self.entries@
    }

    /// The keys in the order in which they were first inserted.
    pub closed spec fn key_order(&self) -> Seq<Seq<char>> {
        keys_of(self.entries@)
    }

    /// No choices.
    pub fn new() -> (r: Self)
        ensures
            r@ == Map::<Seq<char>, Seq<Random>>::empty(),
            r.key_order() == Seq::<Seq<char>>::empty(),
    {
        let r = RandomChoices { entries: Vec::new() };
        proof {
            assert(keys_of(r.entries@) =~= Seq::<Seq<char>>::empty());
            assert(r@ =~= Map::<Seq<char>, Seq<Random>>::empty());
        }
        r
    }

    /// The position of the entry with key `key`.
    fn position(&self, key: &String) -> (r: Option<usize>)
        ensures
            match r {
                Some(i) => i < self.entries@.len() && self.entries@[i as int].0@ == key@,
                None => !keys_of(self.entries@).contains(key@),
            },
    {
        let mut i: usize = 0;
        while i < self.entries.len()
            invariant
                i <= self.entries@.len(),
                forall|j: int| 0 <= j < i ==> self.entries@[j].0@ != key@,
            decreases self.entries@.len() - i,
        {
            if self.entries[i].0 == *key {
                return Some(i);
            }
            i = i + 1;
        }
        proof {
            assert forall|j: int| 0 <= j < keys_of(self.entries@).len() implies keys_of(self.entries@)[j] != key@ by {
                assert(keys_of(self.entries@)[j] == self.entries@[j].0@);
            }
        }
        None
    }

    /// Sets the choices for `key`, replacing any choices it had.
    pub fn insert(&mut self, key: String, choices: Vec<Random>)
        ensures
            final(self)@ == old(self)@.insert(key@, choices@),
    {
        proof {
            use_type_invariant(&*self);
        }
        let ghost before = self.entries@;
        let ghost k = key@;
        let ghost c = choices@;
        let mut v: Vec<(String, Vec<Random>)> = Vec::new();
        std::mem::swap(&mut v, &mut self.entries);
        let found = {
            let tmp = RandomChoices { entries: v };
            let p = tmp.position(&key);
            v = tmp.entries;
            p
        };
        match found {
            Some(i) => {
                v.set(i, (key, choices));
                proof {
                    assert(keys_of(v@) =~= keys_of(before));
                    assert forall|a: int| 0 <= a < v@.len() && a != i implies v@[a] == before[a] by {}
                }
            },
            None => {
                v.push((key, choices));
                proof {
                    assert(keys_of(v@) =~= keys_of(before).push(k));
                }
            },
        }
        self.entries = v;
        proof {
            let ks = keys_of(before);
            let ks2 = keys_of(self.entries@);
            assert forall|q: Seq<char>| #[trigger] self@.contains_key(q) == old(self)@.insert(k, c).contains_key(q) by {
                if q == k {
                    if let Some(i) = found {
                        assert(ks2[i as int] == q);
                    } else {
                        assert(ks2[before.len() as int] == q);
                    }
                }
                if ks2.contains(q) && q != k {
                    let j = choose|j: int| 0 <= j < ks2.len() && ks2[j] == q;
                    assert(ks[j] == q);
                }
                if ks.contains(q) {
                    let j = choose|j: int| 0 <= j < ks.len() && ks[j] == q;
                    assert(ks2[j] == q);
                }
            }
            assert forall|q: Seq<char>| #[trigger] self@.contains_key(q) implies self@[q] == old(self)@.insert(k, c)[q] by {
                let j2 = ks2.index_of(q);
                assert(ks2.contains(q));
                if q == k {
                    if let Some(i) = found {
                        assert(ks2[i as int] == q);
                    } else {
                        assert(ks2[before.len() as int] == q);
                    }
                } else {
                    let j = ks.index_of(q);
                    assert(ks.contains(q));
                    assert(ks2[j] == q);
                    assert(self.entries@[j] == before[j]);
                }
            }
            assert(self@ =~= old(self)@.insert(k, c));
        }
    }

    /// Removes the choices for `key`, returning them if there were any.
    pub fn remove(&mut self, key: &String) -> (r: Option<Vec<Random>>)
        ensures
            final(self)@ == old(self)@.remove(key@),
            match r {
                Some(v) => old(self)@.contains_key(key@) && v@ == old(self)@[key@],
                None => !old(self)@.contains_key(key@),
            },
    {
        proof {
            use_type_invariant(&*self);
        }
        let ghost before = self.entries@;
        let ghost k = key@;
        match self.position(key) {
            Some(i) => {
                let mut v: Vec<(String, Vec<Random>)> = Vec::new();
                std::mem::swap(&mut v, &mut self.entries);
                let (_, choices) = v.remove(i);
                proof {
                    let ks = keys_of(before);
                    let ks2 = keys_of(v@);
                    assert(ks2 =~= ks.remove(i as int));
                    assert forall|a: int, b: int| 0 <= a < b < ks2.len() implies ks2[a] != ks2[b] by {
                        let a2 = if a < i { a } else { a + 1 };
                        let b2 = if b < i { b } else { b + 1 };
                        assert(ks2[a] == ks[a2] && ks2[b] == ks[b2]);
                    }
                }
                self.entries = v;
                proof {
                    let ks = keys_of(before);
                    let ks2 = keys_of(self.entries@);
                    assert(ks2 =~= ks.remove(i as int));
                    assert(ks[i as int] == k);
                    assert(ks.contains(k));
                    assert(ks.index_of(k) == i) by {
                        let j = ks.index_of(k);
                        if j != i {
                            assert(ks[j] == ks[i as int]);
                        }
                    }
                    assert forall|a: int, b: int| 0 <= a < b < ks2.len() implies ks2[a] != ks2[b] by {
                        let a2 = if a < i { a } else { a + 1 };
                        let b2 = if b < i { b } else { b + 1 };
                        assert(ks2[a] == ks[a2] && ks2[b] == ks[b2]);
                    }
                    assert forall|q: Seq<char>| #[trigger] self@.contains_key(q) == old(self)@.remove(k).contains_key(q) by {
                        if ks2.contains(q) {
                            let j = choose|j: int| 0 <= j < ks2.len() && ks2[j] == q;
                            let j2 = if j < i { j } else { j + 1 };
                            assert(ks[j2] == q);
                            assert(j2 != i);
                        }
                        if ks.contains(q) && q != k {
                            let j = choose|j: int| 0 <= j < ks.len() && ks[j] == q;
                            assert(j != i);
                            let j2 = if j < i { j } else { j - 1 };
                            assert(ks2[j2] == q);
                        }
                    }
                    assert forall|q: Seq<char>| #[trigger] self@.contains_key(q) implies self@[q] == old(self)@.remove(k)[q] by {
                        assert(ks2.contains(q));
                        let j = ks2.index_of(q);
                        let j2 = if j < i { j } else { j + 1 };
                        assert(ks[j2] == q);
                        assert(ks.contains(q));
                        assert(ks.index_of(q) == j2) by {
                            let j3 = ks.index_of(q);
                            if j3 != j2 {
                                assert(ks[j3] == ks[j2]);
                            }
                        }
                    }
                    assert(self@ =~= old(self)@.remove(k));
                }
                Some(choices)
            },
            None => {
                proof {
                    assert(self@ =~= old(self)@.remove(k));
                }
                None
            },
        }
    }

    /// Removes all choices.
    pub fn clear(&mut self)
        ensures
            final(self)@ == Map::<Seq<char>, Seq<Random>>::empty(),
    {
        self.entries = Vec::new();
        proof {
            assert(keys_of(self.entries@) =~= Seq::<Seq<char>>::empty());
            assert(self@ =~= Map::<Seq<char>, Seq<Random>>::empty());
        }
    }

    /// The keys and their choices, in the order in which the keys were first inserted.
    pub fn entries(&self) -> (r: &[(String, Vec<Random>)])
        ensures
            r@ == self.entry_list(),
            keys_of(r@) == self.key_order(),
            forall|i: int| 0 <= i < r@.len() ==> #[trigger] r@[i].1@ == self@[r@[i].0@],
            forall|k: Seq<char>| self@.contains_key(k) <==> self.key_order().contains(k),
    {
        proof {
            use_type_invariant(self);
            let ks = keys_of(self.entries@);
            assert forall|i: int| 0 <= i < self.entries@.len() implies #[trigger] self.entries@[i].1@ == self@[self.entries@[i].0@] by {
                assert(ks[i] == self.entries@[i].0@);
                assert(ks.contains(ks[i]));
                let j = ks.index_of(ks[i]);
                if j != i {
                    assert(ks[j] == ks[i]);
                }
            }
        }
        self.entries.as_slice()
    }
}

impl<Random: Clone> Clone for RandomChoices<Random> {
    /// The same keys, in the same order, each with a clone of its choices.
    fn clone(&self) -> (r: Self)
        ensures
            r@.dom() == self@.dom(),
            r.key_order() == self.key_order(),
            exact_clone::<Random>() ==> r@ == self@,
    {
        proof {
            use_type_invariant(self);
        }
        let mut v: Vec<(String, Vec<Random>)> = Vec::new();
        let mut i: usize = 0;
        while i < self.entries.len()
            invariant
                i <= self.entries@.len(),
                keys_of(self.entries@).no_duplicates(),
                v@.len() == i,
                forall|j: int| 0 <= j < i ==> (#[trigger] v@[j]).0@ == self.entries@[j].0@,
                exact_clone::<Random>() ==> forall|j: int|
                    0 <= j < i ==> (#[trigger] v@[j]).1@ == self.entries@[j].1@,
            decreases self.entries@.len() - i,
        {
            let k = self.entries[i].0.clone();
            let c = clone_all(&self.entries[i].1);
            v.push((k, c));
            i = i + 1;
        }
        proof {
            assert(keys_of(v@) =~= keys_of(self.entries@));
        }
        let r = RandomChoices { entries: v };
        proof {
            assert(r@.dom() =~= self@.dom());
            if exact_clone::<Random>() {
                let ks = keys_of(self.entries@);
                assert forall|q: Seq<char>| #[trigger] r@.contains_key(q) implies r@[q] == self@[q] by {
                    let j = ks.index_of(q);
                    assert(keys_of(v@).index_of(q) == j);
                    assert(v@[j].1@ == self.entries@[j].1@);
                }
                assert(r@ =~= self@);
            }
        }
        r
    }
}

/// A clone of each element, in order.
fn clone_all<T: Clone>(v: &Vec<T>) -> (r: Vec<T>)
    ensures
        r@.len() == v@.len(),
        exact_clone::<T>() ==> r@ == v@,
{
    let mut r: Vec<T> = Vec::new();
    let mut i: usize = 0;
    while i < v.len()
        invariant
            i <= v@.len(),
            r@.len() == i,
            exact_clone::<T>() ==> forall|j: int| 0 <= j < i ==> #[trigger] r@[j] == v@[j],
        decreases v@.len() - i,
    {
        r.push(clone_exact(&v[i]));
        i = i + 1;
    }
    proof {
        if exact_clone::<T>() {
            assert(r@ =~= v@);
        }
    }
    r
}

/// std's `Arc::clone`: another pointer to the same allocation, so the same value.
#[verifier::external_body]
fn share<T>(a: &Arc<T>) -> (r: Arc<T>)
    ensures
        r == *a,
{
    Arc::clone(a)
}

/// Represents a snapshot in time for the entire actor system.
pub struct ActorModelState<A: Actor, H = ()> {
    pub actor_states: Vec<Arc<A::State>>,
    pub network: Network<A::Msg>,
    pub timers_set: Vec<Timers<A::Timer>>,
    pub random_choices: Vec<RandomChoices<A::Random>>,
    pub crashed: Vec<bool>,
    pub history: H,
    pub actor_storages: Vec<Option<A::Storage>>,
}

/// Whether cloning and comparing the values an actor system holds is exact: then a clone of a
/// snapshot holds the same values.
pub open spec fn clones_exactly<A: Actor, H: Clone>() -> bool {
    &&& exact_clone::<A::Msg>()
    &&& exact_eq::<A::Msg>()
    &&& exact_clone::<A::Timer>()
    &&& exact_eq::<A::Timer>()
    &&& exact_clone::<A::Random>()
    &&& exact_clone::<A::Storage>()
    &&& exact_clone::<H>()
}

/// Two snapshots hold the same values.
pub open spec fn same_snapshot<A: Actor, H>(a: &ActorModelState<A, H>, b: &ActorModelState<A, H>) -> bool {
    &&& a.actor_states@ == b.actor_states@
    &&& a.network.kind_of() == b.network.kind_of()
    &&& a.network.sent() == b.network.sent()
    &&& a.timers_set@.len() == b.timers_set@.len()
    &&& forall|i: int| 0 <= i < a.timers_set@.len() ==> #[trigger] a.timers_set@[i]@ == b.timers_set@[i]@
    &&& a.random_choices@.len() == b.random_choices@.len()
    &&& forall|i: int| 0 <= i < a.random_choices@.len() ==> #[trigger] a.random_choices@[i]@ == b.random_choices@[i]@
    &&& a.crashed@ == b.crashed@
    &&& a.history == b.history
    &&& a.actor_storages@ == b.actor_storages@
}

impl<A: Actor, H: Clone> Clone for ActorModelState<A, H> {
    /// A snapshot sharing the actor states and holding clones of the rest.
    fn clone(&self) -> (r: Self)
        ensures
            r.actor_states@ == self.actor_states@,
            r.crashed@ == self.crashed@,
            r.network.kind_of() == self.network.kind_of(),
            r.timers_set@.len() == self.timers_set@.len(),
            r.random_choices@.len() == self.random_choices@.len(),
            r.actor_storages@.len() == self.actor_storages@.len(),
            clones_exactly::<A, H>() ==> same_snapshot(&r, self),
    {
        let mut actor_states: Vec<Arc<A::State>> = Vec::new();
        let mut i: usize = 0;
        while i < self.actor_states.len()
            invariant
                i <= self.actor_states@.len(),
                actor_states@ == self.actor_states@.take(i as int),
            decreases self.actor_states@.len() - i,
        {
            actor_states.push(share(&self.actor_states[i]));
            proof {
                assert(self.actor_states@.take(i + 1) == self.actor_states@.take(i as int).push(self.actor_states@[i as int]));
            }
            i = i + 1;
        }
        proof {
            assert(self.actor_states@.take(self.actor_states@.len() as int) == self.actor_states@);
        }
        let mut timers_set: Vec<Timers<A::Timer>> = Vec::new();
        let mut i: usize = 0;
        while i < self.timers_set.len()
            invariant
                i <= self.timers_set@.len(),
                timers_set@.len() == i,
                exact_eq::<A::Timer>() && exact_clone::<A::Timer>() ==> forall|j: int|
                    0 <= j < i ==> #[trigger] timers_set@[j]@ == self.timers_set@[j]@,
            decreases self.timers_set@.len() - i,
        {
            timers_set.push(self.timers_set[i].clone());
            i = i + 1;
        }
        let mut random_choices: Vec<RandomChoices<A::Random>> = Vec::new();
        let mut i: usize = 0;
        while i < self.random_choices.len()
            invariant
                i <= self.random_choices@.len(),
                random_choices@.len() == i,
                exact_clone::<A::Random>() ==> forall|j: int|
                    0 <= j < i ==> #[trigger] random_choices@[j]@ == self.random_choices@[j]@,
            decreases self.random_choices@.len() - i,
        {
            random_choices.push(self.random_choices[i].clone());
            i = i + 1;
        }
        let mut actor_storages: Vec<Option<A::Storage>> = Vec::new();
        let mut i: usize = 0;
        while i < self.actor_storages.len()
            invariant
                i <= self.actor_storages@.len(),
                actor_storages@.len() == i,
                exact_clone::<A::Storage>() ==> forall|j: int|
                    0 <= j < i ==> #[trigger] actor_storages@[j] == self.actor_storages@[j],
            decreases self.actor_storages@.len() - i,
        {
            let c = match &self.actor_storages[i] {
                Some(s) => Some(clone_exact(s)),
                None => None,
            };
            actor_storages.push(c);
            i = i + 1;
        }
        let mut crashed: Vec<bool> = Vec::new();
        let mut i: usize = 0;
        while i < self.crashed.len()
            invariant
                i <= self.crashed@.len(),
                crashed@ == self.crashed@.take(i as int),
            decreases self.crashed@.len() - i,
        {
            crashed.push(self.crashed[i]);
            proof {
                assert(self.crashed@.take(i + 1) == self.crashed@.take(i as int).push(self.crashed@[i as int]));
            }
            i = i + 1;
        }
        proof {
            assert(self.crashed@.take(self.crashed@.len() as int) == self.crashed@);
            if exact_clone::<A::Storage>() {
                assert(actor_storages@ =~= self.actor_storages@);
            }
        }
        ActorModelState {
            actor_states,
            network: self.network.clone(),
            timers_set,
            random_choices,
            crashed,
            history: clone_exact(&self.history),
            actor_storages,
        }
    }
}

impl<Random: Hash> RandomChoices<Random> {
    /// The numbers that the hash of the choices is made of: the hashes of the keys with their
    /// choices, in increasing order (so that the order of the keys does not matter).
    pub fn digest(&self) -> (r: Vec<u64>)
        ensures
            r@.len() == self.key_order().len(),
            sorted(r@),
    {
        let mut hashes: Vec<u64> = Vec::new();
        let mut i: usize = 0;
        while i < self.entries.len()
            invariant
                i <= self.entries@.len(),
                hashes@.len() == i,
            decreases self.entries@.len() - i,
        {
            hashes.push(hash_of(&self.entries[i]));
            i = i + 1;
        }
        let ghost raw = hashes@;
        let r = sort_numbers(hashes);
        proof {
            vstd::seq_lib::to_multiset_len(raw);
            vstd::seq_lib::to_multiset_len(r@);
        }
        r
    }
}

impl<Random: Hash> Hash for RandomChoices<Random> {
    /// Hashes the digest, so that equal choices hash alike.
    fn hash<H: core::hash::Hasher>(&self, state: &mut H) {
        let d = self.digest();
        feed(&d, state);
    }
}

impl<A: Actor, H: Hash> Hash for ActorModelState<A, H> {
    /// Hashes the actor states, the history, the timers, the random choices, the network, the
    /// crash flags and the storages, in that order.
    fn hash<S: core::hash::Hasher>(&self, state: &mut S) {
        feed(&self.actor_states, state);
        feed(&self.history, state);
        feed(&self.timers_set, state);
        feed(&self.random_choices, state);
        feed(&self.network, state);
        feed(&self.crashed, state);
        feed(&self.actor_storages, state);
    }
}

impl<Random> Default for RandomChoices<Random> {
    /// No choices.
    fn default() -> (r: Self)
        ensures
            r@ == Map::<Seq<char>, Seq<Random>>::empty(),
    {
        Self::new()
    }
}

} // verus!
