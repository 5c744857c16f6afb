//! A map whose keys correspond one-to-one with the indices `0..len`.
//!
//! `DenseNatMap<K, V>` serves as a replacement for a `Vec<V>` indexed by `usize::from(K)`, adding
//! type safety: indexing by a key of another type is a type error. Keys convert to indices through
//! `usize: From<K>` and back through `K: From<usize>`; the contracts below hold for key types whose
//! conversions have a specification (`obeys_from_spec`), such as [`crate::actor::Id`].

use core::marker::PhantomData;
use vstd::prelude::*;
use vstd::std_specs::convert::{FromSpec, FromSpecImpl};

verus! {

/// A map optimized for cases where each key corresponds with a unique entry in the range
/// `0..self.len()` and vice versa.
#[derive(Debug, Eq, Hash, PartialEq)]
pub struct DenseNatMap<K, V> {
    values: Vec<V>,
    _key: PhantomData<K>,
}

impl<K, V> View for DenseNatMap<K, V> {
    type V = Seq<V>;

    /// The values in index order: the value for key `k` is at index `usize::from(k)`.
    closed spec fn view(&self) -> Seq<V> {
        self.values@
    }
}

/// The index that a key converts to.
pub open spec fn key_index<K>(key: K) -> int where usize: From<K> {
    <usize as FromSpec<K>>::from_spec(key) as int
}

/// Key conversion into indices has a specification.
pub open spec fn keys_convert<K>() -> bool where usize: From<K> {
    <usize as FromSpec<K>>::obeys_from_spec()
}

/// The values after inserting `v` at index `i`: appended when `i` is the length, replaced
/// otherwise.
pub open spec fn inserted<V>(s: Seq<V>, i: int, v: V) -> Seq<V> {
    if i == s.len() {
        s.push(v)
    } else {
        s.update(i, v)
    }
}

impl<K, V> DenseNatMap<K, V> {
    /// Constructs an empty `DenseNatMap`.
    pub fn new() -> (r: Self)
        ensures
            r@ == Seq::<V>::empty(),
    {
        DenseNatMap { values: Vec::new(), _key: PhantomData }
    }

    /// Accepts a key, and returns [`None`] if invalid, otherwise [`Some`]`(value)`.
    pub fn get(&self, key: K) -> (r: Option<&V>)
        where
            usize: From<K>,
        ensures
            keys_convert::<K>() ==> (r is Some <==> 0 <= key_index(key) < self@.len()),
            keys_convert::<K>() && r is Some ==> *r.unwrap() == self@[key_index(key)],
    {
        let index = usize::from(key);
        if index < self.values.len() {
            Some(&self.values[index])
        } else {
            None
        }
    }

    /// Inserts a key-value pair and returns [`None`] if no value was previously associated,
    /// otherwise [`Some`]`(previous_value)`. The key must either overwrite an existing entry or
    /// extend the map by one (its index is at most the length).
    pub fn insert(&mut self, key: K, value: V) -> (r: Option<V>)
        where
            usize: From<K>,
        requires
            keys_convert::<K>(),
            key_index(key) <= old(self)@.len(),
        ensures
            final(self)@ == inserted(old(self)@, key_index(key), value),
            key_index(key) == old(self)@.len() ==> r is None,
            key_index(key) < old(self)@.len() ==> r == Some(old(self)@[key_index(key)]),
    {
        let index = usize::from(key);
        if index == self.values.len() {
            self.values.push(value);
            return None;
        }
        let mut value = value;
        self.values.set_and_swap(index, &mut value);
        Some(value)
    }

    /// The pairs of the map in index order, with values borrowed.
    ///
    /// See also [`DenseNatMap::values`].
    pub fn iter(&self) -> (r: Vec<(K, &V)>)
        where
            K: From<usize>,
        ensures
            r@.len() == self@.len(),
            forall|i: int|
                0 <= i < r@.len() ==> *(#[trigger] r@[i]).1 == self@[i] && (
                <K as FromSpec<usize>>::obeys_from_spec() ==> r@[i].0 == <K as FromSpec<
                    usize,
                >>::from_spec(i as usize)),
    {
        let mut out: Vec<(K, &V)> = Vec::new();
        let mut i: usize = 0;
        while i < self.values.len()
            invariant
                i <= self@.len(),
                out@.len() == i,
                forall|j: int|
                    0 <= j < i ==> *(#[trigger] out@[j]).1 == self@[j] && (
                    <K as FromSpec<usize>>::obeys_from_spec() ==> out@[j].0 == <K as FromSpec<
                        usize,
                    >>::from_spec(j as usize)),
            decreases self@.len() - i,
        {
            out.push((K::from(i), &self.values[i]));
            i = i + 1;
        }
        out
    }

    /// Returns the number of elements in the map.
    pub fn len(&self) -> (r: usize)
        ensures
            r == self@.len(),
    {
        self.values.len()
    }

    /// The values of the map in index order.
    ///
    /// See also [`DenseNatMap::iter`].
    pub fn values(&self) -> (r: &[V])
        ensures
            r@ == self@,
    {
        self.values.as_slice()
    }

    /// Moves the pairs out of the map, in index order.
    pub fn into_pairs(self) -> (r: Vec<(K, V)>)
        where
            K: From<usize>,
        ensures
            r@.len() == self@.len(),
            forall|i: int|
                0 <= i < r@.len() ==> (#[trigger] r@[i]).1 == self@[i] && (
                <K as FromSpec<usize>>::obeys_from_spec() ==> r@[i].0 == <K as FromSpec<
                    usize,
                >>::from_spec(i as usize)),
    {
        let ghost orig = self@;
        let total = self.values.len();
        let mut values = self.values;
        let mut out: Vec<(K, V)> = Vec::new();
        let mut rev: Vec<V> = Vec::new();
        while values.len() > 0
            invariant
                orig.len() == total,
                rev@.len() + values@.len() == orig.len(),
                forall|j: int| 0 <= j < values@.len() ==> values@[j] == orig[j],
                forall|j: int|
                    0 <= j < rev@.len() ==> #[trigger] rev@[j] == orig[orig.len() - 1 - j],
            decreases values@.len(),
        {
            let v = values.pop().unwrap();
            rev.push(v);
        }
        let mut i: usize = 0;
        while rev.len() > 0
            invariant
                orig.len() == total,
                i + rev@.len() == orig.len(),
                forall|j: int|
                    0 <= j < rev@.len() ==> #[trigger] rev@[j] == orig[orig.len() - 1 - j],
                out@.len() == i,
                forall|j: int|
                    0 <= j < i ==> (#[trigger] out@[j]).1 == orig[j] && (
                    <K as FromSpec<usize>>::obeys_from_spec() ==> out@[j].0 == <K as FromSpec<
                        usize,
                    >>::from_spec(j as usize)),
            decreases rev@.len(),
        {
            let v = rev.pop().unwrap();
            out.push((K::from(i), v));
            i = i + 1;
        }
        out
    }

    /// Builds a map from pairs whose key indices are exactly `0..pairs.len()` in some order, as
    /// collecting such pairs does.
    pub fn from_pairs(pairs: Vec<(K, V)>) -> (r: Self)
        where
            usize: From<K>,
        requires
            keys_convert::<K>(),
            forall|i: int|
                0 <= i < pairs@.len() ==> 0 <= key_index((#[trigger] pairs@[i]).0) < pairs@.len(),
            forall|i: int, j: int|
                0 <= i < j < pairs@.len() ==> key_index((#[trigger] pairs@[i]).0) != key_index(
                    (#[trigger] pairs@[j]).0,
                ),
        ensures
            r@.len() == pairs@.len(),
            forall|i: int| 0 <= i < pairs@.len() ==> r@[key_index((#[trigger] pairs@[i]).0)] == pairs@[i].1,
    {
        let n = pairs.len();
        let ghost orig = pairs@;
        let mut slots: Vec<Option<V>> = Vec::new();
        while slots.len() < n
            invariant
                slots@.len() <= n,
                forall|j: int| 0 <= j < slots@.len() ==> slots@[j] is None,
            decreases n - slots@.len(),
        {
            slots.push(None);
        }
        let mut pairs = pairs;
        while pairs.len() > 0
            invariant
                keys_convert::<K>(),
                slots@.len() == n,
                n == orig.len(),
                pairs@.len() <= n,
                forall|j: int| 0 <= j < pairs@.len() ==> pairs@[j] == orig[j],
                forall|i: int| 0 <= i < orig.len() ==> 0 <= key_index((#[trigger] orig[i]).0) < n,
                forall|i: int, j: int|
                    0 <= i < j < orig.len() ==> key_index((#[trigger] orig[i]).0) != key_index(
                        (#[trigger] orig[j]).0,
                    ),
                forall|i: int|
                    pairs@.len() <= i < orig.len() ==> slots@[key_index((#[trigger] orig[i]).0)]
                        == Some(orig[i].1),
                forall|i: int|
                    0 <= i < pairs@.len() ==> slots@[key_index((#[trigger] orig[i]).0)] is None,
            decreases pairs@.len(),
        {
            let ghost last = pairs@.len() - 1;
            let (k, v) = pairs.pop().unwrap();
            assert(k == orig[last].0 && v == orig[last].1);
            assert(0 <= key_index(orig[last].0) < n);
            let index = usize::from(k);
            assert(index == key_index(k));
            slots.set(index, Some(v));
            proof {
                assert forall|i: int| 0 <= i < last implies slots@[key_index((#[trigger] orig[i]).0)] is None by {
                    assert(key_index(orig[i].0) != key_index(orig[last].0));
                }
            }
        }
        proof {
            assert forall|s: int| 0 <= s < n implies (#[trigger] slots@[s]) is Some by {
                let keys = Seq::new(n as nat, |i: int| key_index(orig[i].0));
                covers_all_indices(keys, n as int, s);
                let i = choose|i: int| 0 <= i < n && keys[i] == s;
                assert(slots@[key_index(orig[i].0)] == Some(orig[i].1));
            }
        }
        let mut values: Vec<V> = Vec::new();
        let mut rev: Vec<V> = Vec::new();
        let ghost full = slots@;
        while slots.len() > 0
            invariant
                rev@.len() + slots@.len() == n,
                full.len() == n,
                forall|j: int| 0 <= j < slots@.len() ==> slots@[j] == full[j],
                forall|j: int| 0 <= j < n ==> (#[trigger] full[j]) is Some,
                forall|j: int|
                    0 <= j < rev@.len() ==> Some(#[trigger] rev@[j]) == full[n - 1 - j],
            decreases slots@.len(),
        {
            assert(full[slots@.len() - 1] is Some);
            let slot = slots.pop().unwrap();
            match slot {
                Some(v) => rev.push(v),
                None => {
                    assert(false);
                },
            }
        }
        while rev.len() > 0
            invariant
                values@.len() + rev@.len() == n,
                forall|j: int|
                    0 <= j < rev@.len() ==> Some(#[trigger] rev@[j]) == full[n - 1 - j],
                forall|j: int| 0 <= j < values@.len() ==> Some(#[trigger] values@[j]) == full[j],
            decreases rev@.len(),
        {
            let v = rev.pop().unwrap();
            values.push(v);
        }
        proof {
            assert forall|i: int| 0 <= i < orig.len() implies values@[key_index(
                (#[trigger] orig[i]).0,
            )] == orig[i].1 by {
                let s = key_index(orig[i].0);
                assert(Some(values@[s]) == full[s]);
            }
        }
        DenseNatMap { values, _key: PhantomData }
    }
}

/// `n` distinct integers in `0..n` cover every index in `0..n`.
pub proof fn covers_all_indices(keys: Seq<int>, n: int, s: int)
    requires
        keys.len() == n,
        forall|i: int| 0 <= i < n ==> 0 <= #[trigger] keys[i] < n,
        forall|i: int, j: int| 0 <= i < j < n ==> #[trigger] keys[i] != #[trigger] keys[j],
        0 <= s < n,
    ensures
        exists|i: int| 0 <= i < n && keys[i] == s,
{
    if !(exists|i: int| 0 <= i < n && keys[i] == s) {
        // The keys are then `n` distinct values among the `n - 1` values of `0..n` other than
        // `s`, which the pigeonhole principle rules out.
        let set = keys.to_set();
        let range = Set::new(|x: int| 0 <= x < n && x != s);
        keys.unique_seq_to_set();
        assert(set.subset_of(range));
        vstd::set_lib::lemma_int_range(0, n);
        assert(range =~= vstd::set_lib::set_int_range(0, n).remove(s));
        vstd::set_lib::lemma_len_subset(set, range);
    }
}

impl<K, V: Clone> Clone for DenseNatMap<K, V> {
    fn clone(&self) -> (r: Self)
        ensures
            r@.len() == self@.len(),
            forall|i: int| 0 <= i < self@.len() ==> cloned::<V>(self@[i], #[trigger] r@[i]),
    {
        DenseNatMap { values: self.values.clone(), _key: PhantomData }
    }
}

impl<K, V> From<Vec<V>> for DenseNatMap<K, V> {
    fn from(values: Vec<V>) -> (r: Self) {
        DenseNatMap { values, _key: PhantomData }
    }
}

impl<K, V> FromSpecImpl<Vec<V>> for DenseNatMap<K, V> {
    open spec fn obeys_from_spec() -> bool {
        true
    }

    closed spec fn from_spec(values: Vec<V>) -> Self {
        DenseNatMap { values, _key: PhantomData }
    }
}

/// A map built from a vector holds the vector's values, in order.
pub proof fn from_vec_values<K, V>(values: Vec<V>)
    ensures
        <DenseNatMap<K, V> as FromSpec<Vec<V>>>::from_spec(values)@ == values@,
{
}

/// Reading back a key after inserting it gives the inserted value, and other keys keep their
/// values.
pub proof fn insert_then_get<V>(s: Seq<V>, i: int, v: V, j: int)
    requires
        0 <= i <= s.len(),
        0 <= j < s.len() || j == i,
    ensures
        inserted(s, i, v)[i] == v,
        inserted(s, i, v).len() == if i == s.len() { s.len() + 1 } else { s.len() },
        j != i ==> inserted(s, i, v)[j] == s[j],
{
}

} // verus!
