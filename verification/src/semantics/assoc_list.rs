//! Association lists: vectors of key-value pairs read as maps.

use crate::semantics::exact_eq;
use core::cmp::Ordering;
use vstd::prelude::*;
use vstd::std_specs::cmp::PartialOrdSpec;

verus! {

/// Some pair of `s` has key `k`.
pub open spec fn has_key<K, X>(s: Seq<(K, X)>, k: K) -> bool {
    exists|i: int| 0 <= i < s.len() && (#[trigger] s[i]).0 == k
}

/// No two pairs of `s` have the same key.
pub open spec fn distinct_keys<K, X>(s: Seq<(K, X)>) -> bool {
    forall|i: int, j: int| 0 <= i < j < s.len() ==> (#[trigger] s[i]).0 != (#[trigger] s[j]).0
}

/// The map that an association list denotes: each key to the value paired with it.
pub open spec fn assoc_map<K, X>(s: Seq<(K, X)>) -> Map<K, X> {
    Map::new(
        |k: K| has_key(s, k),
        |k: K| s[choose|i: int| 0 <= i < s.len() && (#[trigger] s[i]).0 == k].1,
    )
}

/// In a list with distinct keys, the map sends each pair's key to its value.
pub proof fn lemma_assoc_index<K, X>(s: Seq<(K, X)>, i: int)
    requires
        distinct_keys(s),
        0 <= i < s.len(),
    ensures
        assoc_map(s).contains_key(s[i].0),
        assoc_map(s)[s[i].0] == s[i].1,
{
    let k = s[i].0;
    assert(has_key(s, k));
    let j = choose|j: int| 0 <= j < s.len() && (#[trigger] s[j]).0 == k;
    if j != i {
        if j < i {
            assert(s[j].0 != s[i].0);
        } else {
            assert(s[i].0 != s[j].0);
        }
    }
}

/// Two lists with distinct keys that have the same keys and values at every index denote the
/// same map; a helper to compare maps index by index.
pub proof fn lemma_assoc_same<K, X>(s: Seq<(K, X)>, m: Map<K, X>)
    requires
        distinct_keys(s),
        forall|k: K| #[trigger] m.contains_key(k) <==> has_key(s, k),
        forall|i: int| 0 <= i < s.len() ==> m[(#[trigger] s[i]).0] == s[i].1,
    ensures
        assoc_map(s) == m,
{
    assert forall|k: K| #[trigger] assoc_map(s).contains_key(k) implies assoc_map(s)[k] == m[k] by {
        let i = choose|i: int| 0 <= i < s.len() && (#[trigger] s[i]).0 == k;
        lemma_assoc_index(s, i);
    }
    assert(assoc_map(s) =~= m);
}

/// Inserting a pair with a new key anywhere in the list adds that key to the map.
pub proof fn lemma_assoc_insert<K, X>(s: Seq<(K, X)>, p: int, k: K, x: X)
    requires
        distinct_keys(s),
        !has_key(s, k),
        0 <= p <= s.len(),
    ensures
        distinct_keys(s.insert(p, (k, x))),
        has_key(s.insert(p, (k, x)), k),
        assoc_map(s.insert(p, (k, x))) == assoc_map(s).insert(k, x),
{
    let t = s.insert(p, (k, x));
    assert forall|i: int, j: int| 0 <= i < j < t.len() implies (#[trigger] t[i]).0 != (
    #[trigger] t[j]).0 by {
        if i == p {
            assert(t[j] == s[j - 1]);
        } else if j == p {
            assert(t[i] == s[i]);
        } else {
            let si = if i < p { i } else { i - 1 };
            let sj = if j < p { j } else { j - 1 };
            assert(t[i] == s[si] && t[j] == s[sj]);
        }
    }
    assert(t[p].0 == k);
    let m = assoc_map(s).insert(k, x);
    assert forall|key: K| #[trigger] m.contains_key(key) <==> has_key(t, key) by {
        if has_key(s, key) {
            let i = choose|i: int| 0 <= i < s.len() && (#[trigger] s[i]).0 == key;
            let ti = if i < p { i } else { i + 1 };
            assert(t[ti] == s[i]);
        }
        if has_key(t, key) && key != k {
            let i = choose|i: int| 0 <= i < t.len() && (#[trigger] t[i]).0 == key;
            let si = if i < p { i } else { i - 1 };
            assert(t[i] == s[si]);
        }
    }
    assert forall|i: int| 0 <= i < t.len() implies m[(#[trigger] t[i]).0] == t[i].1 by {
        if i != p {
            let si = if i < p { i } else { i - 1 };
            assert(t[i] == s[si]);
            lemma_assoc_index(s, si);
        }
    }
    lemma_assoc_same(t, m);
}

/// Replacing the value at an index keeps the keys and updates the map at that key.
pub proof fn lemma_assoc_update<K, X>(s: Seq<(K, X)>, i: int, x: X)
    requires
        distinct_keys(s),
        0 <= i < s.len(),
    ensures
        distinct_keys(s.update(i, (s[i].0, x))),
        assoc_map(s.update(i, (s[i].0, x))) == assoc_map(s).insert(s[i].0, x),
{
    let t = s.update(i, (s[i].0, x));
    assert forall|a: int, b: int| 0 <= a < b < t.len() implies (#[trigger] t[a]).0 != (
    #[trigger] t[b]).0 by {
        assert(t[a].0 == s[a].0 && t[b].0 == s[b].0);
    }
    let m = assoc_map(s).insert(s[i].0, x);
    assert forall|key: K| #[trigger] m.contains_key(key) <==> has_key(t, key) by {
        if has_key(s, key) {
            let j = choose|j: int| 0 <= j < s.len() && (#[trigger] s[j]).0 == key;
            assert(t[j].0 == key);
        }
        if has_key(t, key) {
            let j = choose|j: int| 0 <= j < t.len() && (#[trigger] t[j]).0 == key;
            assert(s[j].0 == key);
        }
    }
    assert forall|j: int| 0 <= j < t.len() implies m[(#[trigger] t[j]).0] == t[j].1 by {
        if j != i {
            lemma_assoc_index(s, j);
        }
    }
    lemma_assoc_same(t, m);
}

/// Removing the pair at an index removes its key from the map.
pub proof fn lemma_assoc_remove<K, X>(s: Seq<(K, X)>, i: int)
    requires
        distinct_keys(s),
        0 <= i < s.len(),
    ensures
        distinct_keys(s.remove(i)),
        !has_key(s.remove(i), s[i].0),
        assoc_map(s.remove(i)) == assoc_map(s).remove(s[i].0),
{
    let t = s.remove(i);
    let k = s[i].0;
    assert forall|a: int, b: int| 0 <= a < b < t.len() implies (#[trigger] t[a]).0 != (
    #[trigger] t[b]).0 by {
        let sa = if a < i { a } else { a + 1 };
        let sb = if b < i { b } else { b + 1 };
        assert(t[a] == s[sa] && t[b] == s[sb]);
    }
    if has_key(t, k) {
        let j = choose|j: int| 0 <= j < t.len() && (#[trigger] t[j]).0 == k;
        let sj = if j < i { j } else { j + 1 };
        assert(t[j] == s[sj]);
        if sj < i {
            assert(s[sj].0 != s[i].0);
        } else {
            assert(s[i].0 != s[sj].0);
        }
    }
    let m = assoc_map(s).remove(k);
    assert forall|key: K| #[trigger] m.contains_key(key) <==> has_key(t, key) by {
        if has_key(s, key) && key != k {
            let j = choose|j: int| 0 <= j < s.len() && (#[trigger] s[j]).0 == key;
            let tj = if j < i { j } else { j - 1 };
            assert(t[tj] == s[j]);
        }
        if has_key(t, key) {
            let j = choose|j: int| 0 <= j < t.len() && (#[trigger] t[j]).0 == key;
            let sj = if j < i { j } else { j + 1 };
            assert(t[j] == s[sj]);
        }
    }
    assert forall|j: int| 0 <= j < t.len() implies m[(#[trigger] t[j]).0] == t[j].1 by {
        let sj = if j < i { j } else { j + 1 };
        assert(t[j] == s[sj]);
        lemma_assoc_index(s, sj);
    }
    lemma_assoc_same(t, m);
}

/// Finds the index of the pair with key `k`, if any.
pub fn find_key<K: PartialEq, X>(s: &Vec<(K, X)>, k: &K) -> (r: Option<usize>)
    ensures
        r matches Some(i) ==> i < s@.len(),
        exact_eq::<K>() ==> (r is None <==> !has_key(s@, *k)),
        exact_eq::<K>() && r is Some ==> s@[r.unwrap() as int].0 == *k,
{
    let mut i: usize = 0;
    while i < s.len()
        invariant
            i <= s@.len(),
            exact_eq::<K>() ==> forall|j: int| 0 <= j < i ==> (#[trigger] s@[j]).0 != *k,
        decreases s@.len() - i,
    {
        if s[i].0 == *k {
            return Some(i);
        }
        i = i + 1;
    }
    None
}

/// `<` on `K` is given by its specified comparison.
pub open spec fn compares_by_spec<K: PartialOrd>() -> bool {
    K::obeys_partial_cmp_spec()
}

/// By the specified comparison of `K`, `a` comes before `b`.
pub open spec fn precedes<K: PartialOrd>(a: &K, b: &K) -> bool {
    a.partial_cmp_spec(b) == Some(Ordering::Less)
}

/// The position before the first pair whose key is greater than `k` in `Ord` order, so that
/// inserting there keeps a list sorted by key.
pub fn sorted_position<K: Ord, X>(s: &Vec<(K, X)>, k: &K) -> (r: usize)
    ensures
        r <= s@.len(),
        compares_by_spec::<K>() ==> forall|j: int| 0 <= j < r ==> !precedes(k, &(#[trigger] s@[j]).0),
        compares_by_spec::<K>() ==> forall|j: int| j == r && j < s@.len() ==> precedes(k, &(#[trigger] s@[j]).0),
{
    let mut i: usize = 0;
    while i < s.len()
        invariant
            i <= s@.len(),
            compares_by_spec::<K>() ==> forall|j: int| 0 <= j < i ==> !precedes(k, &(#[trigger] s@[j]).0),
        decreases s@.len() - i,
    {
        if *k < s[i].0 {
            return i;
        }
        i = i + 1;
    }
    i
}

} // verus!
