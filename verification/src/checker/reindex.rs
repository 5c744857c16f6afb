//! [`Reindex`]: revising the indices of a collection by a mapping from old indices to new ones.

use crate::actor::{id_of, Id};
use crate::checker::ranking::{lawfully_ordered, usize_lawfully_ordered};
use std::collections::BTreeMap;
use vstd::prelude::*;
use vstd::std_specs::convert::FromSpec;
use vstd::std_specs::iter::IteratorSpec;

verus! {

/// Implementations can reindex a collection based on a mapping from old indices to new indices.
/// This is used for symmetry reduction when a model's state implements
/// [`crate::checker::representative::Representative`].
///
/// See [`crate::checker::rewrite::Rewrite`] to use a mapping to revise values for a data
/// structure.
pub trait Reindex<M>: Sized {
    /// Whether `mapping` gives a new index for every index that `self` uses. An implementation
    /// that does not define this asks for nothing.
    open spec fn covered_by(&self, mapping: &M) -> bool {
        true
    }

    /// Generates a corresponding instance with indices revised based on `mapping`.
    fn reindex(&self, mapping: &M) -> Self
        requires
            self.covered_by(mapping),
    ;
}

/// The index that an identifier stands for.
pub open spec fn index_of(id: Id) -> int {
    <usize as FromSpec<Id>>::from_spec(id) as int
}

/// Advances an iterator, returning its next item if any.
fn advance<I: Iterator>(it: &mut I) -> (r: Option<I::Item>)
    ensures
        (*final(it)).obeys_prophetic_iter_laws() == (*old(it)).obeys_prophetic_iter_laws(),
        (*final(it)).obeys_prophetic_iter_laws() ==> if (*old(it)).remaining().len() > 0 {
            &&& (*final(it)).remaining() == (*old(it)).remaining().drop_first()
            &&& r == Some((*old(it)).remaining()[0])
        } else {
            r is None
        },
{
    it.next()
}

/// The entries of `out` are entries among the first `k` of `items`, with their keys replaced by
/// `new_key` and their values cloned; and `out` holds the new key of each of those.
#[verifier::opaque]
pub open spec fn rekeyed<K, V: Clone>(
    out: Map<K, V>,
    items: Seq<(K, V)>,
    k: int,
    new_key: spec_fn(K) -> K,
) -> bool {
    &&& forall|j: int| 0 <= j < k ==> out.contains_key(new_key((#[trigger] items[j]).0))
    &&& forall|z: K|
        #[trigger] out.contains_key(z) ==> exists|j: int|
            0 <= j < k && new_key(items[j].0) == z && cloned(items[j].1, out[z])
}

/// Taking the first of the remaining pairs of a walk over `items`, at position `k`, yields
/// `items[k]` and leaves the pairs after it.
proof fn lemma_advance_pairs<'a, K, V>(
    before: Seq<(&'a K, &'a V)>,
    after: Seq<(&'a K, &'a V)>,
    items: Seq<(K, V)>,
    k: int,
)
    requires
        0 <= k < items.len(),
        before.unref() == items.skip(k),
        before.len() > 0,
        after == before.drop_first(),
    ensures
        (*before[0].0, *before[0].1) == items[k],
        after.unref() == items.skip(k + 1),
{
    assert(before.unref()[0] == (*before[0].0, *before[0].1));
    assert(items.skip(k)[0] == items[k]);
    assert(before.unref().len() == items.len() - k);
    assert(after.len() == items.len() - k - 1);
    assert forall|t: int| 0 <= t < after.len() implies after.unref()[t] == items.skip(k + 1)[t] by {
        assert(after[t] == before[t + 1]);
        assert(after.unref()[t] == (*after[t].0, *after[t].1));
        assert(before.unref()[t + 1] == (*before[t + 1].0, *before[t + 1].1));
        assert(before.unref()[t + 1] == items.skip(k)[t + 1]);
        assert(items.skip(k)[t + 1] == items[k + 1 + t]);
    }
    assert(after.unref() =~= items.skip(k + 1));
}

/// Inserting entry `k` of `items`, rekeyed, keeps [`rekeyed`] for the entries up to `k`.
proof fn lemma_rekey_one_more<K, V: Clone>(
    before: Map<K, V>,
    after: Map<K, V>,
    items: Seq<(K, V)>,
    k: int,
    a: K,
    b: V,
    new_key: spec_fn(K) -> K,
)
    requires
        after == before.insert(a, b),
        0 <= k < items.len(),
        new_key(items[k].0) == a,
        cloned(items[k].1, b),
        rekeyed(before, items, k, new_key),
    ensures
        rekeyed(after, items, k + 1, new_key),
{
    reveal(rekeyed);
    assert forall|j: int| 0 <= j < k + 1 implies after.contains_key(new_key((#[trigger] items[j]).0)) by {
        if j < k {
            assert(before.contains_key(new_key(items[j].0)));
        }
    }
    assert forall|z: K| #[trigger] after.contains_key(z) implies exists|j: int|
        0 <= j < k + 1 && new_key(items[j].0) == z && cloned(items[j].1, after[z]) by {
        if z != a {
            assert(before.contains_key(z));
            assert(after[z] == before[z]);
        } else {
            assert(new_key(items[k].0) == z && cloned(items[k].1, after[z]));
        }
    }
}

/// The map with each key `k` of `m` replaced by `new_key(k)` and its value cloned, where the
/// function `key_of`, defined on every key, computes `new_key` (later keys win when two keys
/// meet).
fn rekey<K: Ord, V: Clone, F: Fn(&K) -> K>(
    m: &BTreeMap<K, V>,
    key_of: F,
    Ghost(new_key): Ghost<spec_fn(K) -> K>,
) -> (r: BTreeMap<K, V>)
    requires
        forall|k: K| #[trigger] key_of.requires((&k,)),
        forall|k: K, z: K| #[trigger] key_of.ensures((&k,), z) ==> z == new_key(k),
    ensures
        lawfully_ordered::<K>() ==> {
            &&& forall|k: K| #[trigger] m@.contains_key(k) ==> r@.contains_key(new_key(k))
            &&& forall|z: K|
                #[trigger] r@.contains_key(z) ==> exists|k: K|
                    m@.contains_key(k) && new_key(k) == z && cloned(m@[k], r@[z])
        },
{
    let mut out: BTreeMap<K, V> = BTreeMap::new();
    let n = m.len();
    let mut it = m.iter();
    let ghost items = it.remaining().unref();
    proof {
        broadcast use vstd::std_specs::btree::group_btree_axioms;

        if lawfully_ordered::<K>() {
            assert(items.len() == n);
            assert forall|j: int| 0 <= j < items.len() implies m@.contains_key(
                (#[trigger] items[j]).0,
            ) && m@[items[j].0] == items[j].1 by {
                assert(items[j] == (*it.remaining()[j].0, *it.remaining()[j].1));
            }
            assert forall|x: K| #[trigger] m@.contains_key(x) implies exists|j: int|
                0 <= j < items.len() && items[j].0 == x by {
                assert(it.remaining().contains((&x, &m@[x])));
                let j = choose|j: int|
                    0 <= j < it.remaining().len() && it.remaining()[j] == (&x, &m@[x]);
                assert(items[j].0 == x);
            }
        }
        reveal(rekeyed);
    }
    let mut i: usize = 0;
    let ghost mut gi: int = 0;
    while i < n
        invariant
            0 <= i <= n,
            gi == i,
            it.obeys_prophetic_iter_laws(),
            forall|k: K| #[trigger] key_of.requires((&k,)),
            forall|k: K, z: K| #[trigger] key_of.ensures((&k,), z) ==> z == new_key(k),
            lawfully_ordered::<K>() ==> {
                &&& items.len() == n
                &&& it.remaining().unref() == items.skip(gi)
                &&& forall|j: int|
                    0 <= j < items.len() ==> m@.contains_key((#[trigger] items[j]).0) && m@[items[j].0]
                        == items[j].1
                &&& rekeyed(out@, items, gi, new_key)
            },
        decreases n - i,
    {
        let ghost before = it.remaining();
        let ghost out_before = out@;
        match advance(&mut it) {
            Some((k, v)) => {
                proof {
                    if lawfully_ordered::<K>() {
                        lemma_advance_pairs(before, it.remaining(), items, gi);
                        assert(m@.contains_key(items[gi].0));
                    }
                }
                let a = key_of(k);
                let b = v.clone();
                out.insert(a, b);
                proof {
                    if lawfully_ordered::<K>() {
                        assert(vstd::pervasive::strictly_cloned(items[gi].1, b));
                        lemma_rekey_one_more(out_before, out@, items, gi, a, b, new_key);
                    }
                    gi = gi + 1;
                }
                i = i + 1;
            },
            None => {
                proof {
                    gi = n as int;
                    if lawfully_ordered::<K>() {
                        assert(items.skip(i as int).len() == 0);
                    }
                }
                i = n;
            },
        }
    }
    proof {
        if lawfully_ordered::<K>() {
            reveal(rekeyed);
            assert forall|x: K| #[trigger] m@.contains_key(x) implies out@.contains_key(new_key(x)) by {
                let j = choose|j: int| 0 <= j < items.len() && items[j].0 == x;
                assert(out@.contains_key(new_key(items[j].0)));
            }
            assert forall|z: K| #[trigger] out@.contains_key(z) implies exists|k: K|
                m@.contains_key(k) && new_key(k) == z && cloned(m@[k], out@[z]) by {
                let j = choose|j: int|
                    0 <= j < gi && new_key(items[j].0) == z && cloned(items[j].1, out@[z]);
                assert(m@.contains_key(items[j].0) && m@[items[j].0] == items[j].1);
            }
        }
    }
    out
}

/// The new index of `k` under `mapping`; indices that `mapping` does not cover stay as they are.
pub open spec fn remapped(mapping: Seq<usize>, k: usize) -> usize {
    if k < mapping.len() {
        mapping[k as int]
    } else {
        k
    }
}

/// The new identifier of `id` under `mapping`; identifiers that `mapping` does not cover stay as
/// they are.
pub open spec fn remapped_id(mapping: Seq<Id>, id: Id) -> Id {
    if 0 <= index_of(id) < mapping.len() {
        mapping[index_of(id)]
    } else {
        id
    }
}

impl<V: Clone> Reindex<Vec<usize>> for BTreeMap<usize, V> {
    open spec fn covered_by(&self, mapping: &Vec<usize>) -> bool {
        forall|k: usize| #[trigger] self@.contains_key(k) ==> k < mapping@.len()
    }

    /// Moves the value of each index `k` to index `mapping[k]`.
    fn reindex(&self, mapping: &Vec<usize>) -> (r: Self)
        ensures
            forall|k: usize| #[trigger] self@.contains_key(k) ==> r@.contains_key(mapping@[k as int]),
            forall|z: usize|
                #[trigger] r@.contains_key(z) ==> exists|k: usize|
                    self@.contains_key(k) && mapping@[k as int] == z && cloned(self@[k], r@[z]),
    {
        let ghost new_key = |k: usize| remapped(mapping@, k);
        let key_of = |k: &usize| -> (r: usize)
            ensures
                r == remapped(mapping@, *k),
            {
                if *k < mapping.len() {
                    mapping[*k]
                } else {
                    *k
                }
            };
        proof {
            usize_lawfully_ordered();
        }
        rekey(self, key_of, Ghost(new_key))
    }
}

impl<V: Clone> Reindex<Vec<Id>> for BTreeMap<Id, V> {
    open spec fn covered_by(&self, mapping: &Vec<Id>) -> bool {
        forall|k: Id| #[trigger] self@.contains_key(k) ==> 0 <= index_of(k) < mapping@.len()
    }

    /// Moves the value of each identifier `k` to identifier `mapping[k]`.
    fn reindex(&self, mapping: &Vec<Id>) -> (r: Self)
        ensures
            lawfully_ordered::<Id>() ==> forall|k: Id| #[trigger] self@.contains_key(k) ==> r@.contains_key(
                mapping@[index_of(k)],
            ),
            lawfully_ordered::<Id>() ==> forall|z: Id|
                #[trigger] r@.contains_key(z) ==> exists|k: Id|
                    self@.contains_key(k) && mapping@[index_of(k)] == z && cloned(self@[k], r@[z]),
    {
        let ghost new_key = |k: Id| remapped_id(mapping@, k);
        let key_of = |k: &Id| -> (r: Id)
            ensures
                r == remapped_id(mapping@, *k),
            {
                let i = usize::from(*k);
                if i < mapping.len() {
                    mapping[i]
                } else {
                    *k
                }
            };
        rekey(self, key_of, Ghost(new_key))
    }
}

impl<V: Clone> Reindex<Vec<usize>> for Vec<V> {
    open spec fn covered_by(&self, mapping: &Vec<usize>) -> bool {
        forall|i: int| 0 <= i < mapping@.len() ==> #[trigger] mapping@[i] < self@.len()
    }

    /// Element `i` of the result is a clone of element `mapping[i]`.
    fn reindex(&self, mapping: &Vec<usize>) -> (r: Self)
        ensures
            r@.len() == mapping@.len(),
            forall|i: int| 0 <= i < mapping@.len() ==> cloned(self@[mapping@[i] as int], #[trigger] r@[i]),
    {
        let mut out: Vec<V> = Vec::new();
        let mut i: usize = 0;
        while i < mapping.len()
            invariant
                i <= mapping@.len(),
                out@.len() == i,
                forall|j: int| 0 <= j < mapping@.len() ==> #[trigger] mapping@[j] < self@.len(),
                forall|j: int| 0 <= j < i ==> cloned(self@[mapping@[j] as int], #[trigger] out@[j]),
            decreases mapping@.len() - i,
        {
            let v = self[mapping[i]].clone();
            assert(vstd::pervasive::strictly_cloned(self@[mapping@[i as int] as int], v));
            out.push(v);
            i = i + 1;
        }
        out
    }
}

impl<V: Clone> Reindex<Vec<Id>> for Vec<V> {
    open spec fn covered_by(&self, mapping: &Vec<Id>) -> bool {
        forall|i: int| 0 <= i < mapping@.len() ==> index_of(#[trigger] mapping@[i]) < self@.len()
    }

    /// Element `i` of the result is a clone of the element at index `mapping[i]`.
    fn reindex(&self, mapping: &Vec<Id>) -> (r: Self)
        ensures
            r@.len() == mapping@.len(),
            forall|i: int| 0 <= i < mapping@.len() ==> cloned(self@[index_of(mapping@[i])], #[trigger] r@[i]),
    {
        let mut out: Vec<V> = Vec::new();
        let mut i: usize = 0;
        while i < mapping.len()
            invariant
                i <= mapping@.len(),
                out@.len() == i,
                forall|j: int| 0 <= j < mapping@.len() ==> index_of(#[trigger] mapping@[j]) < self@.len(),
                forall|j: int| 0 <= j < i ==> cloned(self@[index_of(mapping@[j])], #[trigger] out@[j]),
            decreases mapping@.len() - i,
        {
            let v = self[usize::from(mapping[i])].clone();
            assert(vstd::pervasive::strictly_cloned(self@[index_of(mapping@[i as int])], v));
            out.push(v);
            i = i + 1;
        }
        out
    }
}

} // verus!
