//! [`Rewrite`] for std's ordered sets and maps: every element (every key and value) is
//! rewritten.

use crate::checker::rewrite::Rewrite;
use crate::checker::rewrite_plan::{Mapping, RewritePlan};
use std::collections::{BTreeMap, BTreeSet};
use crate::checker::ranking::lawfully_ordered;
use vstd::prelude::*;
use vstd::std_specs::iter::IteratorSpec;

verus! {

/// Advances an iterator, returning its next item if any.
fn advance<I: Iterator>(it: &mut I) -> (r: Option<I::Item>)
    ensures
        (*final(it)).obeys_prophetic_iter_laws() == (*old(it)).obeys_prophetic_iter_laws(),
        (*final(it)).obeys_prophetic_iter_laws() ==> if (*old(it)).remaining().len() > 0 {
            &&& (*final(it)).remaining() == (*old(it)).remaining().drop_first()
            &&& r == Some((*old(it)).remaining()[0])
        } else {
            r is None
        },
{
    it.next()
}

/// Adding the rewriting `y` of item `k` to a set that holds a rewriting of each of the items
/// before `k`, and only such rewritings, keeps both properties for the items up to `k`.
proof fn lemma_one_more<R, V: Rewrite<R>>(
    before: Set<V>,
    after: Set<V>,
    items: Seq<V>,
    k: int,
    y: V,
    f: spec_fn(R) -> R,
)
    requires
        after == before.insert(y),
        0 <= k < items.len(),
        items[k].rewritten_as(f, y),
        forall|j: int|
            0 <= j < k ==> exists|z: V| before.contains(z) && (#[trigger] items[j]).rewritten_as(f, z),
        forall|z: V| #[trigger] before.contains(z) ==> exists|j: int| 0 <= j < k && items[j].rewritten_as(f, z),
    ensures
        forall|j: int|
            0 <= j < k + 1 ==> exists|z: V| after.contains(z) && (#[trigger] items[j]).rewritten_as(f, z),
        forall|z: V| #[trigger] after.contains(z) ==> exists|j: int| 0 <= j < k + 1 && items[j].rewritten_as(f, z),
{
    assert forall|j: int| 0 <= j < k + 1 implies exists|z: V|
        after.contains(z) && (#[trigger] items[j]).rewritten_as(f, z) by {
        if j < k {
            let z = choose|z: V| before.contains(z) && items[j].rewritten_as(f, z);
            assert(after.contains(z));
        } else {
            assert(after.contains(y));
        }
    }
    assert forall|z: V| #[trigger] after.contains(z) implies exists|j: int|
        0 <= j < k + 1 && items[j].rewritten_as(f, z) by {
        if z != y {
            assert(before.contains(z));
        } else {
            assert(items[k].rewritten_as(f, z));
        }
    }
}

impl<R, V: Ord + Rewrite<R>> Rewrite<R> for BTreeSet<V> {
    /// When `V` is ordered lawfully: every element has a rewriting in `r`, and every element of
    /// `r` is a rewriting of an element.
    open spec fn rewritten_as(&self, f: spec_fn(R) -> R, r: Self) -> bool {
        lawfully_ordered::<V>() ==> {
            &&& forall|x: V|
                #[trigger] self@.contains(x) ==> exists|y: V| r@.contains(y) && x.rewritten_as(f, y)
            &&& forall|y: V|
                #[trigger] r@.contains(y) ==> exists|x: V| self@.contains(x) && x.rewritten_as(f, y)
        }
    }

    /// Rewrites each element.
    fn rewrite<S: Mapping<R>>(&self, plan: &RewritePlan<R, S>) -> (r: Self) {
        broadcast use vstd::std_specs::btree::group_btree_axioms;

        let mut out: BTreeSet<V> = BTreeSet::new();
        let n = self.len();
        let mut it = self.iter();
        let ghost items = it.remaining().unref();
        proof {
            if lawfully_ordered::<V>() {
                assert(items.len() == n);
            }
        }
        let ghost f = plan.rewriting();
        let mut i: usize = 0;
        let ghost mut gi: int = 0;
        while i < n
            invariant
                0 <= i <= n,
                gi == i,
                f == plan.rewriting(),
                it.obeys_prophetic_iter_laws(),
                lawfully_ordered::<V>() ==> {
                    &&& items.to_set() == self@
                    &&& items.len() == n
                    &&& it.remaining().unref() == items.skip(gi)
                },
                S::faithful() && lawfully_ordered::<V>() ==> {
                    &&& forall|j: int|
                        0 <= j < gi ==> exists|y: V|
                            out@.contains(y) && (#[trigger] items[j]).rewritten_as(f, y)
                    &&& forall|y: V|
                        #[trigger] out@.contains(y) ==> exists|j: int|
                            0 <= j < gi && items[j].rewritten_as(f, y)
                },
            decreases n - i,
        {
            let ghost before = it.remaining();
            let ghost out_before = out@;
            match advance(&mut it) {
                Some(x) => {
                    let y = x.rewrite(plan);
                    proof {
                        if lawfully_ordered::<V>() {
                            assert(before.unref() == items.skip(gi));
                            assert(before.len() > 0);
                            assert(before.unref()[0] == *before[0]);
                            assert(items.skip(gi)[0] == items[gi]);
                            assert(*x == items[gi]);
                            assert(it.remaining() == before.drop_first());
                            assert forall|t: int| 0 <= t < it.remaining().len() implies it.remaining().unref()[t]
                                == items.skip(gi + 1)[t] by {
                                assert(it.remaining()[t] == before[t + 1]);
                                assert(before.unref()[t + 1] == items.skip(gi)[t + 1]);
                            }
                            assert(it.remaining().unref() =~= items.skip(gi + 1));
                        }
                    }
                    out.insert(y);
                    proof {
                        if S::faithful() && lawfully_ordered::<V>() {
                            lemma_one_more(out_before, out@, items, gi, y, f);
                        }
                        gi = gi + 1;
                    }
                    i = i + 1;
                },
                None => {
                    proof {
                        if lawfully_ordered::<V>() {
                            assert(items.skip(gi).len() == 0);
                        }
                        gi = n as int;
                    }
                    i = n;
                },
            }
        }
        proof {
            if S::faithful() && lawfully_ordered::<V>() {
                assert forall|x: V| #[trigger] self@.contains(x) implies exists|y: V|
                    out@.contains(y) && x.rewritten_as(f, y) by {
                    assert(items.to_set().contains(x));
                    let j = choose|j: int| 0 <= j < items.len() && items[j] == x;
                    assert(items[j] == x);
                }
                assert forall|y: V| #[trigger] out@.contains(y) implies exists|x: V|
                    self@.contains(x) && x.rewritten_as(f, y) by {
                    let j = choose|j: int| 0 <= j < gi && items[j].rewritten_as(f, y);
                    assert(items.to_set().contains(items[j]));
                }
            }
        }
        out
    }
}

/// The entries of `out` are rewritings of entries among the first `k` of `items`, and `out`
/// holds a rewritten key for each of those.
#[verifier::opaque]
pub open spec fn entries_rewritten<R, K: Rewrite<R>, V: Rewrite<R>>(
    out: Map<K, V>,
    items: Seq<(K, V)>,
    k: int,
    f: spec_fn(R) -> R,
) -> bool {
    &&& forall|j: int|
        0 <= j < k ==> exists|z: K| out.contains_key(z) && (#[trigger] items[j]).0.rewritten_as(f, z)
    &&& forall|z: K|
        #[trigger] out.contains_key(z) ==> exists|j: int|
            0 <= j < k && items[j].0.rewritten_as(f, z) && items[j].1.rewritten_as(f, out[z])
}

/// Inserting the rewriting `(a, b)` of entry `k` into a map whose entries are rewritings of
/// entries before `k`, and which holds a rewritten key for each of them, keeps both properties
/// for the entries up to `k`.
proof fn lemma_one_more_entry<R, K: Rewrite<R>, V: Rewrite<R>>(
    before: Map<K, V>,
    after: Map<K, V>,
    items: Seq<(K, V)>,
    k: int,
    a: K,
    b: V,
    f: spec_fn(R) -> R,
)
    requires
        after == before.insert(a, b),
        0 <= k < items.len(),
        items[k].0.rewritten_as(f, a),
        items[k].1.rewritten_as(f, b),
        entries_rewritten(before, items, k, f),
    ensures
        entries_rewritten(after, items, k + 1, f),
{
    reveal(entries_rewritten);
    assert forall|j: int| 0 <= j < k + 1 implies exists|z: K|
        after.contains_key(z) && (#[trigger] items[j]).0.rewritten_as(f, z) by {
        if j < k {
            let z = choose|z: K| before.contains_key(z) && items[j].0.rewritten_as(f, z);
            assert(after.contains_key(z));
        } else {
            assert(after.contains_key(a));
        }
    }
    assert forall|z: K| #[trigger] after.contains_key(z) implies exists|j: int|
        0 <= j < k + 1 && items[j].0.rewritten_as(f, z) && items[j].1.rewritten_as(f, after[z]) by {
        if z != a {
            assert(before.contains_key(z));
            assert(after[z] == before[z]);
        } else {
            assert(items[k].1.rewritten_as(f, after[z]));
        }
    }
}

/// Taking the first of the remaining pairs of a walk over `items`, at position `k`, yields
/// `items[k]` and leaves the pairs after it.
proof fn lemma_advance_pairs<'a, K, V>(
    before: Seq<(&'a K, &'a V)>,
    after: Seq<(&'a K, &'a V)>,
    items: Seq<(K, V)>,
    k: int,
)
    requires
        0 <= k < items.len(),
        before.unref() == items.skip(k),
        before.len() > 0,
        after == before.drop_first(),
    ensures
        (*before[0].0, *before[0].1) == items[k],
        after.unref() == items.skip(k + 1),
{
    assert(before.unref()[0] == (*before[0].0, *before[0].1));
    assert(items.skip(k)[0] == items[k]);
    assert(before.unref().len() == items.len() - k);
    assert(after.len() == items.len() - k - 1);
    assert forall|t: int| 0 <= t < after.len() implies after.unref()[t] == items.skip(k + 1)[t] by {
        assert(after[t] == before[t + 1]);
        assert(after.unref()[t] == (*after[t].0, *after[t].1));
        assert(before.unref()[t + 1] == (*before[t + 1].0, *before[t + 1].1));
        assert(before.unref()[t + 1] == items.skip(k)[t + 1]);
        assert(items.skip(k)[t + 1] == items[k + 1 + t]);
    }
    assert(after.unref() =~= items.skip(k + 1));
}

impl<R, K: Ord + Rewrite<R>, V: Rewrite<R>> Rewrite<R> for BTreeMap<K, V> {
    /// When `K` is ordered lawfully: every key has a rewriting among the keys of `r`, and every
    /// entry of `r` is the rewriting of an entry (the last one to rewrite to its key, in key
    /// order).
    open spec fn rewritten_as(&self, f: spec_fn(R) -> R, r: Self) -> bool {
        lawfully_ordered::<K>() ==> {
            &&& forall|x: K|
                #[trigger] self@.contains_key(x) ==> exists|y: K|
                    r@.contains_key(y) && x.rewritten_as(f, y)
            &&& forall|y: K|
                #[trigger] r@.contains_key(y) ==> exists|x: K|
                    self@.contains_key(x) && x.rewritten_as(f, y) && self@[x].rewritten_as(f, r@[y])
        }
    }

    /// Rewrites each key and value.
    #[verifier::rlimit(50)]
    fn rewrite<S: Mapping<R>>(&self, plan: &RewritePlan<R, S>) -> (r: Self) {
        let mut out: BTreeMap<K, V> = BTreeMap::new();
        let n = self.len();
        let mut it = self.iter();
        let ghost items = it.remaining().unref();
        let ghost f = plan.rewriting();
        proof {
            broadcast use vstd::std_specs::btree::group_btree_axioms;

            if lawfully_ordered::<K>() {
                assert(items.len() == n);
                assert forall|j: int| 0 <= j < items.len() implies self@.contains_key(
                    (#[trigger] items[j]).0,
                ) && self@[items[j].0] == items[j].1 by {
                    assert(items[j] == (*it.remaining()[j].0, *it.remaining()[j].1));
                }
                assert forall|x: K| #[trigger] self@.contains_key(x) implies exists|j: int|
                    0 <= j < items.len() && items[j].0 == x by {
                    assert(it.remaining().contains((&x, &self@[x])));
                    let j = choose|j: int|
                        0 <= j < it.remaining().len() && it.remaining()[j] == (&x, &self@[x]);
                    assert(items[j].0 == x);
                }
            }
        }
        proof {
            reveal(entries_rewritten);
        }
        let mut i: usize = 0;
        let ghost mut gi: int = 0;
        while i < n
            invariant
                0 <= i <= n,
                gi == i,
                f == plan.rewriting(),
                it.obeys_prophetic_iter_laws(),
                lawfully_ordered::<K>() ==> {
                    &&& items.len() == n
                    &&& it.remaining().unref() == items.skip(gi)
                },
                S::faithful() && lawfully_ordered::<K>() ==> entries_rewritten(out@, items, gi, f),
            decreases n - i,
        {
            let ghost before = it.remaining();
            let ghost out_before = out@;
            match advance(&mut it) {
                Some((x, v)) => {
                    let a = x.rewrite(plan);
                    let b = v.rewrite(plan);
                    proof {
                        if lawfully_ordered::<K>() {
                            lemma_advance_pairs(before, it.remaining(), items, gi);
                        }
                    }
                    out.insert(a, b);
                    proof {
                        if S::faithful() && lawfully_ordered::<K>() {
                            lemma_one_more_entry(out_before, out@, items, gi, a, b, f);
                        }
                        gi = gi + 1;
                    }
                    i = i + 1;
                },
                None => {
                    proof {
                        if lawfully_ordered::<K>() {
                            assert(items.skip(gi).len() == 0);
                        }
                        gi = n as int;
                    }
                    i = n;
                },
            }
        }
        proof {
            if S::faithful() && lawfully_ordered::<K>() {
                reveal(entries_rewritten);
                assert forall|x: K| #[trigger] self@.contains_key(x) implies exists|y: K|
                    out@.contains_key(y) && x.rewritten_as(f, y) by {
                    let j = choose|j: int| 0 <= j < items.len() && items[j].0 == x;
                    assert(items[j].0 == x);
                }
                assert forall|y: K| #[trigger] out@.contains_key(y) implies exists|x: K|
                    self@.contains_key(x) && x.rewritten_as(f, y) && self@[x].rewritten_as(f, out@[y]) by {
                    let j = choose|j: int|
                        0 <= j < gi && items[j].0.rewritten_as(f, y) && items[j].1.rewritten_as(f, out@[y]);
                    assert(self@.contains_key(items[j].0));
                }
            }
        }
        out
    }
}

} // verus!
