//! Hashes of values, and digests of collections that do not depend on the order in which the
//! collection holds its items.

use std::collections::hash_map::DefaultHasher;
use std::hash::{BuildHasher, BuildHasherDefault, Hash, Hasher};
use vstd::prelude::*;

verus! {

/// std's `BuildHasher::hash_one` with the default hasher (fixed keys): the hash of `value`.
/// Nothing is stated of the number, which depends on the `Hash` implementation of `T`.
#[verifier::external_body]
pub(crate) fn hash_of<T: Hash>(value: &T) -> u64 {
    BuildHasherDefault::<DefaultHasher>::default().hash_one(value)
}

/// std's `Hash::hash`: feeds `value` to the hasher `state`. Nothing is stated of the hasher's
/// state afterwards.
#[verifier::external_body]
pub(crate) fn feed<T: Hash, S: Hasher>(value: &T, state: &mut S) {
    value.hash(state)
}

/// Whether a sequence of numbers is in increasing order (repetitions allowed).
pub open spec fn sorted(s: Seq<u64>) -> bool {
    forall|i: int, j: int| 0 <= i <= j < s.len() ==> s[i] <= s[j]
}

/// The numbers of `v` in increasing order.
pub fn sort_numbers(v: Vec<u64>) -> (r: Vec<u64>)
    ensures
        sorted(r@),
        r@.to_multiset() == v@.to_multiset(),
{
    broadcast use vstd::seq_lib::group_to_multiset_ensures;

    let ghost all = v@;
    let mut r: Vec<u64> = Vec::new();
    let mut i: usize = 0;
    while i < v.len()
        invariant
            i <= v@.len(),
            v@ == all,
            sorted(r@),
            r@.to_multiset() == all.take(i as int).to_multiset(),
        decreases v@.len() - i,
    {
        let x = v[i];
        let mut p: usize = 0;
        while p < r.len() && r[p] <= x
            invariant
                p <= r@.len(),
                forall|q: int| 0 <= q < p ==> r@[q] <= x,
            decreases r@.len() - p,
        {
            p = p + 1;
        }
        let ghost before = r@;
        r.insert(p, x);
        proof {
            assert(r@ == before.insert(p as int, x));
            assert forall|a: int, b: int| 0 <= a <= b < r@.len() implies r@[a] <= r@[b] by {
                if b < p {
                    assert(r@[a] == before[a] && r@[b] == before[b]);
                } else if a > p {
                    assert(r@[a] == before[a - 1] && r@[b] == before[b - 1]);
                } else if a == p && b > p {
                    assert(r@[b] == before[b - 1]);
                    assert(!(before[p as int] <= x));
                } else if a < p && b > p {
                    assert(r@[a] == before[a] && r@[b] == before[b - 1]);
                    assert(!(before[p as int] <= x));
                } else if a < p && b == p {
                    assert(r@[a] == before[a]);
                }
            }
            vstd::seq_lib::to_multiset_insert(before, p as int, x);
            assert(x == all[i as int]);
            assert(all.take(i + 1) == all.take(i as int).push(x));
            vstd::seq_lib::to_multiset_build(all.take(i as int), x);
            assert(r@.to_multiset() == all.take(i + 1).to_multiset());
        }
        i = i + 1;
    }
    proof {
        assert(all.take(all.len() as int) == all);
    }
    r
}

} // verus!
