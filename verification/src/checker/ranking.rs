//! Stable ranking: the position of each element once a sequence is sorted stably, and moving
//! elements to given positions.

use vstd::prelude::*;
use vstd::std_specs::cmp::{OrdSpec, PartialEqSpec, PartialOrdIs, PartialOrdSpec};

verus! {

/// `x < y` as `V`'s specification says.
pub open spec fn less<V: PartialOrd>(x: V, y: V) -> bool {
    x.is_lt(&y)
}

/// `<` on `V` is a strict weak order: irreflexive and transitive, with incomparability
/// transitive too (checked through the two mixed cases).
pub open spec fn strict_weak_order<V: PartialOrd>() -> bool {
    &&& forall|x: V| !(#[trigger] less(x, x))
    &&& forall|x: V, y: V, z: V| #[trigger] less(x, y) && #[trigger] less(y, z) ==> less(x, z)
    &&& forall|x: V, y: V, z: V|
        !less(x, y) && !less(y, x) && #[trigger] less(y, z) ==> #[trigger] less(x, z)
    &&& forall|x: V, y: V, z: V|
        #[trigger] less(x, y) && !less(y, z) && !less(z, y) ==> #[trigger] less(x, z)
}

/// Whether element `j` of `v` comes before element `i` once `v` is sorted stably: it is smaller,
/// or incomparable and earlier.
pub open spec fn sorts_before<V: PartialOrd>(v: Seq<V>, j: int, i: int) -> bool {
    less(v[j], v[i]) || (!less(v[i], v[j]) && j < i)
}

/// The number of the first `k` elements of `v` that come before element `i`.
pub open spec fn count_before<V: PartialOrd>(v: Seq<V>, i: int, k: int) -> nat
    decreases k,
{
    if k <= 0 {
        0
    } else {
        count_before(v, i, k - 1) + if sorts_before(v, k - 1, i) {
            1nat
        } else {
            0nat
        }
    }
}

/// `<` on `V` computes the order that `V`'s specification gives (`is_lt`).
pub open spec fn ordered_by_spec<V: PartialOrd>() -> bool {
    V::obeys_partial_cmp_spec()
}

/// [`count_before`] at machine-integer positions.
pub open spec fn count_upto<V: PartialOrd>(v: Seq<V>, i: usize, k: usize) -> nat {
    count_before(v, i as int, k as int)
}

/// The position of element `i` once `v` is sorted stably.
pub open spec fn stable_rank<V: PartialOrd>(v: Seq<V>, i: int) -> nat {
    count_before(v, i, v.len() as int)
}

/// `p` maps `0..p.len()` one-to-one onto itself.
pub open spec fn is_permutation(p: Seq<usize>) -> bool {
    &&& forall|i: int| 0 <= i < p.len() ==> #[trigger] p[i] < p.len()
    &&& forall|i: int, j: int| 0 <= i < j < p.len() ==> #[trigger] p[i] != #[trigger] p[j]
}

/// `<` on `usize` is a strict weak order.
pub proof fn usize_strict_weak_order()
    ensures
        strict_weak_order::<usize>(),
{
}

/// `V`'s comparisons follow `Ord`'s laws, as those of the integer types do.
pub open spec fn lawfully_ordered<V: Ord>() -> bool {
    vstd::laws_cmp::obeys_cmp::<V>()
}

/// `usize`'s comparisons follow `Ord`'s laws.
pub proof fn usize_lawfully_ordered()
    ensures
        lawfully_ordered::<usize>(),
{
    broadcast use vstd::laws_cmp::group_laws_cmp;

    assert(vstd::laws_cmp::obeys_cmp::<usize>());
}

/// A type whose comparisons follow `Ord`'s laws (`obeys_cmp`, as the integer types do) is
/// ordered by a strict weak order.
pub proof fn lawful_order_is_strict_weak<V: Ord>()
    requires
        vstd::laws_cmp::obeys_cmp::<V>(),
    ensures
        strict_weak_order::<V>(),
{
    reveal(vstd::laws_cmp::obeys_partial_cmp_spec_properties);
    reveal(vstd::laws_cmp::obeys_cmp_partial_ord);
    reveal(vstd::laws_cmp::obeys_cmp_ord);
    reveal(vstd::laws_eq::obeys_eq_spec_properties);
    assert forall|x: V| !(#[trigger] less(x, x)) by {
        if less(x, x) {
            assert(x.partial_cmp_spec(&x) == Some(core::cmp::Ordering::Greater));
        }
    }
    assert forall|x: V, y: V, z: V|
        !less(x, y) && !less(y, x) && #[trigger] less(y, z) implies #[trigger] less(x, z) by {
        assert(x.partial_cmp_spec(&y) == Some(x.cmp_spec(&y)));
        assert(x.partial_cmp_spec(&z) == Some(x.cmp_spec(&z)));
        if x.cmp_spec(&y) == core::cmp::Ordering::Greater {
            assert(y.partial_cmp_spec(&x) == Some(core::cmp::Ordering::Less));
        }
        assert(x.eq_spec(&y));
        if x.cmp_spec(&z) == core::cmp::Ordering::Equal {
            assert(x.eq_spec(&z));
            assert(y.eq_spec(&x));
            assert(y.eq_spec(&z));
        }
        if x.cmp_spec(&z) == core::cmp::Ordering::Greater {
            assert(z.partial_cmp_spec(&x) == Some(core::cmp::Ordering::Less));
            assert(less(y, x));
        }
    }
    assert forall|x: V, y: V, z: V|
        #[trigger] less(x, y) && !less(y, z) && !less(z, y) implies #[trigger] less(x, z) by {
        assert(y.partial_cmp_spec(&z) == Some(y.cmp_spec(&z)));
        assert(x.partial_cmp_spec(&z) == Some(x.cmp_spec(&z)));
        if y.cmp_spec(&z) == core::cmp::Ordering::Greater {
            assert(z.partial_cmp_spec(&y) == Some(core::cmp::Ordering::Less));
        }
        assert(y.eq_spec(&z));
        if x.cmp_spec(&z) == core::cmp::Ordering::Equal {
            assert(x.eq_spec(&z));
            assert(z.eq_spec(&y));
            assert(x.eq_spec(&y));
        }
        if x.cmp_spec(&z) == core::cmp::Ordering::Greater {
            assert(z.partial_cmp_spec(&x) == Some(core::cmp::Ordering::Less));
            assert(less(z, y));
        }
    }
}

/// At most `k` of the first `k` elements come before `i`, and fewer when `i` is among them.
proof fn lemma_count_bound<V: PartialOrd>(v: Seq<V>, i: int, k: int)
    requires
        strict_weak_order::<V>(),
        0 <= k <= v.len(),
        0 <= i < v.len(),
    ensures
        count_before(v, i, k) + (if i < k { 1int } else { 0int }) <= k,
    decreases k,
{
    if k > 0 {
        lemma_count_bound(v, i, k - 1);
        assert(!less(v[i], v[i]));
    }
}

/// If everything among the first `k` elements that comes before `a` also comes before `b`, then
/// at most as many come before `a`; one more if some element `c` among them comes before `b` but
/// not `a`.
proof fn lemma_count_mono<V: PartialOrd>(v: Seq<V>, a: int, b: int, c: int, k: int)
    requires
        0 <= k <= v.len(),
        forall|j: int| 0 <= j < k && sorts_before(v, j, a) ==> sorts_before(v, j, b),
    ensures
        count_before(v, a, k) <= count_before(v, b, k),
        0 <= c < k && sorts_before(v, c, b) && !sorts_before(v, c, a) ==> count_before(v, a, k)
            < count_before(v, b, k),
    decreases k,
{
    if k > 0 {
        lemma_count_mono(v, a, b, c, k - 1);
    }
}

/// Under a strict weak order, "comes before" is transitive and total on distinct positions.
proof fn lemma_sorts_before_order<V: PartialOrd>(v: Seq<V>, a: int, b: int, c: int)
    requires
        strict_weak_order::<V>(),
    ensures
        sorts_before(v, a, b) && sorts_before(v, b, c) ==> sorts_before(v, a, c),
        a != b ==> (sorts_before(v, a, b) <==> !sorts_before(v, b, a)),
        !sorts_before(v, a, a),
{
    let (x, y, z) = (v[a], v[b], v[c]);
    assert(!less(x, x));
    if less(x, y) && less(y, x) {
        assert(less(x, x));
    }
    if sorts_before(v, a, b) && sorts_before(v, b, c) {
        if less(x, y) && less(y, z) {
        } else if less(x, y) {
            assert(less(x, z));
        } else if less(y, z) {
            assert(less(x, z));
        } else {
            if less(x, z) {
                assert(less(x, y));
            }
            if less(z, x) {
                assert(less(z, y));
            }
        }
    }
}

/// Under a strict weak order, the stable ranks of `v` form a permutation: no two elements take
/// the same position, and every position is below the length.
pub proof fn stable_ranks_permute<V: PartialOrd>(v: Seq<V>, i: int, j: int)
    requires
        strict_weak_order::<V>(),
        0 <= i < v.len(),
        0 <= j < v.len(),
    ensures
        stable_rank(v, i) < v.len(),
        i != j ==> stable_rank(v, i) != stable_rank(v, j),
        sorts_before(v, i, j) ==> stable_rank(v, i) < stable_rank(v, j),
{
    lemma_count_bound(v, i, v.len() as int);
    if sorts_before(v, i, j) {
        assert forall|k: int| 0 <= k < v.len() && sorts_before(v, k, i) implies sorts_before(
            v,
            k,
            j,
        ) by {
            lemma_sorts_before_order(v, k, i, j);
        }
        lemma_sorts_before_order(v, i, i, j);
        lemma_count_mono(v, i, j, i, v.len() as int);
    }
    if i != j {
        lemma_sorts_before_order(v, i, j, i);
        if sorts_before(v, j, i) {
            assert forall|k: int| 0 <= k < v.len() && sorts_before(v, k, j) implies sorts_before(
                v,
                k,
                i,
            ) by {
                lemma_sorts_before_order(v, k, j, i);
            }
            lemma_sorts_before_order(v, j, j, i);
            lemma_count_mono(v, j, i, j, v.len() as int);
        }
    }
}

/// Under a strict weak order, an element placed at a lower position than another by the stable
/// ranks is not greater than it: the ranks sort the sequence.
pub proof fn stable_ranks_sort<V: PartialOrd>(v: Seq<V>, i: int, j: int)
    requires
        strict_weak_order::<V>(),
        0 <= i < v.len(),
        0 <= j < v.len(),
        stable_rank(v, i) < stable_rank(v, j),
    ensures
        sorts_before(v, i, j),
        !less(v[j], v[i]),
{
    stable_ranks_permute(v, j, i);
    lemma_sorts_before_order(v, i, j, i);
    if less(v[j], v[i]) && less(v[i], v[j]) {
        assert(less(v[i], v[i]));
    }
}

/// The stable rank of each element of `v`.
pub fn stable_ranks<V: PartialOrd>(v: &[V]) -> (r: Vec<usize>)
    ensures
        r@.len() == v@.len(),
        ordered_by_spec::<V>() ==> forall|i: int|
            0 <= i < v@.len() ==> #[trigger] r@[i] == stable_rank(v@, i),
{
    let n = v.len();
    let mut out: Vec<usize> = Vec::new();
    let mut i: usize = 0;
    while i < n
        invariant
            n == v@.len(),
            i <= n,
            out@.len() == i,
            ordered_by_spec::<V>() ==> forall|x: int|
                0 <= x < i ==> #[trigger] out@[x] == stable_rank(v@, x),
        decreases n - i,
    {
        let mut count: usize = 0;
        let mut j: usize = 0;
        while j < n
            invariant
                n == v@.len(),
                i < n,
                j <= n,
                count <= j,
                ordered_by_spec::<V>() ==> count == count_upto(v@, i, j),
            decreases n - j,
        {
            if v[j] < v[i] || (!(v[i] < v[j]) && j < i) {
                count = count + 1;
            }
            j = j + 1;
        }
        out.push(count);
        i = i + 1;
    }
    out
}

/// Moves each item to the position given for it: item `i` goes to position `ranks[i]`.
pub fn permute<T>(items: Vec<T>, ranks: &Vec<usize>) -> (r: Vec<T>)
    requires
        ranks@.len() == items@.len(),
        is_permutation(ranks@),
    ensures
        r@.len() == items@.len(),
        forall|i: int| 0 <= i < items@.len() ==> r@[#[trigger] ranks@[i] as int] == items@[i],
{
    let n = items.len();
    let ghost orig = items@;
    let mut slots: Vec<Option<T>> = Vec::new();
    while slots.len() < n
        invariant
            slots@.len() <= n,
            forall|j: int| 0 <= j < slots@.len() ==> slots@[j] is None,
        decreases n - slots@.len(),
    {
        slots.push(None);
    }
    let mut items = items;
    while items.len() > 0
        invariant
            slots@.len() == n,
            n == orig.len(),
            ranks@.len() == n,
            is_permutation(ranks@),
            items@.len() <= n,
            forall|j: int| 0 <= j < items@.len() ==> items@[j] == orig[j],
            forall|i: int|
                items@.len() <= i < n ==> slots@[#[trigger] ranks@[i] as int] == Some(orig[i]),
            forall|i: int| 0 <= i < items@.len() ==> slots@[#[trigger] ranks@[i] as int] is None,
        decreases items@.len(),
    {
        let last = items.len() - 1;
        let t = items.pop().unwrap();
        let index = ranks[last];
        slots.set(index, Some(t));
        proof {
            assert forall|i: int| 0 <= i < last implies slots@[#[trigger] ranks@[i] as int] is None by {
                assert(ranks@[i] != ranks@[last as int]);
            }
            assert forall|i: int| last <= i < n implies slots@[#[trigger] ranks@[i] as int] == Some(
                orig[i],
            ) by {
                if i != last {
                    assert(ranks@[i] != ranks@[last as int]);
                }
            }
        }
    }
    proof {
        assert forall|s: int| 0 <= s < n implies (#[trigger] slots@[s]) is Some by {
            let keys = Seq::new(n as nat, |i: int| ranks@[i] as int);
            crate::util::densenatmap::covers_all_indices(keys, n as int, s);
            let i = choose|i: int| 0 <= i < n && keys[i] == s;
            assert(slots@[ranks@[i] as int] == Some(orig[i]));
        }
    }
    let mut rev: Vec<T> = Vec::new();
    let ghost full = slots@;
    while slots.len() > 0
        invariant
            rev@.len() + slots@.len() == n,
            full.len() == n,
            forall|j: int| 0 <= j < slots@.len() ==> slots@[j] == full[j],
            forall|j: int| 0 <= j < n ==> (#[trigger] full[j]) is Some,
            forall|j: int| 0 <= j < rev@.len() ==> Some(#[trigger] rev@[j]) == full[n - 1 - j],
        decreases slots@.len(),
    {
        assert(full[slots@.len() - 1] is Some);
        let slot = slots.pop().unwrap();
        match slot {
            Some(t) => rev.push(t),
            None => {
                assert(false);
            },
        }
    }
    let mut out: Vec<T> = Vec::new();
    while rev.len() > 0
        invariant
            out@.len() + rev@.len() == n,
            forall|j: int| 0 <= j < rev@.len() ==> Some(#[trigger] rev@[j]) == full[n - 1 - j],
            forall|j: int| 0 <= j < out@.len() ==> Some(#[trigger] out@[j]) == full[j],
        decreases rev@.len(),
    {
        let t = rev.pop().unwrap();
        out.push(t);
    }
    proof {
        assert forall|i: int| 0 <= i < n implies out@[#[trigger] ranks@[i] as int] == orig[i] by {
            let s = ranks@[i] as int;
            assert(Some(out@[s]) == full[s]);
        }
    }
    out
}

} // verus!
