//! A [vector clock](https://en.wikipedia.org/wiki/Vector_clock), which provides a partial causal
//! order on events in a distributed sytem.
//!
//! Missing components are implicitly zero, so clocks that differ only by trailing zeros are equal,
//! hash alike, and compare as `Equal`.

use core::cmp::Ordering;
use vstd::prelude::*;
use vstd::std_specs::cmp::{PartialEqSpecImpl, PartialOrdSpecImpl};
use vstd::std_specs::convert::{FromSpec, FromSpecImpl};

use crate::util::digest::feed;
use crate::util::text::{decimal, u64_decimal};

verus! {

/// A vector clock: component `i` counts the events observed from participant `i`.
#[derive(Clone, Debug)]
pub struct VectorClock(Vec<u32>);

impl View for VectorClock {
    type V = Seq<u32>;

    closed spec fn view(&self) -> Seq<u32> {
        self.0@
    }
}

/// Component `i` of a clock, where components past the end are zero.
pub open spec fn entry(s: Seq<u32>, i: int) -> int {
    if 0 <= i < s.len() {
        s[i] as int
    } else {
        0
    }
}

/// The larger of two integers.
pub open spec fn larger(a: int, b: int) -> int {
    if a >= b {
        a
    } else {
        b
    }
}

/// Two clocks are equal when every component is equal (missing components being zero).
pub open spec fn same_clock(a: Seq<u32>, b: Seq<u32>) -> bool {
    forall|i: int| #[trigger] entry(a, i) == #[trigger] entry(b, i)
}

/// Every component of `a` is at most the corresponding component of `b`.
pub open spec fn all_le(a: Seq<u32>, b: Seq<u32>) -> bool {
    forall|i: int| #[trigger] entry(a, i) <= #[trigger] entry(b, i)
}

/// The causal order of two clocks: `Equal` if all components agree, `Less` if `a` is
/// componentwise at most `b` (and they differ), `Greater` in the converse case, and no order
/// when some component is smaller and another larger.
pub open spec fn clock_order(a: Seq<u32>, b: Seq<u32>) -> Option<Ordering> {
    if same_clock(a, b) {
        Some(Ordering::Equal)
    } else if all_le(a, b) {
        Some(Ordering::Less)
    } else if all_le(b, a) {
        Some(Ordering::Greater)
    } else {
        None
    }
}

/// The componentwise maximum of two clocks, as long as the longer one.
pub open spec fn merged(a: Seq<u32>, b: Seq<u32>) -> Seq<u32> {
    Seq::new(
        if a.len() >= b.len() { a.len() } else { b.len() },
        |i: int| larger(entry(a, i), entry(b, i)) as u32,
    )
}

/// The clock with component `index` one larger, extended with zeros to reach that component.
pub open spec fn bumped(a: Seq<u32>, index: int) -> Seq<u32> {
    Seq::new(
        if index < a.len() { a.len() } else { (index + 1) as nat },
        |i: int| if i == index { (entry(a, i) + 1) as u32 } else { entry(a, i) as u32 },
    )
}

/// The number of components up to and including the last nonzero one.
pub open spec fn significant_len(s: Seq<u32>) -> nat
    decreases s.len(),
{
    if s.len() == 0 {
        0
    } else if s.last() == 0 {
        significant_len(s.drop_last())
    } else {
        s.len()
    }
}

/// The components that determine a clock: those up to the last nonzero one.
pub open spec fn significant(s: Seq<u32>) -> Seq<u32> {
    s.take(significant_len(s) as int)
}

/// The text of the components, each followed by `", "`.
pub open spec fn components_text(s: Seq<u32>) -> Seq<char>
    decreases s.len(),
{
    if s.len() == 0 {
        Seq::empty()
    } else {
        components_text(s.drop_last()) + decimal(s.last() as nat) + seq![',', ' ']
    }
}

/// The rendering of a clock: `<`, each component followed by `", "`, then `...>`.
pub open spec fn clock_text(s: Seq<u32>) -> Seq<char> {
    seq!['<'] + components_text(s) + seq!['.', '.', '.', '>']
}

impl VectorClock {
    /// Instantiates a vector clock with no components (all zero).
    pub fn new() -> (r: Self)
        ensures
            r@ == Seq::<u32>::empty(),
    {
        VectorClock(Vec::new())
    }

    /// Creates a new vector clock that merges two other vector clocks by picking the maximum
    /// clock component of each corresponding element.
    pub fn merge_max(c1: &VectorClock, c2: &VectorClock) -> (r: Self)
        ensures
            r@ == merged(c1@, c2@),
    {
        let a = &c1.0;
        let b = &c2.0;
        let n = if a.len() >= b.len() {
            a.len()
        } else {
            b.len()
        };
        let mut result: Vec<u32> = Vec::new();
        let mut i: usize = 0;
        while i < n
            invariant
                i <= n,
                n == if a@.len() >= b@.len() { a@.len() } else { b@.len() },
                a@ == c1@,
                b@ == c2@,
                result@.len() == i,
                forall|j: int| 0 <= j < i ==> result@[j] == merged(c1@, c2@)[j],
            decreases n - i,
        {
            let v1: u32 = if i < a.len() {
                a[i]
            } else {
                0
            };
            let v2: u32 = if i < b.len() {
                b[i]
            } else {
                0
            };
            let m: u32 = if v1 >= v2 {
                v1
            } else {
                v2
            };
            result.push(m);
            i = i + 1;
        }
        assert(result@ =~= merged(c1@, c2@));
        VectorClock(result)
    }

    /// Creates a new vector clock that increments a component of a previous vector clock,
    /// extending the clock with zeros if the component is past its end.
    pub fn incremented(self, index: usize) -> (r: Self)
        requires
            entry(self@, index as int) < u32::MAX,
            index < usize::MAX,
        ensures
            r@ == bumped(self@, index as int),
    {
        let mut v = self.0;
        let ghost orig = v@;
        while v.len() <= index
            invariant
                index < usize::MAX,
                orig.len() <= v@.len(),
                v@.len() <= index + 1 || v@.len() == orig.len(),
                forall|j: int| 0 <= j < v@.len() ==> v@[j] == entry(orig, j),
            decreases index + 1 - v.len(),
        {
            v.push(0);
        }
        let old_value = v[index];
        v.set(index, old_value + 1);
        assert(v@ =~= bumped(orig, index as int));
        VectorClock(v)
    }

    /// The number of components up to and including the last nonzero one; the components
    /// after it are zero and do not distinguish the clock.
    pub fn significant_len(&self) -> (r: usize)
        ensures
            r == significant_len(self@),
    {
        let mut n = self.0.len();
        assert(self@.take(n as int) =~= self@);
        while n > 0 && self.0[n - 1] == 0
            invariant
                n <= self@.len(),
                significant_len(self@) == significant_len(self@.take(n as int)),
            decreases n,
        {
            assert(self@.take(n as int).drop_last() =~= self@.take(n - 1));
            n = n - 1;
        }
        assert(self@.take(n as int).len() == n);
        if n > 0 {
            assert(self@.take(n as int).last() == self@[n - 1]);
        }
        n
    }

    /// Renders the clock as `<c0, c1, ..., ...>`; equal clocks need not render alike.
    pub fn display_text(&self) -> (r: String)
        ensures
            r@ == clock_text(self@),
    {
        let mut text = String::from_str("<");
        proof {
            reveal_strlit("<");
        }
        let mut i: usize = 0;
        while i < self.0.len()
            invariant
                i <= self@.len(),
                text@ == seq!['<'] + components_text(self@.take(i as int)),
            decreases self@.len() - i,
        {
            let digits = u64_decimal(self.0[i] as u64);
            text.append(digits.as_str());
            text.append(", ");
            proof {
                reveal_strlit(", ");
                assert(self@.take(i + 1).drop_last() =~= self@.take(i as int));
                assert(self@.take(i + 1).last() == self@[i as int]);
            }
            assert(text@ =~= seq!['<'] + components_text(self@.take(i + 1)));
            i = i + 1;
        }
        text.append("...>");
        proof {
            reveal_strlit("...>");
            assert(self@.take(self@.len() as int) =~= self@);
        }
        assert(text@ =~= clock_text(self@));
        text
    }
}

/// Whether two component vectors denote the same clock (missing components being zero).
fn same_components(a: &Vec<u32>, b: &Vec<u32>) -> (r: bool)
    ensures
        r == same_clock(a@, b@),
{
    let n = if a.len() >= b.len() {
        a.len()
    } else {
        b.len()
    };
    let mut i: usize = 0;
    while i < n
        invariant
            i <= n,
            n == if a@.len() >= b@.len() { a@.len() } else { b@.len() },
            forall|j: int| 0 <= j < i ==> entry(a@, j) == entry(b@, j),
        decreases n - i,
    {
        let x: u32 = if i < a.len() {
            a[i]
        } else {
            0
        };
        let y: u32 = if i < b.len() {
            b[i]
        } else {
            0
        };
        if x != y {
            assert(entry(a@, i as int) != entry(b@, i as int));
            return false;
        }
        i = i + 1;
    }
    assert forall|j: int| #[trigger] entry(a@, j) == #[trigger] entry(b@, j) by {
        if 0 <= j < n {
        }
    }
    true
}

impl Default for VectorClock {
    fn default() -> (r: Self)
        ensures
            r@ == Seq::<u32>::empty(),
    {
        VectorClock::new()
    }
}

impl From<Vec<u32>> for VectorClock {
    fn from(v: Vec<u32>) -> (r: Self)
        ensures
            r@ == v@,
    {
        VectorClock(v)
    }
}

impl FromSpecImpl<Vec<u32>> for VectorClock {
    open spec fn obeys_from_spec() -> bool {
        true
    }

    closed spec fn from_spec(v: Vec<u32>) -> Self {
        VectorClock(v)
    }
}

/// A clock built from a vector has that vector's components.
pub broadcast proof fn from_vec_view(v: Vec<u32>)
    ensures
        #[trigger] <VectorClock as FromSpec<Vec<u32>>>::from_spec(v)@ == v@,
{
}

impl PartialEq for VectorClock {
    fn eq(&self, rhs: &Self) -> (r: bool) {
        same_components(&self.0, &rhs.0)
    }
}

impl PartialEqSpecImpl for VectorClock {
    open spec fn obeys_eq_spec() -> bool {
        true
    }

    open spec fn eq_spec(&self, other: &Self) -> bool {
        same_clock(self@, other@)
    }
}

impl Eq for VectorClock {
}

/// Hashes only the significant components, so clocks that are equal (they differ only by trailing
/// zeros) hash alike.
impl core::hash::Hash for VectorClock {
    fn hash<H: core::hash::Hasher>(&self, state: &mut H) {
        let c = self.significant_components();
        feed(&c, state);
    }
}

impl VectorClock {
    /// The significant components: those up to and including the last nonzero one.
    pub fn significant_components(&self) -> (r: &[u32])
        ensures
            r@ == significant(self@),
    {
        let n = self.significant_len();
        proof {
            significant_len_bound(self@);
        }
        vstd::slice::slice_subrange(self.0.as_slice(), 0, n)
    }
}

/// The significant length never exceeds the length.
pub proof fn significant_len_bound(s: Seq<u32>)
    ensures
        significant_len(s) <= s.len(),
    decreases s.len(),
{
    if s.len() > 0 && s.last() == 0 {
        significant_len_bound(s.drop_last());
    }
}


/// Component `i` of a clock, for an executable index.
pub open spec fn entry_at(s: Seq<u32>, i: usize) -> int {
    entry(s, i as int)
}

/// Components `0..i` of `a` and `b` are equal.
pub open spec fn equal_below(a: Seq<u32>, b: Seq<u32>, i: usize) -> bool {
    forall|j: int| 0 <= j < i ==> entry(a, j) == entry(b, j)
}

/// Components `0..i` of `a` are at most those of `b`.
pub open spec fn le_below(a: Seq<u32>, b: Seq<u32>, i: usize) -> bool {
    forall|j: int| 0 <= j < i ==> entry(a, j) <= entry(b, j)
}

/// The length of the longer of two clocks.
pub open spec fn longer_len(a: Seq<u32>, b: Seq<u32>) -> nat {
    if a.len() >= b.len() {
        a.len()
    } else {
        b.len()
    }
}

/// Compares two component vectors in the causal order.
fn order_components(a: &Vec<u32>, b: &Vec<u32>) -> (r: Option<Ordering>)
    ensures
        r == clock_order(a@, b@),
{
    let n = if a.len() >= b.len() {
        a.len()
    } else {
        b.len()
    };
    let mut expected = Ordering::Equal;
    let mut i: usize = 0;
    while i < n
        invariant
            i <= n,
            n == longer_len(a@, b@),
            (expected == Ordering::Equal) == equal_below(a@, b@, i),
            expected == Ordering::Less ==> le_below(a@, b@, i),
            expected == Ordering::Greater ==> le_below(b@, a@, i),
        decreases n - i,
    {
        let x: u32 = if i < a.len() {
            a[i]
        } else {
            0
        };
        let y: u32 = if i < b.len() {
            b[i]
        } else {
            0
        };
        assert(entry_at(a@, i) == x && entry_at(b@, i) == y);
        let ordering = if x < y {
            Ordering::Less
        } else if x > y {
            Ordering::Greater
        } else {
            Ordering::Equal
        };
        let conflict = match (expected, ordering) {
            (Ordering::Less, Ordering::Greater) => true,
            (Ordering::Greater, Ordering::Less) => true,
            _ => false,
        };
        if matches!(expected, Ordering::Equal) {
            expected = ordering;
        } else if conflict {
            proof {
                assert(!all_le(a@, b@) || !all_le(b@, a@)) by {
                    if expected == Ordering::Less {
                        assert(entry_at(a@, i) > entry_at(b@, i));
                    } else {
                        assert(entry_at(a@, i) < entry_at(b@, i));
                    }
                }
                assert(!equal_below(a@, b@, i));
                let k = choose|k: int| 0 <= k < i && entry(a@, k) != entry(b@, k);
                assert(entry(a@, k) != entry(b@, k));
            }
            return None;
        }
        i = i + 1;
    }
    proof {
        assert forall|j: int| #![trigger entry(a@, j), entry(b@, j)] n <= j implies entry(a@, j) == 0 && entry(b@, j) == 0 by {
        }
        if expected == Ordering::Equal {
            assert forall|j: int| #[trigger] entry(a@, j) == #[trigger] entry(b@, j) by {
                if 0 <= j < n {
                }
            }
        } else if expected == Ordering::Less {
            assert forall|j: int| #[trigger] entry(a@, j) <= #[trigger] entry(b@, j) by {
                if 0 <= j < n {
                }
            }
            let k = choose|k: int| 0 <= k < i && entry(a@, k) != entry(b@, k);
            assert(entry(a@, k) != entry(b@, k));
        } else {
            assert forall|j: int| #[trigger] entry(b@, j) <= #[trigger] entry(a@, j) by {
                if 0 <= j < n {
                }
            }
            let k = choose|k: int| 0 <= k < i && entry(a@, k) != entry(b@, k);
            assert(entry(a@, k) != entry(b@, k));
        }
    }
    Some(expected)
}

impl PartialOrd for VectorClock {
    fn partial_cmp(&self, rhs: &Self) -> (r: Option<Ordering>) {
        order_components(&self.0, &rhs.0)
    }
}

impl PartialOrdSpecImpl for VectorClock {
    open spec fn obeys_partial_cmp_spec() -> bool {
        true
    }

    open spec fn partial_cmp_spec(&self, other: &Self) -> Option<Ordering> {
        clock_order(self@, other@)
    }
}


/// Component `i` of a merge is the larger of the two components.
pub proof fn merged_entry(a: Seq<u32>, b: Seq<u32>, i: int)
    ensures
        entry(merged(a, b), i) == larger(entry(a, i), entry(b, i)),
{
    let m = merged(a, b);
    if 0 <= i < m.len() {
        assert(entry(a, i) <= u32::MAX && entry(b, i) <= u32::MAX);
        assert(entry(a, i) >= 0 && entry(b, i) >= 0);
    }
}

/// Component `i` of a bumped clock.
pub proof fn bumped_entry(a: Seq<u32>, index: int, i: int)
    requires
        0 <= index,
        entry(a, index) < u32::MAX,
    ensures
        entry(bumped(a, index), i) == if i == index { entry(a, i) + 1 } else { entry(a, i) },
{
    if 0 <= i < bumped(a, index).len() {
        assert(0 <= entry(a, i) <= u32::MAX);
    }
}

/// Merging is commutative: `merge_max(a, b)` and `merge_max(b, a)` are the same clock.
pub proof fn merge_is_commutative(a: Seq<u32>, b: Seq<u32>)
    ensures
        merged(a, b) == merged(b, a),
{
    assert(merged(a, b) =~= merged(b, a));
}

/// Merging is associative.
pub proof fn merge_is_associative(a: Seq<u32>, b: Seq<u32>, c: Seq<u32>)
    ensures
        merged(a, merged(b, c)) == merged(merged(a, b), c),
{
    let l = merged(a, merged(b, c));
    let r = merged(merged(a, b), c);
    assert forall|i: int| 0 <= i < l.len() implies l[i] == r[i] by {
        merged_entry(b, c, i);
        merged_entry(a, b, i);
        merged_entry(a, merged(b, c), i);
        merged_entry(merged(a, b), c, i);
    }
    assert(l =~= r);
}

/// Merging a clock with itself gives the clock back unchanged.
pub proof fn merge_is_idempotent(a: Seq<u32>)
    ensures
        merged(a, a) == a,
{
    assert(merged(a, a) =~= a);
}

/// A merge is the least upper bound of its inputs in the componentwise order.
pub proof fn merge_is_least_upper_bound(a: Seq<u32>, b: Seq<u32>, c: Seq<u32>)
    ensures
        all_le(a, merged(a, b)),
        all_le(b, merged(a, b)),
        all_le(a, c) && all_le(b, c) ==> all_le(merged(a, b), c),
{
    assert forall|i: int| #[trigger] entry(a, i) <= #[trigger] entry(merged(a, b), i) by {
        merged_entry(a, b, i);
    }
    assert forall|i: int| #[trigger] entry(b, i) <= #[trigger] entry(merged(a, b), i) by {
        merged_entry(a, b, i);
    }
    if all_le(a, c) && all_le(b, c) {
        assert forall|i: int| #[trigger] entry(merged(a, b), i) <= #[trigger] entry(c, i) by {
            merged_entry(a, b, i);
            assert(entry(a, i) <= entry(c, i));
            assert(entry(b, i) <= entry(c, i));
        }
    }
}

/// Incrementing a component yields a clock strictly after the original.
pub proof fn increment_advances(a: Seq<u32>, index: int)
    requires
        0 <= index,
        entry(a, index) < u32::MAX,
    ensures
        clock_order(a, bumped(a, index)) == Some(Ordering::Less),
        clock_order(bumped(a, index), a) == Some(Ordering::Greater),
{
    let b = bumped(a, index);
    assert forall|i: int| #[trigger] entry(a, i) <= #[trigger] entry(b, i) by {
        bumped_entry(a, index, i);
    }
    bumped_entry(a, index, index);
    assert(entry(a, index) != entry(b, index));
    assert(!same_clock(a, b));
    assert(!all_le(b, a));
}

/// The causal order is antisymmetric: swapping the clocks swaps `Less` and `Greater` and keeps
/// `Equal` and incomparability.
pub proof fn order_is_antisymmetric(a: Seq<u32>, b: Seq<u32>)
    ensures
        (clock_order(a, b) == Some(Ordering::Less)) == (clock_order(b, a) == Some(Ordering::Greater)),
        (clock_order(a, b) == Some(Ordering::Equal)) == (clock_order(b, a) == Some(Ordering::Equal)),
        (clock_order(a, b) is None) == (clock_order(b, a) is None),
{
    assert(same_clock(a, b) == same_clock(b, a));
    if all_le(a, b) && all_le(b, a) {
        assert forall|i: int| #[trigger] entry(a, i) == #[trigger] entry(b, i) by {
            assert(entry(a, i) <= entry(b, i));
            assert(entry(b, i) <= entry(a, i));
        }
    }
}

/// The causal order is transitive.
pub proof fn order_is_transitive(a: Seq<u32>, b: Seq<u32>, c: Seq<u32>)
    requires
        clock_order(a, b) == Some(Ordering::Less),
        clock_order(b, c) == Some(Ordering::Less),
    ensures
        clock_order(a, c) == Some(Ordering::Less),
{
    assert forall|i: int| #[trigger] entry(a, i) <= #[trigger] entry(c, i) by {
        assert(entry(a, i) <= entry(b, i));
        assert(entry(b, i) <= entry(c, i));
    }
    if same_clock(a, c) {
        assert forall|i: int| #[trigger] entry(a, i) == #[trigger] entry(b, i) by {
            assert(entry(a, i) <= entry(b, i));
            assert(entry(b, i) <= entry(c, i));
            assert(entry(a, i) == entry(c, i));
        }
    }
}

/// The significant prefix has no trailing zero, and every component after it is zero.
pub proof fn significant_shape(s: Seq<u32>)
    ensures
        significant_len(s) <= s.len(),
        significant_len(s) > 0 ==> s[significant_len(s) - 1] != 0,
        forall|i: int| significant_len(s) <= i < s.len() ==> s[i] == 0,
    decreases s.len(),
{
    if s.len() > 0 && s.last() == 0 {
        let t = s.drop_last();
        significant_shape(t);
        assert forall|i: int| significant_len(s) <= i < s.len() implies s[i] == 0 by {
            if i < t.len() {
                assert(t[i] == s[i]);
            }
        }
    }
}

/// Equal clocks have the same significant components, so they hash alike; and clocks with the
/// same significant components are equal.
pub proof fn equal_clocks_hash_alike(a: Seq<u32>, b: Seq<u32>)
    ensures
        same_clock(a, b) == (significant(a) == significant(b)),
{
    significant_shape(a);
    significant_shape(b);
    let na = significant_len(a) as int;
    let nb = significant_len(b) as int;
    if same_clock(a, b) {
        if na < nb {
            assert(entry(a, nb - 1) == entry(b, nb - 1));
        } else if nb < na {
            assert(entry(a, na - 1) == entry(b, na - 1));
        }
        assert forall|i: int| 0 <= i < na implies significant(a)[i] == significant(b)[i] by {
            assert(entry(a, i) == entry(b, i));
        }
        assert(significant(a) =~= significant(b));
    }
    if significant(a) == significant(b) {
        assert(significant(a).len() == na && significant(b).len() == nb);
        assert forall|i: int| #[trigger] entry(a, i) == #[trigger] entry(b, i) by {
            if 0 <= i < na {
                assert(significant(a)[i] == significant(b)[i]);
            } else if na <= i {
                assert(entry(a, i) == 0);
                assert(entry(b, i) == 0);
            }
        }
    }
}

} // verus!
