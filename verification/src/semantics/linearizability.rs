//! The [`LinearizabilityTester`].
//!
//! The tester captures a potentially concurrent history of operations and validates that it
//! adheres to a [`SequentialSpec`] based on the linearizability consistency model: operations
//! are applied atomically, and sequenced (non-concurrent) operations are applied in order, even
//! across threads. Upon starting an operation, the tester records the index of the last
//! operation completed by every other thread; a serialization may not place the operation before
//! any of those.

use crate::semantics::assoc_list::{
    assoc_map, distinct_keys, find_key, has_key, lemma_assoc_index, lemma_assoc_insert,
    lemma_assoc_remove, lemma_assoc_update, sorted_position,
};
use crate::semantics::linearization::{
    all_taken, held_back, is_linearization, linearizes, none_taken, step,
};
use crate::semantics::{
    clone_exact, clone_keeps_view, exact_clone, exact_eq, ConsistencyTester, SequentialSpec,
};
use core::fmt::Debug;
use std::collections::{BTreeMap, VecDeque};
use vstd::prelude::*;

verus! {

/// For each other thread, the index of its last completed operation when an operation started.
pub type LastCompleted<T> = Vec<(T, usize)>;

/// A completed operation: the operations it must follow, the operation, and its return value.
pub type Complete<T, Op, Ret> = (LastCompleted<T>, Op, Ret);

/// An operation in flight: the operations it must follow, and the operation.
pub type InFlight<T, Op> = (LastCompleted<T>, Op);

/// This tester captures a potentially concurrent history of operations and validates that it
/// adheres to a [`SequentialSpec`] based on the linearizability consistency model.
///
/// Threads are kept in `Ord` order of their identifiers. The contracts that speak of threads
/// hold for identifier types whose `==` is equality of values (`exact_eq`), such as the integer
/// types.
#[derive(Debug, Eq, Hash, PartialEq)]
pub struct LinearizabilityTester<T: PartialEq, RefObj: SequentialSpec> {
    init_ref_obj: RefObj,
    history_by_thread: Vec<(T, Vec<Complete<T, RefObj::Op, RefObj::Ret>>)>,
    in_flight_by_thread: Vec<(T, InFlight<T, RefObj::Op>)>,
    is_valid_history: bool,
}

/// A sequence of pairs, each a clone of the corresponding pair of `src`.
pub open spec fn clones_of<A: Clone, B: Clone>(out: Seq<(A, B)>, src: Seq<(A, B)>) -> bool {
    &&& out.len() == src.len()
    &&& forall|i: int|
        0 <= i < out.len() ==> cloned(src[i].0, (#[trigger] out[i]).0) && cloned(src[i].1, out[i].1)
}

/// The sum of a sequence of integers.
pub open spec fn seq_sum(s: Seq<int>) -> int
    decreases s.len(),
{
    if s.len() == 0 {
        0
    } else {
        seq_sum(s.drop_last()) + s.last()
    }
}

/// Replacing one term changes the sum by the difference.
pub proof fn lemma_seq_sum_update(s: Seq<int>, j: int, v: int)
    requires
        0 <= j < s.len(),
    ensures
        seq_sum(s.update(j, v)) == seq_sum(s) - s[j] + v,
    decreases s.len(),
{
    let t = s.update(j, v);
    if j == s.len() - 1 {
        assert(t.drop_last() =~= s.drop_last());
    } else {
        assert(t.drop_last() =~= s.drop_last().update(j, v));
        lemma_seq_sum_update(s.drop_last(), j, v);
    }
}

/// The number of entries in the lists of an association list.
pub open spec fn total<T, C>(hist: Seq<(T, Vec<C>)>) -> int {
    seq_sum(Seq::new(hist.len(), |j: int| hist[j].1@.len() as int))
}

/// Inserting an empty list leaves the number of entries unchanged.
proof fn lemma_total_insert_empty<T, C>(s: Seq<(T, Vec<C>)>, q: int, t: T, v: Vec<C>)
    requires
        0 <= q <= s.len(),
        v@.len() == 0,
    ensures
        total(s.insert(q, (t, v))) == total(s),
    decreases s.len(),
{
    let si = s.insert(q, (t, v));
    let a = Seq::new(s.len(), |j: int| s[j].1@.len() as int);
    let b = Seq::new(si.len(), |j: int| si[j].1@.len() as int);
    if q == s.len() {
        assert(b.drop_last() =~= a);
    } else {
        let s2 = s.drop_last();
        lemma_total_insert_empty(s2, q, t, v);
        let si2 = s2.insert(q, (t, v));
        assert(si.drop_last() =~= si2);
        assert(b.drop_last() =~= Seq::new(si2.len(), |j: int| si2[j].1@.len() as int));
        assert(a.drop_last() =~= Seq::new(s2.len(), |j: int| s2[j].1@.len() as int));
        assert(b.last() == a.last());
    }
}

/// Replacing the list of an entry changes the number of entries by the difference.
proof fn lemma_total_update<T, C>(s: Seq<(T, Vec<C>)>, i: int, k: T, w: Vec<C>)
    requires
        0 <= i < s.len(),
    ensures
        total(s.update(i, (k, w))) == total(s) - s[i].1@.len() + w@.len(),
{
    let su = s.update(i, (k, w));
    let a = Seq::new(s.len(), |j: int| s[j].1@.len() as int);
    lemma_seq_sum_update(a, i, w@.len() as int);
    assert(Seq::new(su.len(), |j: int| su[j].1@.len() as int) =~= a.update(i, w@.len() as int));
}

/// A sum of nonnegative terms is nonnegative, and termwise-larger sequences have larger sums.
pub proof fn lemma_seq_sum_le(a: Seq<int>, b: Seq<int>)
    requires
        a.len() == b.len(),
        forall|i: int| 0 <= i < a.len() ==> a[i] <= b[i],
    ensures
        seq_sum(a) <= seq_sum(b),
    decreases a.len(),
{
    if a.len() > 0 {
        lemma_seq_sum_le(a.drop_last(), b.drop_last());
    }
}

/// The snapshot that an operation of thread `t` records when it starts: for every other thread
/// with completed operations, the index of its last completed one.
pub open spec fn snapshot<T, C>(completed: Map<T, Seq<C>>, t: T) -> Map<T, usize> {
    Map::new(
        |p: T| completed.contains_key(p) && p != t && completed[p].len() > 0,
        |p: T| (completed[p].len() - 1) as usize,
    )
}

/// The threads and their completed operations, with the lists read as sequences.
pub open spec fn history_views<T, C>(s: Seq<(T, Vec<C>)>) -> Seq<(T, Seq<C>)> {
    s.map_values(|p: (T, Vec<C>)| (p.0, p.1@))
}

impl<T: PartialEq, RefObj: SequentialSpec> LinearizabilityTester<T, RefObj> {
    /// The tester's internal lists are well formed: no thread appears twice, and every thread
    /// with an operation in flight has an entry among the completed histories.
    pub closed spec fn wf(&self) -> bool {
        &&& distinct_keys(self.history_by_thread@)
        &&& distinct_keys(self.in_flight_by_thread@)
        &&& forall|t: T|
            has_key(self.in_flight_by_thread@, t) ==> has_key(self.history_by_thread@, t)
    }

    /// Whether the recorded history is valid so far (no thread invoked twice without returning,
    /// and no return came without an invocation).
    pub closed spec fn valid(&self) -> bool {
        self.is_valid_history
    }

    /// The abstract state of the reference object that operations start from.
    pub closed spec fn init(&self) -> RefObj::V {
        self.init_ref_obj@
    }

    /// The completed operations of each thread, in completion order.
    pub closed spec fn completed(&self) -> Map<T, Seq<Complete<T, RefObj::Op, RefObj::Ret>>> {
        assoc_map(history_views(self.history_by_thread@))
    }

    /// The operation in flight for each thread that has one.
    pub closed spec fn in_flight(&self) -> Map<T, InFlight<T, RefObj::Op>> {
        assoc_map(self.in_flight_by_thread@)
    }

    /// The number of completed operations across all threads.
    pub closed spec fn completed_count(&self) -> int {
        total(self.history_by_thread@)
    }

    /// The number of operations completed or in flight across all threads.
    pub closed spec fn op_count(&self) -> int {
        self.completed_count() + self.in_flight_by_thread@.len()
    }
}

impl<T: PartialEq, RefObj: SequentialSpec> LinearizabilityTester<T, RefObj> {
    /// When thread identifiers compare exactly, the internal lists are well formed.
    #[verifier::type_invariant]
    spec fn inv(self) -> bool {
        exact_eq::<T>() ==> self.wf()
    }
}

/// Copies an association list: keys are copied exactly, values cloned.
fn copy_assoc<K: Copy, X: Clone>(s: &Vec<(K, X)>) -> (r: Vec<(K, X)>)
    ensures
        r@.len() == s@.len(),
        forall|i: int|
            0 <= i < s@.len() ==> (#[trigger] r@[i]).0 == s@[i].0 && cloned(s@[i].1, r@[i].1),
{
    let mut r: Vec<(K, X)> = Vec::new();
    let mut i: usize = 0;
    while i < s.len()
        invariant
            i <= s@.len(),
            r@.len() == i,
            forall|j: int|
                0 <= j < i ==> (#[trigger] r@[j]).0 == s@[j].0 && cloned(s@[j].1, r@[j].1),
        decreases s@.len() - i,
    {
        let v = s[i].1.clone();
        r.push((s[i].0, v));
        i = i + 1;
    }
    r
}

/// Keys copied index by index keep the lists' key structure.
proof fn lemma_same_keys<K, X, Y>(a: Seq<(K, X)>, b: Seq<(K, Y)>)
    requires
        a.len() == b.len(),
        forall|i: int| 0 <= i < a.len() ==> (#[trigger] a[i]).0 == b[i].0,
    ensures
        distinct_keys(a) ==> distinct_keys(b),
        forall|k: K| has_key(a, k) <==> has_key(b, k),
{
    assert forall|k: K| has_key(a, k) <==> has_key(b, k) by {
        if has_key(a, k) {
            let i = choose|i: int| 0 <= i < a.len() && (#[trigger] a[i]).0 == k;
            assert(b[i].0 == k);
        }
        if has_key(b, k) {
            let i = choose|i: int| 0 <= i < b.len() && (#[trigger] b[i]).0 == k;
            assert(a[i].0 == k);
        }
    }
    if distinct_keys(a) {
        assert forall|i: int, j: int| 0 <= i < j < b.len() implies (#[trigger] b[i]).0 != (
        #[trigger] b[j]).0 by {
            assert(a[i].0 != a[j].0);
        }
    }
}

impl<T: PartialEq + Copy, RefObj: SequentialSpec + Clone> Clone for LinearizabilityTester<
    T,
    RefObj,
> where RefObj::Op: Clone, RefObj::Ret: Clone {
    fn clone(&self) -> (r: Self)
        ensures
            r.valid() == self.valid(),
            clone_keeps_view::<RefObj>() ==> r.init() == self.init(),
    {
        proof {
            use_type_invariant(self);
        }
        let history_by_thread = copy_assoc(&self.history_by_thread);
        let in_flight_by_thread = copy_assoc(&self.in_flight_by_thread);
        proof {
            lemma_same_keys(self.history_by_thread@, history_by_thread@);
            lemma_same_keys(self.in_flight_by_thread@, in_flight_by_thread@);
        }
        let init_ref_obj = self.init_ref_obj.clone();
        assert(vstd::pervasive::strictly_cloned(self.init_ref_obj, init_ref_obj));
        LinearizabilityTester {
            init_ref_obj,
            history_by_thread,
            in_flight_by_thread,
            is_valid_history: self.is_valid_history,
        }
    }
}

/// Reading the histories as sequences commutes with list edits, and keeps the keys.
proof fn lemma_history_views<T, C>(s: Seq<(T, Vec<C>)>)
    ensures
        history_views(s).len() == s.len(),
        forall|i: int| 0 <= i < s.len() ==> #[trigger] history_views(s)[i] == (s[i].0, s[i].1@),
        distinct_keys(s) ==> distinct_keys(history_views(s)),
        forall|k: T| has_key(s, k) <==> has_key(history_views(s), k),
{
    let h = history_views(s);
    assert forall|k: T| has_key(s, k) <==> has_key(h, k) by {
        if has_key(s, k) {
            let i = choose|i: int| 0 <= i < s.len() && (#[trigger] s[i]).0 == k;
            assert(h[i].0 == k);
        }
        if has_key(h, k) {
            let i = choose|i: int| 0 <= i < h.len() && (#[trigger] h[i]).0 == k;
            assert(s[i].0 == k);
        }
    }
    if distinct_keys(s) {
        assert forall|i: int, j: int| 0 <= i < j < h.len() implies (#[trigger] h[i]).0 != (
        #[trigger] h[j]).0 by {
            assert(s[i].0 != s[j].0);
        }
    }
}

/// The message for a history that was already invalid.
fn earlier_invalid_message() -> (r: String)
    ensures
        r@ == "Earlier history was invalid."@,
{
    String::from_str("Earlier history was invalid.")
}

/// The message for a thread that invokes while an operation of it is in flight, listing the
/// histories by thread as a map of queues.
#[verifier::external_body]
fn in_flight_message<T: Debug + Ord + Copy, Op: Debug, Ret: Debug>(
    thread_id: &T,
    op: &Op,
    history_by_thread: &Vec<(T, Vec<Complete<T, Op, Ret>>)>,
) -> String {
    let history: BTreeMap<T, VecDeque<(BTreeMap<T, usize>, &Op, &Ret)>> = history_by_thread.iter().map(
        |(t, cs)| (*t, cs.iter().map(|(l, o, r)| (l.iter().copied().collect(), o, r)).collect()),
    ).collect();
    format!(
        "Thread already has an operation in flight. thread_id={:?}, op={:?}, history_by_thread={:?}",
        thread_id, op, history)
}

/// The message for a thread that returns with no operation in flight, listing that thread's
/// completed operations.
#[verifier::external_body]
fn no_in_flight_message<T: Debug + Ord + Copy, Op: Debug, Ret: Debug>(
    thread_id: &T,
    ret: &Ret,
    history: &Vec<Complete<T, Op, Ret>>,
) -> String {
    let history: VecDeque<(BTreeMap<T, usize>, &Op, &Ret)> = history.iter().map(
        |(l, o, r)| (l.iter().copied().collect(), o, r),
    ).collect();
    format!(
        "There is no in-flight invocation for this thread ID. thread_id={:?}, unexpected_return={:?}, history={:?}",
        thread_id, ret, history)
}

impl<T: PartialEq + Copy + Debug + Ord, RefObj: SequentialSpec> LinearizabilityTester<T, RefObj> where
    RefObj::Op: Debug,
    RefObj::Ret: Debug,
 {
    /// Constructs a [`LinearizabilityTester`].
    pub fn new(init_ref_obj: RefObj) -> (r: Self)
        ensures
            r.valid(),
            r.init() == init_ref_obj@,
            r.completed() == Map::<T, Seq<Complete<T, RefObj::Op, RefObj::Ret>>>::empty(),
            r.in_flight() == Map::<T, InFlight<T, RefObj::Op>>::empty(),
            r.op_count() == 0,
    {
        let r = LinearizabilityTester {
            init_ref_obj,
            history_by_thread: Vec::new(),
            in_flight_by_thread: Vec::new(),
            is_valid_history: true,
        };
        assert(r.completed() =~= Map::<T, Seq<Complete<T, RefObj::Op, RefObj::Ret>>>::empty());
        assert(r.in_flight() =~= Map::<T, InFlight<T, RefObj::Op>>::empty());
        r
    }

    /// Indicates the aggregate number of operations completed or in flight across all threads.
    pub fn len(&self) -> (r: usize)
        requires
            self.op_count() <= usize::MAX,
        ensures
            r == self.op_count(),
    {
        let ghost lens = Seq::new(
            self.history_by_thread@.len(),
            |j: int| self.history_by_thread@[j].1@.len() as int,
        );
        let mut len = self.in_flight_by_thread.len();
        let mut j: usize = 0;
        while j < self.history_by_thread.len()
            invariant
                j <= self.history_by_thread@.len(),
                lens.len() == self.history_by_thread@.len(),
                forall|i: int| 0 <= i < lens.len() ==> #[trigger] lens[i] == self.history_by_thread@[i].1@.len(),
                forall|i: int| 0 <= i < lens.len() ==> 0 <= #[trigger] lens[i],
                seq_sum(lens) + self.in_flight_by_thread@.len() <= usize::MAX,
                len == seq_sum(lens.take(j as int)) + self.in_flight_by_thread@.len(),
            decreases self.history_by_thread@.len() - j,
        {
            proof {
                assert(lens.take(j + 1).drop_last() =~= lens.take(j as int));
                lemma_seq_sum_le(
                    lens.take(j + 1) + Seq::new((lens.len() - j - 1) as nat, |i: int| 0int),
                    lens,
                );
                assert(seq_sum(lens.take(j + 1) + Seq::new((lens.len() - j - 1) as nat, |i: int| 0int)) == seq_sum(lens.take(j + 1))) by {
                    lemma_sum_zero_suffix(lens.take(j + 1), (lens.len() - j - 1) as nat);
                }
            }
            len = len + self.history_by_thread[j].1.len();
            j = j + 1;
        }
        proof {
            assert(lens.take(j as int) =~= lens);
        }
        len
    }
}

impl<T: PartialEq + Copy + Debug + Ord, RefObj: SequentialSpec> LinearizabilityTester<T, RefObj> where
    RefObj::Op: Debug,
    RefObj::Ret: Debug,
 {
    /// The snapshot list for an operation of `thread_id`: for every other thread with completed
    /// operations, the index of its last completed one, in thread order.
    fn last_completed(&self, thread_id: T) -> (r: LastCompleted<T>)
        ensures
            exact_eq::<T>() && self.wf() ==> distinct_keys(r@),
            exact_eq::<T>() && self.wf() ==> assoc_map(r@) == snapshot(self.completed(), thread_id),
    {
        let ghost hist = self.history_by_thread@;
        let mut out: Vec<(T, usize)> = Vec::new();
        let ghost mut src: Seq<int> = Seq::empty();
        let mut j: usize = 0;
        while j < self.history_by_thread.len()
            invariant
                hist == self.history_by_thread@,
                j <= hist.len(),
                exact_eq::<T>() && distinct_keys(hist) ==> distinct_keys(out@),
                src.len() == out@.len(),
                forall|x: int|
                    0 <= x < out@.len() ==> {
                        let i = #[trigger] src[x];
                        &&& 0 <= i < j
                        &&& hist[i].0 == out@[x].0
                        &&& hist[i].1@.len() > 0
                        &&& out@[x].1 == hist[i].1@.len() - 1
                    },
                exact_eq::<T>() ==> forall|i: int|
                    0 <= i < j && hist[i].0 != thread_id && hist[i].1@.len() > 0 ==> has_key(
                        out@,
                        (#[trigger] hist[i]).0,
                    ),
                exact_eq::<T>() ==> forall|x: int|
                    0 <= x < out@.len() ==> (#[trigger] out@[x]).0 != thread_id,
            decreases hist.len() - j,
        {
            let id = self.history_by_thread[j].0;
            let n = self.history_by_thread[j].1.len();
            let ghost prev = out@;
            let take = !(id == thread_id) && n > 0;
            if take {
                proof {
                    if exact_eq::<T>() && distinct_keys(hist) {
                        if has_key(out@, id) {
                            let x = choose|x: int| 0 <= x < out@.len() && (#[trigger] out@[x]).0 == id;
                            let i = src[x];
                            assert(hist[i].0 != hist[j as int].0);
                        }
                        lemma_assoc_insert(out@, out@.len() as int, id, (n - 1) as usize);
                        assert(out@.insert(out@.len() as int, (id, (n - 1) as usize)) =~= out@.push(
                            (id, (n - 1) as usize),
                        ));
                    }
                }
                out.push((id, n - 1));
                proof {
                    src = src.push(j as int);
                }
            }
            proof {
                if exact_eq::<T>() {
                    assert forall|i: int|
                        0 <= i < j + 1 && hist[i].0 != thread_id && hist[i].1@.len() > 0 implies has_key(
                        out@,
                        (#[trigger] hist[i]).0,
                    ) by {
                        if i < j {
                            assert(has_key(prev, hist[i].0));
                            let x = choose|x: int| 0 <= x < prev.len() && (#[trigger] prev[x]).0 == hist[i].0;
                            assert(out@[x] == prev[x]);
                        } else {
                            assert(out@[out@.len() - 1].0 == hist[i].0);
                        }
                    }
                    assert forall|x: int| 0 <= x < out@.len() implies (#[trigger] out@[x]).0 != thread_id by {
                        if x < prev.len() {
                            assert(out@[x] == prev[x]);
                        }
                    }
                }
            }
            j = j + 1;
        }
        proof {
            if exact_eq::<T>() && self.wf() {
                let h = history_views(hist);
                lemma_history_views(hist);
                let m = snapshot(self.completed(), thread_id);
                assert forall|k: T| #[trigger] m.contains_key(k) <==> has_key(out@, k) by {
                    if m.contains_key(k) {
                        let i = choose|i: int| 0 <= i < h.len() && (#[trigger] h[i]).0 == k;
                        lemma_assoc_index(h, i);
                        assert(hist[i].0 == k);
                    }
                    if has_key(out@, k) {
                        let x = choose|x: int| 0 <= x < out@.len() && (#[trigger] out@[x]).0 == k;
                        let i = src[x];
                        assert(h[i].0 == k);
                        lemma_assoc_index(h, i);
                    }
                }
                assert forall|x: int| 0 <= x < out@.len() implies m[(#[trigger] out@[x]).0] == out@[x].1 by {
                    let i = src[x];
                    lemma_assoc_index(h, i);
                }
                crate::semantics::assoc_list::lemma_assoc_same(out@, m);
            }
        }
        out
    }

    /// Records that a thread invoked an operation. Fails if the history was already invalid, or
    /// (making the history invalid) if the thread already has an operation in flight.
    pub fn record_invoke(&mut self, thread_id: T, op: RefObj::Op) -> (r: Result<(), String>)
        ensures
            !old(self).valid() ==> r is Err && *final(self) == *old(self),
            !old(self).valid() ==> (r matches Err(m) && m@ == "Earlier history was invalid."@),
            r is Err ==> !final(self).valid() && final(self).op_count() == old(self).op_count(),
            r is Ok ==> final(self).op_count() == old(self).op_count() + 1,
            r is Ok ==> old(self).valid() && final(self).valid(),
            final(self).init() == old(self).init(),
            old(self).valid() && exact_eq::<T>() ==> (r is Err <==> old(
                self,
            ).in_flight().contains_key(thread_id)),
            old(self).valid() && r is Err ==> !final(self).valid() && final(self).completed()
                == old(self).completed() && final(self).in_flight() == old(self).in_flight(),
            r is Ok && exact_eq::<T>() ==> {
                &&& final(self).in_flight().contains_key(thread_id)
                &&& final(self).in_flight()[thread_id].1 == op
                &&& assoc_map(final(self).in_flight()[thread_id].0@) == snapshot(
                    old(self).completed(),
                    thread_id,
                )
                &&& final(self).in_flight().remove(thread_id) == old(self).in_flight()
                &&& final(self).completed() == if old(self).completed().contains_key(thread_id) {
                    old(self).completed()
                } else {
                    old(self).completed().insert(thread_id, Seq::empty())
                }
            },
    {
        proof {
            use_type_invariant(&*self);
        }
        if !self.is_valid_history {
            return Err(earlier_invalid_message());
        }
        let found = find_key(&self.in_flight_by_thread, &thread_id);
        match found {
            Some(i) => {
                self.is_valid_history = false;
                let message = in_flight_message(
                    &thread_id,
                    &self.in_flight_by_thread[i].1.1,
                    &self.history_by_thread,
                );
                return Err(message);
            },
            None => {},
        }
        let last_completed = self.last_completed(thread_id);
        let ghost old_hist = self.history_by_thread@;
        let ghost old_flight = self.in_flight_by_thread@;
        let mut flight: Vec<(T, InFlight<T, RefObj::Op>)> = Vec::new();
        std::mem::swap(&mut self.in_flight_by_thread, &mut flight);
        let mut hist: Vec<(T, Vec<Complete<T, RefObj::Op, RefObj::Ret>>)> = Vec::new();
        std::mem::swap(&mut self.history_by_thread, &mut hist);
        let has_history = find_key(&hist, &thread_id);
        if has_history.is_none() {
            let q = sorted_position(&hist, &thread_id);
            let nv: Vec<Complete<T, RefObj::Op, RefObj::Ret>> = Vec::new();
            proof {
                if exact_eq::<T>() {
                    lemma_history_views(old_hist);
                    lemma_assoc_insert(old_hist, q as int, thread_id, nv);
                }
            }
            hist.insert(q, (thread_id, nv));
            proof {
                assert(hist@ == old_hist.insert(q as int, (thread_id, nv)));
                lemma_total_insert_empty(old_hist, q as int, thread_id, nv);
                if exact_eq::<T>() {
                    assert(hist@ == old_hist.insert(q as int, (thread_id, nv)));
                    lemma_history_views(hist@);
                    lemma_assoc_insert(history_views(old_hist), q as int, thread_id, nv@);
                    assert(history_views(hist@) =~= history_views(old_hist).insert(
                        q as int,
                        (thread_id, nv@),
                    ));
                    assert(nv@ =~= Seq::<Complete<T, RefObj::Op, RefObj::Ret>>::empty());
                    assert forall|t: T| has_key(old_flight, t) implies has_key(hist@, t) by {
                        assert(has_key(old_hist, t));
                        let i = choose|i: int|
                            0 <= i < old_hist.len() && (#[trigger] old_hist[i]).0 == t;
                        let ti = if i < q {
                            i
                        } else {
                            i + 1
                        };
                        assert(hist@[ti] == old_hist[i]);
                    }
                }
            }
        }
        let ghost mid_hist = hist@;
        assert(total(mid_hist) == total(old_hist));
        let p = sorted_position(&flight, &thread_id);
        proof {
            if exact_eq::<T>() {
                lemma_assoc_insert(old_flight, p as int, thread_id, (last_completed, op));
                lemma_history_views(mid_hist);
                assert forall|t: T|
                    has_key(
                        old_flight.insert(p as int, (thread_id, (last_completed, op))),
                        t,
                    ) implies has_key(mid_hist, t) by {
                    let s2 = old_flight.insert(p as int, (thread_id, (last_completed, op)));
                    let i = choose|i: int| 0 <= i < s2.len() && (#[trigger] s2[i]).0 == t;
                    if i != p {
                        let si = if i < p {
                            i
                        } else {
                            i - 1
                        };
                        assert(s2[i] == old_flight[si]);
                        assert(has_key(old_flight, t));
                    }
                }
            }
        }
        flight.insert(p, (thread_id, (last_completed, op)));
        self.history_by_thread = hist;
        self.in_flight_by_thread = flight;
        proof {
            if exact_eq::<T>() {
                assert(self.in_flight().remove(thread_id) =~= assoc_map(old_flight));
            }
        }
        Ok(())
    }
}

impl<T: PartialEq + Copy + Debug + Ord, RefObj: SequentialSpec> LinearizabilityTester<T, RefObj> where
    RefObj::Op: Debug,
    RefObj::Ret: Debug,
 {
    /// Records that a thread's earlier invocation returned. Fails if the history was already
    /// invalid, or (making the history invalid) if the thread has no operation in flight.
    pub fn record_return(&mut self, thread_id: T, ret: RefObj::Ret) -> (r: Result<(), String>)
        ensures
            !old(self).valid() ==> r is Err && *final(self) == *old(self),
            !old(self).valid() ==> (r matches Err(m) && m@ == "Earlier history was invalid."@),
            r is Err ==> !final(self).valid(),
            final(self).op_count() == old(self).op_count(),
            r is Ok ==> old(self).valid() && final(self).valid(),
            final(self).init() == old(self).init(),
            old(self).valid() && exact_eq::<T>() ==> (r is Err <==> !old(
                self,
            ).in_flight().contains_key(thread_id)),
            old(self).valid() && r is Err ==> {
                &&& !final(self).valid()
                &&& final(self).in_flight() == old(self).in_flight()
                &&& exact_eq::<T>() ==> final(self).completed() == if old(
                    self,
                ).completed().contains_key(thread_id) {
                    old(self).completed()
                } else {
                    old(self).completed().insert(thread_id, Seq::empty())
                }
            },
            r is Ok && exact_eq::<T>() ==> {
                let (last, op) = old(self).in_flight()[thread_id];
                &&& old(self).completed().contains_key(thread_id)
                &&& final(self).in_flight() == old(self).in_flight().remove(thread_id)
                &&& final(self).completed() == old(self).completed().insert(
                    thread_id,
                    old(self).completed()[thread_id].push((last, op, ret)),
                )
            },
    {
        proof {
            use_type_invariant(&*self);
        }
        if !self.is_valid_history {
            return Err(earlier_invalid_message());
        }
        let ghost old_hist = self.history_by_thread@;
        let ghost old_flight = self.in_flight_by_thread@;
        let found = find_key(&self.in_flight_by_thread, &thread_id);
        let mut flight: Vec<(T, InFlight<T, RefObj::Op>)> = Vec::new();
        std::mem::swap(&mut self.in_flight_by_thread, &mut flight);
        let mut hist: Vec<(T, Vec<Complete<T, RefObj::Op, RefObj::Ret>>)> = Vec::new();
        std::mem::swap(&mut self.history_by_thread, &mut hist);
        match found {
            None => {
                self.is_valid_history = false;
                let idx = ensure_entry(&mut hist, thread_id);
                let message = no_in_flight_message(&thread_id, &ret, &hist[idx].1);
                proof {
                    if exact_eq::<T>() {
                        lemma_history_views(old_hist);
                        lemma_history_views(hist@);
                    }
                }
                self.history_by_thread = hist;
                self.in_flight_by_thread = flight;
                Err(message)
            },
            Some(i) => {
                proof {
                    if exact_eq::<T>() {
                        lemma_assoc_index(old_flight, i as int);
                        lemma_assoc_remove(old_flight, i as int);
                    }
                }
                let (_, (last, op)) = flight.remove(i);
                let ghost mid_flight = flight@;
                assert(mid_flight == old_flight.remove(i as int));
                let idx = ensure_entry(&mut hist, thread_id);
                let ghost mid_hist = hist@;
                let (t, mut cs) = hist.remove(idx);
                let ghost old_cs = cs@;
                cs.push((last, op, ret));
                hist.insert(idx, (t, cs));
                proof {
                    assert(hist@ =~= mid_hist.update(idx as int, (t, cs)));
                    lemma_total_update(mid_hist, idx as int, t, cs);
                    assert(mid_hist[idx as int].1@ == old_cs);
                    assert(hist@ =~= mid_hist.update(idx as int, (mid_hist[idx as int].0, cs)));
                    assert forall|k: T| has_key(mid_hist, k) implies has_key(hist@, k) by {
                        let j = choose|j: int| 0 <= j < mid_hist.len() && (#[trigger] mid_hist[j]).0 == k;
                        assert(hist@[j].0 == k);
                    }
                    assert forall|k: T| has_key(mid_flight, k) implies has_key(old_flight, k) by {
                        let j = choose|j: int| 0 <= j < mid_flight.len() && (#[trigger] mid_flight[j]).0 == k;
                        let oj = if j < i { j } else { j + 1 };
                        assert(old_flight[oj] == mid_flight[j]);
                    }
                    if exact_eq::<T>() {
                        assert(has_key(old_hist, thread_id));
                        assert(mid_hist == old_hist);
                        lemma_history_views(old_hist);
                        lemma_history_views(hist@);
                        lemma_assoc_index(history_views(old_hist), idx as int);
                        lemma_assoc_update(history_views(old_hist), idx as int, cs@);
                        assert(history_views(hist@) =~= history_views(old_hist).update(
                            idx as int,
                            (history_views(old_hist)[idx as int].0, cs@),
                        ));
                        assert(cs@ == old_cs.push((last, op, ret)));
                    }
                }
                self.history_by_thread = hist;
                self.in_flight_by_thread = flight;
                Ok(())
            },
        }
    }
}

/// The tester's reference object and its identifier and operation types behave as their
/// specifications say: thread identifiers compare exactly, the object follows
/// [`SequentialSpec::invoke_spec`] and keeps its state when cloned, and operations and return
/// values clone exactly.
pub open spec fn faithful<T: PartialEq, S: SequentialSpec + Clone>() -> bool where
    S::Op: Clone,
    S::Ret: Clone,
 {
    &&& exact_eq::<T>()
    &&& S::obeys_sequential_spec()
    &&& clone_keeps_view::<S>()
    &&& exact_clone::<S::Op>()
    &&& exact_clone::<S::Ret>()
}

/// The number of operations taken from each thread, given a cursor per history entry.
spec fn taken_of<T, C>(hist: Seq<(T, Vec<C>)>, pos: Seq<usize>) -> Map<T, int> {
    assoc_map(Seq::new(hist.len(), |j: int| (hist[j].0, pos[j] as int)))
}

/// The operations in flight that are still available, given a flag per in-flight entry.
spec fn pending_of<T, X>(flight: Seq<(T, X)>, avail: Seq<bool>) -> Map<T, X> {
    let a = assoc_map(Seq::new(flight.len(), |f: int| (flight[f].0, (avail[f], flight[f].1))));
    Map::new(|t: T| a.contains_key(t) && a[t].0, |t: T| a[t].1)
}

/// The operations left to place: completed ones not yet taken, and available ones in flight.
spec fn measure<T, C>(hist: Seq<(T, Vec<C>)>, pos: Seq<usize>, avail: Seq<bool>) -> int {
    seq_sum(Seq::new(hist.len(), |j: int| hist[j].1@.len() - pos[j]))
        + seq_sum(Seq::new(avail.len(), |f: int| if avail[f] { 1int } else { 0int }))
}

/// A sum of nonnegative terms is nonnegative.
proof fn lemma_seq_sum_nonneg(s: Seq<int>)
    requires
        forall|i: int| 0 <= i < s.len() ==> 0 <= #[trigger] s[i],
    ensures
        0 <= seq_sum(s),
    decreases s.len(),
{
    if s.len() > 0 {
        lemma_seq_sum_nonneg(s.drop_last());
    }
}

/// Reading cursors by key: each thread of the histories maps to its cursor, and moving one
/// cursor updates one key.
proof fn lemma_taken_of<T, C>(hist: Seq<(T, Vec<C>)>, pos: Seq<usize>)
    requires
        distinct_keys(hist),
        pos.len() == hist.len(),
    ensures
        forall|t: T| #[trigger] taken_of(hist, pos).contains_key(t) <==> has_key(hist, t),
        forall|j: int|
            0 <= j < hist.len() ==> #[trigger] taken_of(hist, pos)[hist[j].0] == pos[j] as int,
        forall|j: int, v: usize|
            0 <= j < hist.len() ==> #[trigger] taken_of(hist, pos.update(j, v)) == taken_of(
                hist,
                pos,
            ).insert(hist[j].0, v as int),
{
    let s = Seq::new(hist.len(), |j: int| (hist[j].0, pos[j] as int));
    lemma_same_keys(hist, s);
    assert forall|j: int| 0 <= j < hist.len() implies #[trigger] taken_of(hist, pos)[hist[j].0]
        == pos[j] as int by {
        lemma_assoc_index(s, j);
    }
    assert forall|j: int, v: usize| 0 <= j < hist.len() implies #[trigger] taken_of(
        hist,
        pos.update(j, v),
    ) == taken_of(hist, pos).insert(hist[j].0, v as int) by {
        let s2 = Seq::new(hist.len(), |i: int| (hist[i].0, pos.update(j, v)[i] as int));
        assert(s2 =~= s.update(j, (s[j].0, v as int)));
        lemma_assoc_update(s, j, v as int);
    }
}

/// Reading availability flags by key: a thread is pending exactly when its in-flight entry is
/// available, and clearing a flag removes that thread.
proof fn lemma_pending_of<T, X>(flight: Seq<(T, X)>, avail: Seq<bool>)
    requires
        distinct_keys(flight),
        avail.len() == flight.len(),
    ensures
        forall|t: T| !has_key(flight, t) ==> !#[trigger] pending_of(flight, avail).contains_key(t),
        forall|f: int|
            0 <= f < flight.len() ==> (#[trigger] pending_of(flight, avail).contains_key(
                flight[f].0,
            ) <==> avail[f]),
        forall|f: int|
            0 <= f < flight.len() && avail[f] ==> #[trigger] pending_of(flight, avail)[flight[f].0]
                == flight[f].1,
        forall|f: int|
            0 <= f < flight.len() ==> #[trigger] pending_of(flight, avail.update(f, false))
                == pending_of(flight, avail).remove(flight[f].0),
{
    let s = Seq::new(flight.len(), |f: int| (flight[f].0, (avail[f], flight[f].1)));
    lemma_same_keys(flight, s);
    assert forall|f: int| 0 <= f < flight.len() implies (#[trigger] pending_of(
        flight,
        avail,
    ).contains_key(flight[f].0) <==> avail[f]) by {
        lemma_assoc_index(s, f);
    }
    assert forall|f: int| 0 <= f < flight.len() && avail[f] implies #[trigger] pending_of(
        flight,
        avail,
    )[flight[f].0] == flight[f].1 by {
        lemma_assoc_index(s, f);
    }
    assert forall|f: int| 0 <= f < flight.len() implies #[trigger] pending_of(
        flight,
        avail.update(f, false),
    ) == pending_of(flight, avail).remove(flight[f].0) by {
        let s2 = Seq::new(
            flight.len(),
            |i: int| (flight[i].0, (avail.update(f, false)[i], flight[i].1)),
        );
        assert(s2 =~= s.update(f, (s[f].0, (false, flight[f].1))));
        lemma_assoc_update(s, f, (false, flight[f].1));
        assert(pending_of(flight, avail.update(f, false)) =~= pending_of(flight, avail).remove(
            flight[f].0,
        ));
    }
}

/// Taking one more operation of a thread, or using one operation in flight, leaves fewer
/// operations to place.
proof fn lemma_measure<T, C>(hist: Seq<(T, Vec<C>)>, pos: Seq<usize>, avail: Seq<bool>)
    requires
        pos.len() == hist.len(),
        forall|j: int| 0 <= j < hist.len() ==> pos[j] <= (#[trigger] hist[j]).1@.len(),
    ensures
        0 <= measure(hist, pos, avail),
        forall|j: int, v: usize|
            0 <= j < hist.len() && pos[j] < hist[j].1@.len() && v == pos[j] + 1 ==> #[trigger] measure(
                hist,
                pos.update(j, v),
                avail,
            ) == measure(hist, pos, avail) - 1,
        forall|f: int|
            0 <= f < avail.len() && avail[f] ==> #[trigger] measure(hist, pos, avail.update(f, false))
                == measure(hist, pos, avail) - 1,
{
    let a = Seq::new(hist.len(), |j: int| hist[j].1@.len() - pos[j]);
    let b = Seq::new(avail.len(), |f: int| if avail[f] { 1int } else { 0int });
    lemma_seq_sum_nonneg(a);
    lemma_seq_sum_nonneg(b);
    assert forall|j: int, v: usize|
        0 <= j < hist.len() && pos[j] < hist[j].1@.len() && v == pos[j] + 1 implies #[trigger] measure(
        hist,
        pos.update(j, v),
        avail,
    ) == measure(hist, pos, avail) - 1 by {
        let p2 = pos.update(j, v);
        let a2 = Seq::new(hist.len(), |i: int| hist[i].1@.len() - p2[i]);
        assert(a2 =~= a.update(j, a[j] - 1));
        lemma_seq_sum_update(a, j, a[j] - 1);
    }
    assert forall|f: int| 0 <= f < avail.len() && avail[f] implies #[trigger] measure(
        hist,
        pos,
        avail.update(f, false),
    ) == measure(hist, pos, avail) - 1 by {
        let v2 = avail.update(f, false);
        let b2 = Seq::new(v2.len(), |i: int| if v2[i] { 1int } else { 0int });
        assert(b2 =~= b.update(f, 0));
        lemma_seq_sum_update(b, f, 0);
    }
}

/// A linearization continues through thread `t` with `h`.
spec fn via<T, S: SequentialSpec>(
    completed: Map<T, Seq<Complete<T, S::Op, S::Ret>>>,
    taken: Map<T, int>,
    pending: Map<T, InFlight<T, S::Op>>,
    state: S::V,
    t: T,
    h: Seq<(S::Op, S::Ret)>,
) -> bool {
    step::<T, S>(completed, taken, pending, state, t) matches Some((e, after, rest, next)) && e
        == h[0] && linearizes::<T, S>(completed, after, rest, next, h.drop_first())
}

impl<T: PartialEq + Copy + Debug + Ord, RefObj: SequentialSpec + Clone> LinearizabilityTester<
    T,
    RefObj,
> where RefObj::Op: Clone + Debug, RefObj::Ret: Clone + Debug {
    /// Whether every thread's cursor is past its completed operations.
    fn all_past(&self, pos: &Vec<usize>) -> (r: bool)
        requires
            pos@.len() == self.history_by_thread@.len(),
        ensures
            r == forall|j: int|
                0 <= j < pos@.len() ==> pos@[j] >= (#[trigger] self.history_by_thread@[j]).1@.len(),
    {
        let mut j: usize = 0;
        while j < pos.len()
            invariant
                pos@.len() == self.history_by_thread@.len(),
                j <= pos@.len(),
                forall|i: int|
                    0 <= i < j ==> pos@[i] >= (#[trigger] self.history_by_thread@[i]).1@.len(),
            decreases pos@.len() - j,
        {
            if pos[j] < self.history_by_thread[j].1.len() {
                return false;
            }
            j = j + 1;
        }
        true
    }

    /// Whether an operation that must follow the operations listed in `last` is held back at
    /// the given cursors.
    fn is_held_back(&self, pos: &Vec<usize>, last: &Vec<(T, usize)>) -> (r: bool)
        requires
            pos@.len() == self.history_by_thread@.len(),
        ensures
            exact_eq::<T>() ==> r == held_back(
                self.completed(),
                taken_of(self.history_by_thread@, pos@),
                last@,
            ),
    {
        proof {
            use_type_invariant(self);
        }
        let ghost hist = self.history_by_thread@;
        let ghost completed = self.completed();
        let ghost taken = taken_of(hist, pos@);
        proof {
            if exact_eq::<T>() {
                lemma_history_views(hist);
                lemma_taken_of(hist, pos@);
            }
        }
        let mut x: usize = 0;
        while x < last.len()
            invariant
                hist == self.history_by_thread@,
                pos@.len() == hist.len(),
                completed == self.completed(),
                taken == taken_of(hist, pos@),
                x <= last@.len(),
                exact_eq::<T>() ==> self.wf(),
                exact_eq::<T>() ==> forall|y: int|
                    0 <= y < x ==> !(completed.contains_key((#[trigger] last@[y]).0)
                        && taken[last@[y].0] < completed[last@[y].0].len() && taken[last@[y].0]
                        <= last@[y].1),
            decreases last@.len() - x,
        {
            let p = last[x].0;
            let i = last[x].1;
            match find_key(&self.history_by_thread, &p) {
                Some(k) => {
                    proof {
                        if exact_eq::<T>() {
                            lemma_history_views(hist);
                            lemma_assoc_index(history_views(hist), k as int);
                            lemma_taken_of(hist, pos@);
                        }
                    }
                    if pos[k] < self.history_by_thread[k].1.len() && pos[k] <= i {
                        return true;
                    }
                },
                None => {
                    proof {
                        if exact_eq::<T>() {
                            lemma_history_views(hist);
                        }
                    }
                },
            }
            x = x + 1;
        }
        false
    }
}

impl<T: PartialEq + Copy + Debug + Ord, RefObj: SequentialSpec + Clone> LinearizabilityTester<
    T,
    RefObj,
> where RefObj::Op: Clone + Debug, RefObj::Ret: Clone + Debug {
    /// Searches the interleavings of the operations left (each thread's completed operations
    /// from its cursor on, and the available operations in flight) for one that the reference
    /// object explains, trying threads in order. The cursors and flags are restored on return.
    fn search(&self, ref_obj: &RefObj, pos: &mut Vec<usize>, avail: &mut Vec<bool>) -> (r: Option<
        Vec<(RefObj::Op, RefObj::Ret)>,
    >)
        requires
            old(pos)@.len() == self.history_by_thread@.len(),
            old(avail)@.len() == self.in_flight_by_thread@.len(),
            forall|j: int|
                0 <= j < old(pos)@.len() ==> old(pos)@[j] <= (
                #[trigger] self.history_by_thread@[j]).1@.len(),
        ensures
            final(pos)@ == old(pos)@,
            final(avail)@ == old(avail)@,
            faithful::<T, RefObj>() ==> match r {
                Some(h) => linearizes::<T, RefObj>(
                    self.completed(),
                    taken_of(self.history_by_thread@, old(pos)@),
                    pending_of(self.in_flight_by_thread@, old(avail)@),
                    ref_obj@,
                    h@,
                ),
                None => forall|h: Seq<(RefObj::Op, RefObj::Ret)>|
                    !linearizes::<T, RefObj>(
                        self.completed(),
                        taken_of(self.history_by_thread@, old(pos)@),
                        pending_of(self.in_flight_by_thread@, old(avail)@),
                        ref_obj@,
                        h,
                    ),
            },
        decreases measure(self.history_by_thread@, old(pos)@, old(avail)@),
    {
        proof {
            use_type_invariant(self);
        }
        let ghost hist = self.history_by_thread@;
        let ghost flight = self.in_flight_by_thread@;
        let ghost pos0 = pos@;
        let ghost avail0 = avail@;
        let ghost completed = self.completed();
        let ghost taken = taken_of(hist, pos0);
        let ghost pending = pending_of(flight, avail0);
        let ghost state = ref_obj@;
        proof {
            lemma_measure(hist, pos0, avail0);
            if exact_eq::<T>() {
                lemma_history_views(hist);
                lemma_taken_of(hist, pos0);
                lemma_pending_of(flight, avail0);
            }
        }
        if self.all_past(pos) {
            proof {
                if exact_eq::<T>() {
                    assert forall|t: T| #[trigger] completed.contains_key(t) implies taken[t]
                        >= completed[t].len() by {
                        let j = choose|j: int| 0 <= j < hist.len() && (#[trigger] hist[j]).0 == t;
                        lemma_assoc_index(history_views(hist), j);
                    }
                }
            }
            return Some(Vec::new());
        }
        proof {
            if exact_eq::<T>() {
                let j = choose|j: int|
                    0 <= j < pos0.len() && !(pos0[j] >= (#[trigger] hist[j]).1@.len());
                lemma_assoc_index(history_views(hist), j);
                assert(!all_taken(completed, taken));
            }
        }
        let n = self.history_by_thread.len();
        let mut j: usize = 0;
        while j < n
            invariant
                hist == self.history_by_thread@,
                flight == self.in_flight_by_thread@,
                n == hist.len(),
                j <= n,
                pos@ == pos0,
                avail@ == avail0,
                pos0 == old(pos)@,
                avail0 == old(avail)@,
                pos0.len() == hist.len(),
                avail0.len() == flight.len(),
                forall|i: int| 0 <= i < pos0.len() ==> pos0[i] <= (#[trigger] hist[i]).1@.len(),
                completed == self.completed(),
                taken == taken_of(hist, pos0),
                pending == pending_of(flight, avail0),
                state == ref_obj@,
                exact_eq::<T>() ==> self.wf(),
                exact_eq::<T>() ==> !all_taken(completed, taken),
                faithful::<T, RefObj>() ==> forall|i: int, h: Seq<(RefObj::Op, RefObj::Ret)>|
                    0 <= i < j ==> !#[trigger] via::<T, RefObj>(
                        completed,
                        taken,
                        pending,
                        state,
                        hist[i].0,
                        h,
                    ),
                measure(hist, pos0, avail0) >= 0,
            decreases n - j,
        {
            let t = self.history_by_thread[j].0;
            let len = self.history_by_thread[j].1.len();
            let p = pos[j];
            proof {
                if exact_eq::<T>() {
                    lemma_history_views(hist);
                    lemma_assoc_index(history_views(hist), j as int);
                    lemma_taken_of(hist, pos0);
                    lemma_pending_of(flight, avail0);
                }
            }
            if p < len {
                pos.set(j, p + 1);
                proof {
                    lemma_measure(hist, pos0, avail0);
                    if exact_eq::<T>() {
                        lemma_taken_of(hist, pos0);
                    }
                }
                let blocked = self.is_held_back(pos, &self.history_by_thread[j].1[p].0);
                if !blocked {
                    let mut obj = ref_obj.clone();
                    assert(vstd::pervasive::strictly_cloned(*ref_obj, obj));
                    let valid = obj.is_valid_step(
                        &self.history_by_thread[j].1[p].1,
                        &self.history_by_thread[j].1[p].2,
                    );
                    if valid {
                        proof {
                            assert(pos@ == pos0.update(j as int, (p + 1) as usize));
                            assert(measure(hist, pos@, avail@) == measure(hist, pos0, avail0) - 1);
                            assert forall|i: int| 0 <= i < pos@.len() implies pos@[i] <= (
                            #[trigger] hist[i]).1@.len() by {
                                assert(pos0[i] <= hist[i].1@.len());
                            }
                            lemma_measure(hist, pos@, avail@);
                        }
                        let sub = self.search(&obj, pos, avail);
                        pos.set(j, p);
                        assert(pos@ =~= pos0);
                        match sub {
                            Some(mut rest) => {
                                let op = clone_exact(&self.history_by_thread[j].1[p].1);
                                let ret = clone_exact(&self.history_by_thread[j].1[p].2);
                                let ghost tail = rest@;
                                rest.insert(0, (op, ret));
                                proof {
                                    if faithful::<T, RefObj>() {
                                        assert(rest@.drop_first() =~= tail);
                                        assert(via::<T, RefObj>(
                                            completed,
                                            taken,
                                            pending,
                                            state,
                                            t,
                                            rest@,
                                        ));
                                    }
                                }
                                return Some(rest);
                            },
                            None => {
                                proof {
                                    if faithful::<T, RefObj>() {
                                        assert forall|h: Seq<(RefObj::Op, RefObj::Ret)>|
                                            !via::<T, RefObj>(
                                                completed,
                                                taken,
                                                pending,
                                                state,
                                                t,
                                                h,
                                            ) by {
                                            assert(taken_of(hist, pos0.update(j as int, (p + 1) as usize))
                                                == taken.insert(t, p + 1));
                                        }
                                    }
                                }
                            },
                        }
                    } else {
                        pos.set(j, p);
                        assert(pos@ =~= pos0);
                        proof {
                            if faithful::<T, RefObj>() {
                                assert(step::<T, RefObj>(completed, taken, pending, state, t) is None);
                            }
                        }
                    }
                } else {
                    proof {
                        if faithful::<T, RefObj>() {
                            assert(taken_of(hist, pos@) == taken.insert(t, p + 1));
                            assert(step::<T, RefObj>(completed, taken, pending, state, t) is None);
                        }
                    }
                    pos.set(j, p);
                    assert(pos@ =~= pos0);
                }
            } else {
                match find_key(&self.in_flight_by_thread, &t) {
                    Some(f) => {
                        if avail[f] {
                            let blocked = self.is_held_back(pos, &self.in_flight_by_thread[f].1.0);
                            if !blocked {
                                avail.set(f, false);
                                proof {
                                    lemma_measure(hist, pos0, avail0);
                                    lemma_measure(hist, pos0, avail@);
                                    assert(avail@ == avail0.update(f as int, false));
                                    assert(measure(hist, pos@, avail@) == measure(hist, pos0, avail0) - 1);
                                    if exact_eq::<T>() {
                                        lemma_pending_of(flight, avail0);
                                    }
                                }
                                let mut obj = ref_obj.clone();
                                assert(vstd::pervasive::strictly_cloned(*ref_obj, obj));
                                let ret = obj.invoke(&self.in_flight_by_thread[f].1.1);
                                let sub = self.search(&obj, pos, avail);
                                avail.set(f, true);
                                assert(avail@ =~= avail0);
                                match sub {
                                    Some(mut rest) => {
                                        let op = clone_exact(&self.in_flight_by_thread[f].1.1);
                                        let ghost tail = rest@;
                                        rest.insert(0, (op, ret));
                                        proof {
                                            if faithful::<T, RefObj>() {
                                                assert(rest@.drop_first() =~= tail);
                                                assert(via::<T, RefObj>(
                                                    completed,
                                                    taken,
                                                    pending,
                                                    state,
                                                    t,
                                                    rest@,
                                                ));
                                            }
                                        }
                                        return Some(rest);
                                    },
                                    None => {
                                        proof {
                                            if faithful::<T, RefObj>() {
                                                assert forall|h: Seq<(RefObj::Op, RefObj::Ret)>|
                                                    !via::<T, RefObj>(
                                                        completed,
                                                        taken,
                                                        pending,
                                                        state,
                                                        t,
                                                        h,
                                                    ) by {
                                                    assert(pending_of(flight, avail0.update(f as int, false))
                                                        == pending.remove(t));
                                                }
                                            }
                                        }
                                    },
                                }
                            } else {
                                proof {
                                    if faithful::<T, RefObj>() {
                                        assert(step::<T, RefObj>(completed, taken, pending, state, t) is None);
                                    }
                                }
                            }
                        } else {
                            proof {
                                if faithful::<T, RefObj>() {
                                    assert(step::<T, RefObj>(completed, taken, pending, state, t) is None);
                                }
                            }
                        }
                    },
                    None => {
                        proof {
                            if faithful::<T, RefObj>() {
                                assert(step::<T, RefObj>(completed, taken, pending, state, t) is None);
                            }
                        }
                    },
                }
            }
            proof {
                if faithful::<T, RefObj>() {
                    assert forall|h: Seq<(RefObj::Op, RefObj::Ret)>|
                        !via::<T, RefObj>(completed, taken, pending, state, t, h) by {}
                }
            }
            j = j + 1;
        }
        proof {
            if faithful::<T, RefObj>() {
                assert forall|h: Seq<(RefObj::Op, RefObj::Ret)>|
                    !linearizes::<T, RefObj>(completed, taken, pending, state, h) by {
                    if linearizes::<T, RefObj>(completed, taken, pending, state, h) {
                        let t = choose|t: T|
                            #[trigger] step::<T, RefObj>(completed, taken, pending, state, t) matches Some(
                                (e, after, rest, next),
                            ) && e == h[0] && linearizes::<T, RefObj>(
                                completed,
                                after,
                                rest,
                                next,
                                h.drop_first(),
                            );
                        assert(via::<T, RefObj>(completed, taken, pending, state, t, h));
                        lemma_history_views(hist);
                        let i = choose|i: int|
                            0 <= i < hist.len() && (#[trigger] history_views(hist)[i]).0 == t;
                        assert(hist[i].0 == t);
                    }
                }
            }
        }
        None
    }
}

impl<T: PartialEq + Copy + Debug + Ord, RefObj: SequentialSpec + Clone> LinearizabilityTester<
    T,
    RefObj,
> where RefObj::Op: Clone + Debug, RefObj::Ret: Clone + Debug {
    /// Attempts to serialize the recorded partially ordered operation history into a total
    /// order that is consistent with a reference object's operational semantics.
    ///
    /// Returns `None` for an invalid history. Otherwise, when the types involved behave as
    /// specified ([`faithful`]), returns a linearization of the recorded history if there is
    /// one, and `None` exactly when there is none.
    pub fn serialized_history(&self) -> (r: Option<Vec<(RefObj::Op, RefObj::Ret)>>)
        ensures
            !self.valid() ==> r is None,
            self.valid() && faithful::<T, RefObj>() ==> match r {
                Some(h) => is_linearization::<T, RefObj>(
                    self.completed(),
                    self.in_flight(),
                    self.init(),
                    h@,
                ),
                None => forall|h: Seq<(RefObj::Op, RefObj::Ret)>|
                    !is_linearization::<T, RefObj>(
                        self.completed(),
                        self.in_flight(),
                        self.init(),
                        h,
                    ),
            },
    {
        proof {
            use_type_invariant(self);
        }
        if !self.is_valid_history {
            return None;
        }
        let ghost hist = self.history_by_thread@;
        let ghost flight = self.in_flight_by_thread@;
        let mut pos: Vec<usize> = Vec::new();
        let mut j: usize = 0;
        while j < self.history_by_thread.len()
            invariant
                hist == self.history_by_thread@,
                j <= hist.len(),
                pos@.len() == j,
                forall|i: int| 0 <= i < j ==> pos@[i] == 0,
            decreases hist.len() - j,
        {
            pos.push(0);
            j = j + 1;
        }
        let mut avail: Vec<bool> = Vec::new();
        let mut f: usize = 0;
        while f < self.in_flight_by_thread.len()
            invariant
                flight == self.in_flight_by_thread@,
                f <= flight.len(),
                avail@.len() == f,
                forall|i: int| 0 <= i < f ==> avail@[i],
            decreases flight.len() - f,
        {
            avail.push(true);
            f = f + 1;
        }
        proof {
            if exact_eq::<T>() {
                lemma_history_views(hist);
                lemma_taken_of(hist, pos@);
                lemma_pending_of(flight, avail@);
                let completed = self.completed();
                assert forall|t: T| #[trigger] taken_of(hist, pos@).contains_key(t)
                    == none_taken(completed).contains_key(t) by {}
                assert forall|t: T| #[trigger] taken_of(hist, pos@).contains_key(t) implies taken_of(
                    hist,
                    pos@,
                )[t] == none_taken(completed)[t] by {
                    let i = choose|i: int| 0 <= i < hist.len() && (#[trigger] hist[i]).0 == t;
                }
                assert(taken_of(hist, pos@) =~= none_taken(completed));
                assert forall|t: T| #[trigger] pending_of(flight, avail@).contains_key(t)
                    == self.in_flight().contains_key(t) by {
                    if has_key(flight, t) {
                        let i = choose|i: int| 0 <= i < flight.len() && (#[trigger] flight[i]).0 == t;
                        lemma_assoc_index(flight, i);
                    }
                }
                assert forall|t: T| #[trigger] pending_of(flight, avail@).contains_key(t) implies pending_of(
                    flight,
                    avail@,
                )[t] == self.in_flight()[t] by {
                    let i = choose|i: int| 0 <= i < flight.len() && (#[trigger] flight[i]).0 == t;
                    lemma_assoc_index(flight, i);
                }
                assert(pending_of(flight, avail@) =~= self.in_flight());
            }
        }
        self.search(&self.init_ref_obj, &mut pos, &mut avail)
    }

    /// Indicates whether the recorded history is linearizable.
    pub fn is_consistent(&self) -> (r: bool)
        ensures
            !self.valid() ==> !r,
            self.valid() && faithful::<T, RefObj>() ==> (r <==> exists|h: Seq<
                (RefObj::Op, RefObj::Ret),
            >|
                is_linearization::<T, RefObj>(self.completed(), self.in_flight(), self.init(), h)),
    {
        let h = self.serialized_history();
        proof {
            if self.valid() && faithful::<T, RefObj>() {
                if h is Some {
                    assert(is_linearization::<T, RefObj>(
                        self.completed(),
                        self.in_flight(),
                        self.init(),
                        h.unwrap()@,
                    ));
                }
            }
        }
        h.is_some()
    }
}

impl<T: PartialEq + Copy + Debug + Ord, RefObj: SequentialSpec + Clone> ConsistencyTester<
    T,
    RefObj,
> for LinearizabilityTester<T, RefObj> where RefObj::Op: Clone + Debug, RefObj::Ret: Clone + Debug {
    /// Indicates that a thread invoked an operation; see [`LinearizabilityTester::record_invoke`].
    fn on_invoke(&mut self, thread_id: T, op: RefObj::Op) -> (r: Result<&mut Self, String>)
        ensures
            !old(self).valid() ==> r is Err,
            !old(self).valid() ==> (r matches Err(m) && m@ == "Earlier history was invalid."@),
            r is Err ==> !final(self).valid() && final(self).op_count() == old(self).op_count(),
            r matches Ok(s) ==> s.op_count() == old(self).op_count() + 1,
            old(self).valid() && exact_eq::<T>() ==> (r is Err <==> old(
                self,
            ).in_flight().contains_key(thread_id)),
            r matches Ok(s) ==> {
                &&& s.valid()
                &&& s.init() == old(self).init()
                &&& exact_eq::<T>() ==> s.in_flight().contains_key(thread_id) && s.in_flight()[thread_id].1 == op
                &&& exact_eq::<T>() ==> s.in_flight().remove(thread_id) == old(self).in_flight()
            },
    {
        match self.record_invoke(thread_id, op) {
            Ok(()) => Ok(self),
            Err(e) => Err(e),
        }
    }

    /// Indicates that a thread's earlier invocation returned; see
    /// [`LinearizabilityTester::record_return`].
    fn on_return(&mut self, thread_id: T, ret: RefObj::Ret) -> (r: Result<&mut Self, String>)
        ensures
            !old(self).valid() ==> r is Err,
            !old(self).valid() ==> (r matches Err(m) && m@ == "Earlier history was invalid."@),
            r is Err ==> !final(self).valid() && final(self).op_count() == old(self).op_count(),
            r matches Ok(s) ==> s.op_count() == old(self).op_count(),
            old(self).valid() && exact_eq::<T>() ==> (r is Err <==> !old(
                self,
            ).in_flight().contains_key(thread_id)),
            r matches Ok(s) ==> {
                &&& s.valid()
                &&& s.init() == old(self).init()
                &&& exact_eq::<T>() ==> {
                    let (last, op) = old(self).in_flight()[thread_id];
                    &&& s.in_flight() == old(self).in_flight().remove(thread_id)
                    &&& s.completed() == old(self).completed().insert(
                        thread_id,
                        old(self).completed()[thread_id].push((last, op, ret)),
                    )
                }
            },
    {
        match self.record_return(thread_id, ret) {
            Ok(()) => Ok(self),
            Err(e) => Err(e),
        }
    }

    /// Indicates whether the recorded history is linearizable.
    fn is_consistent(&self) -> (r: bool)
        ensures
            !self.valid() ==> !r,
            self.valid() && faithful::<T, RefObj>() ==> (r <==> exists|h: Seq<
                (RefObj::Op, RefObj::Ret),
            >|
                is_linearization::<T, RefObj>(self.completed(), self.in_flight(), self.init(), h)),
    {
        LinearizabilityTester::is_consistent(self)
    }

    /// Records an invocation and its return for a thread.
    fn on_invret(&mut self, thread_id: T, op: RefObj::Op, ret: RefObj::Ret) -> (r: Result<
        &mut Self,
        String,
    >)
        ensures
            !old(self).valid() ==> r is Err,
            !old(self).valid() ==> (r matches Err(m) && m@ == "Earlier history was invalid."@),
            r is Err ==> !final(self).valid() && final(self).op_count() >= old(self).op_count(),
            r matches Ok(s) ==> s.op_count() == old(self).op_count() + 1,
            old(self).valid() && exact_eq::<T>() ==> (r is Err <==> old(
                self,
            ).in_flight().contains_key(thread_id)),
            r matches Ok(s) ==> {
                &&& s.valid()
                &&& s.init() == old(self).init()
                &&& exact_eq::<T>() ==> {
                    let before = if old(self).completed().contains_key(thread_id) {
                        old(self).completed()[thread_id]
                    } else {
                        Seq::empty()
                    };
                    let c = s.completed()[thread_id];
                    &&& s.in_flight() == old(self).in_flight()
                    &&& s.completed().contains_key(thread_id)
                    &&& s.completed().remove(thread_id) == old(self).completed().remove(thread_id)
                    &&& c.len() == before.len() + 1
                    &&& c.drop_last() == before
                    &&& c.last().1 == op
                    &&& c.last().2 == ret
                    &&& assoc_map(c.last().0@) == snapshot(old(self).completed(), thread_id)
                }
            },
    {
        match self.record_invoke(thread_id, op) {
            Ok(()) => {},
            Err(e) => {
                return Err(e);
            },
        }
        match self.record_return(thread_id, ret) {
            Ok(()) => Ok(self),
            Err(e) => Err(e),
        }
    }
}

impl<T: PartialEq + Copy + Debug + Ord, RefObj: SequentialSpec + Default> Default for LinearizabilityTester<
    T,
    RefObj,
> where RefObj::Op: Debug, RefObj::Ret: Debug {
    /// A tester whose reference object is the default one, with nothing recorded.
    fn default() -> (r: Self)
        ensures
            r.valid(),
            r.completed() == Map::<T, Seq<Complete<T, RefObj::Op, RefObj::Ret>>>::empty(),
            r.in_flight() == Map::<T, InFlight<T, RefObj::Op>>::empty(),
    {
        Self::new(RefObj::default())
    }
}

/// Finds the entry of thread `t` in a list of histories, adding an empty one in key order if
/// there is none; returns its index.
fn ensure_entry<T: PartialEq + Ord + Copy, C>(hist: &mut Vec<(T, Vec<C>)>, t: T) -> (idx: usize)
    ensures
        idx < final(hist)@.len(),
        total(final(hist)@) == total(old(hist)@),
        forall|k: T| has_key(old(hist)@, k) ==> has_key(final(hist)@, k),
        exact_eq::<T>() ==> final(hist)@[idx as int].0 == t,
        exact_eq::<T>() && has_key(old(hist)@, t) ==> final(hist)@ == old(hist)@,
        exact_eq::<T>() && !has_key(old(hist)@, t) ==> final(hist)@[idx as int].1@.len() == 0,
        exact_eq::<T>() && distinct_keys(old(hist)@) ==> {
            &&& distinct_keys(final(hist)@)
            &&& forall|k: T| has_key(final(hist)@, k) <==> (has_key(old(hist)@, k) || k == t)
            &&& assoc_map(history_views(final(hist)@)) == if has_key(old(hist)@, t) {
                assoc_map(history_views(old(hist)@))
            } else {
                assoc_map(history_views(old(hist)@)).insert(t, Seq::empty())
            }
        },
{
    let ghost before = hist@;
    match find_key(hist, &t) {
        Some(i) => i,
        None => {
            let q = sorted_position(hist, &t);
            let nv: Vec<C> = Vec::new();
            hist.insert(q, (t, nv));
            proof {
                assert(hist@ == before.insert(q as int, (t, nv)));
                lemma_total_insert_empty(before, q as int, t, nv);
                assert forall|k: T| has_key(before, k) implies has_key(hist@, k) by {
                    let i = choose|i: int| 0 <= i < before.len() && (#[trigger] before[i]).0 == k;
                    let ti = if i < q { i } else { i + 1 };
                    assert(hist@[ti] == before[i]);
                }
                if exact_eq::<T>() && distinct_keys(before) {
                    lemma_assoc_insert(before, q as int, t, nv);
                    lemma_history_views(before);
                    lemma_history_views(hist@);
                    lemma_assoc_insert(history_views(before), q as int, t, nv@);
                    assert(history_views(hist@) =~= history_views(before).insert(q as int, (t, nv@)));
                    assert(nv@ =~= Seq::<C>::empty());
                    assert forall|k: T| has_key(hist@, k) implies (has_key(before, k) || k == t) by {
                        let i = choose|i: int| 0 <= i < hist@.len() && (#[trigger] hist@[i]).0 == k;
                        if i != q {
                            let si = if i < q { i } else { i - 1 };
                            assert(hist@[i] == before[si]);
                        }
                    }
                }
            }
            q
        },
    }
}

/// Appending zeros leaves a sum unchanged.
proof fn lemma_sum_zero_suffix(s: Seq<int>, n: nat)
    ensures
        seq_sum(s + Seq::new(n, |i: int| 0int)) == seq_sum(s),
    decreases n,
{
    if n > 0 {
        let t = s + Seq::new(n, |i: int| 0int);
        assert(t.drop_last() =~= s + Seq::new((n - 1) as nat, |i: int| 0int));
        lemma_sum_zero_suffix(s, (n - 1) as nat);
    } else {
        assert(s + Seq::new(n, |i: int| 0int) =~= s);
    }
}

} // verus!
