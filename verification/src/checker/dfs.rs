//! The depth-first search of the model checker: it takes states from the top of a stack of
//! pending jobs, evaluates the properties on each, and pushes the states not generated before,
//! each with the fingerprints of the path that reached it.

use crate::checker::expectation::Expectation;
use std::collections::{HashSet, VecDeque};
use crate::checker::bfs::{awaiting_any, deterministic, injective, passes, reachable};
use vstd::prelude::*;

verus! {

broadcast use vstd::std_specs::hash::group_hash_axioms;

/// A state awaiting checking: the state, the fingerprints of the states on the path that
/// reached it (its own last), which `eventually` properties have not held yet on that path (by
/// property index), and the depth of the path.
pub struct Job<State> {
    pub state: State,
    pub fingerprints: Vec<u64>,
    pub ebits: Vec<bool>,
    pub depth: usize,
}

/// Each pending job is well formed: its path ends with the fingerprint `fingerprint` gives of
/// its state, the key `key` gives of its state is recorded in `generated`, and its bits mark
/// `eventually` properties of `expectations` only.
pub open spec fn jobs_known<State, FP: Fn(&State) -> u64, K: Fn(&State) -> u64>(
    pending: Seq<Job<State>>,
    generated: Set<u64>,
    expectations: Seq<Expectation>,
    fingerprint: FP,
    key: K,
) -> bool {
    forall|j: int|
        0 <= j < pending.len() ==> {
            &&& (#[trigger] pending[j]).fingerprints@.len() > 0
            &&& call_ensures(fingerprint, (&pending[j].state,), pending[j].fingerprints@.last())
            &&& exists|k: u64| call_ensures(key, (&pending[j].state,), k) && generated.contains(k)
            &&& pending[j].ebits@.len() == expectations.len()
            &&& forall|i: int|
                0 <= i < expectations.len() && #[trigger] pending[j].ebits@[i] ==> expectations[i]
                    is Eventually
        }
}

/// The discovery `d` (a path of fingerprints) for property `i` (of expectation `e`) ends at a
/// state: one where the property did not hold for `always`, did hold for `sometimes`.
pub open spec fn justified<
    State,
    FP: Fn(&State) -> u64,
    HOLDS: Fn(usize, &State) -> bool,
    NEXT: Fn(&State) -> Vec<State>,
>(
    e: Expectation,
    i: int,
    d: Seq<u64>,
    fingerprint: FP,
    holds: HOLDS,
    next_states: NEXT,
) -> bool {
    &&& d.len() > 0
    &&& exists|s: State|
        #[trigger] call_ensures(fingerprint, (&s,), d.last()) && match e {
            Expectation::Always => call_ensures(holds, (i as usize, &s), false),
            Expectation::Sometimes => call_ensures(holds, (i as usize, &s), true),
            Expectation::Eventually => terminal(next_states, s),
        }
}

/// `s` is a terminal state: `next_states` gives no successor of it.
pub open spec fn terminal<State, NEXT: Fn(&State) -> Vec<State>>(next_states: NEXT, s: State) -> bool {
    exists|v: Vec<State>| #[trigger] call_ensures(next_states, (&s,), v) && v@.len() == 0
}

/// A copy of a vector of numbers, with `last` appended when it is given.
pub(crate) fn extended(v: &Vec<u64>, last: Option<u64>) -> (r: Vec<u64>)
    ensures
        r@ == match last {
            Some(x) => v@.push(x),
            None => v@,
        },
{
    let mut r: Vec<u64> = Vec::new();
    let mut i: usize = 0;
    while i < v.len()
        invariant
            i <= v@.len(),
            r@ == v@.take(i as int),
        decreases v@.len() - i,
    {
        r.push(v[i]);
        proof {
            assert(v@.take(i + 1) == v@.take(i as int).push(v@[i as int]));
        }
        i = i + 1;
    }
    proof {
        assert(v@.take(v@.len() as int) == v@);
    }
    match last {
        Some(x) => r.push(x),
        None => {},
    }
    r
}

/// A copy of a vector of bits.
fn copy_bits(v: &Vec<bool>) -> (r: Vec<bool>)
    ensures
        r@ == v@,
{
    let mut r: Vec<bool> = Vec::new();
    let mut i: usize = 0;
    while i < v.len()
        invariant
            i <= v@.len(),
            r@ == v@.take(i as int),
        decreases v@.len() - i,
    {
        r.push(v[i]);
        proof {
            assert(v@.take(i + 1) == v@.take(i as int).push(v@[i as int]));
        }
        i = i + 1;
    }
    proof {
        assert(v@.take(v@.len() as int) == v@);
    }
    r
}

/// The jobs for the initial states `init_states`, in order, and the set of their keys: each at
/// depth 1, its path its own fingerprint, with the `eventually` properties of `expectations`
/// not yet met. (`key` is the fingerprint, or that of a representative of the state under
/// symmetry.)
pub fn init_jobs<State, FP, K>(
    expectations: &[Expectation],
    init_states: Vec<State>,
    fingerprint: &FP,
    key: &K,
) -> (r: (VecDeque<Job<State>>, HashSet<u64>)) where
    FP: Fn(&State) -> u64,
    K: Fn(&State) -> u64,

    requires
        forall|s: &State| call_requires(*fingerprint, (s,)),
        forall|s: &State| call_requires(*key, (s,)),
    ensures
        r.0@.map_values(|job: Job<State>| job.state) == init_states@,
        forall|j: int| 0 <= j < r.0@.len() ==> (#[trigger] r.0@[j]).depth == 1 && r.0@[j].fingerprints@.len() == 1
            && r.0@[j].ebits@ == expectations@.map_values(|e: Expectation| e is Eventually),
        jobs_known(r.0@, r.1@, expectations@, *fingerprint, *key),
        r.1@.finite(),
        forall|k: u64| #[trigger] r.1@.contains(k) ==> queued(r.0@, *key, k),
{
    let n = expectations.len();
    let mut ebits: Vec<bool> = Vec::new();
    let mut i: usize = 0;
    while i < n
        invariant
            n == expectations@.len(),
            i <= n,
            ebits@.len() == i,
            forall|q: int| 0 <= q < i ==> #[trigger] ebits@[q] == (expectations@[q] is Eventually),
        decreases n - i,
    {
        ebits.push(matches!(expectations[i], Expectation::Eventually));
        i = i + 1;
    }
    proof {
        assert(ebits@ == expectations@.map_values(|e: Expectation| e is Eventually));
    }
    let ghost all = init_states@;
    let mut rest = init_states;
    let mut rev: Vec<State> = Vec::new();
    while rest.len() > 0
        invariant
            rev@.len() + rest@.len() == all.len(),
            forall|j: int| 0 <= j < rest@.len() ==> rest@[j] == all[j],
            forall|j: int|
                0 <= j < rev@.len() ==> #[trigger] rev@[j] == all[all.len() - 1 - j],
        decreases rest@.len(),
    {
        let x = rest.pop().unwrap();
        rev.push(x);
    }
    let mut pending: VecDeque<Job<State>> = VecDeque::new();
    let mut generated: HashSet<u64> = HashSet::new();
    while rev.len() > 0
        invariant
            n == expectations@.len(),
            ebits@ == expectations@.map_values(|e: Expectation| e is Eventually),
            pending@.len() + rev@.len() == all.len(),
            forall|j: int|
                0 <= j < rev@.len() ==> #[trigger] rev@[j] == all[all.len() - 1 - j],
            forall|j: int| 0 <= j < pending@.len() ==> (#[trigger] pending@[j]).state == all[j] && pending@[j].depth == 1
                && pending@[j].ebits@ == ebits@ && pending@[j].fingerprints@.len() == 1,
            jobs_known(pending@, generated@, expectations@, *fingerprint, *key),
            generated@.finite(),
            forall|k: u64| #[trigger] generated@.contains(k) ==> queued(pending@, *key, k),
            forall|s: &State| call_requires(*fingerprint, (s,)),
            forall|s: &State| call_requires(*key, (s,)),
        decreases rev@.len(),
    {
        let state = rev.pop().unwrap();
        let fp = fingerprint(&state);
        let k = key(&state);
        let ghost pb = pending@;
        let ghost gb = generated@;
        generated.insert(k);
        let mut fps: Vec<u64> = Vec::new();
        fps.push(fp);
        pending.push_back(Job { state, fingerprints: fps, ebits: copy_bits(&ebits), depth: 1 });
        proof {
            assert(call_ensures(*key, (&pending@[pb.len() as int].state,), k));
            assert forall|kk: u64| #[trigger] generated@.contains(kk) implies queued(pending@, *key, kk) by {
                broadcast use vstd::std_specs::hash::group_hash_axioms;

                reveal(queued);

                if kk != k {
                    assert(gb.contains(kk));
                    let j = choose|j: int| #![trigger pb[j]] 0 <= j < pb.len() && call_ensures(*key, (&pb[j].state,), kk);
                    assert(pending@[j] == pb[j]);
                }
            }
            assert forall|j: int| 0 <= j < pending@.len() implies {
                &&& (#[trigger] pending@[j]).fingerprints@.len() > 0
                &&& call_ensures(*fingerprint, (&pending@[j].state,), pending@[j].fingerprints@.last())
                &&& exists|k: u64| call_ensures(*key, (&pending@[j].state,), k) && generated@.contains(k)
                &&& pending@[j].ebits@.len() == expectations@.len()
                &&& forall|i: int|
                    0 <= i < expectations@.len() && #[trigger] pending@[j].ebits@[i] ==> expectations@[i]
                        is Eventually
            } by {
                if j < pb.len() {
                    assert(pending@[j] == pb[j]);
                    let k2 = choose|k2: u64| call_ensures(*key, (&pb[j].state,), k2) && gb.contains(k2);
                    assert(generated@.contains(k2));
                } else {
                    assert(pending@[j].fingerprints@.last() == fp);
                    assert(call_ensures(*key, (&pending@[j].state,), k) && generated@.contains(k));
                }
            }
            assert forall|j: int| 0 <= j < pending@.len() implies (#[trigger] pending@[j]).state == all[j] && pending@[j].depth == 1
                && pending@[j].ebits@ == ebits@ && pending@[j].fingerprints@.len() == 1 by {
                if j < pb.len() {
                    assert(pending@[j] == pb[j]);
                }
            }
        }
    }
    let ghost pv = pending@;
    let r = (pending, generated);
    proof {
        assert(r.0@ == pv);
        assert forall|j: int| 0 <= j < r.0@.len() implies (#[trigger] r.0@[j]).depth == 1 && r.0@[j].fingerprints@.len() == 1
            && r.0@[j].ebits@ == expectations@.map_values(|e: Expectation| e is Eventually) by {
            assert(r.0@[j] == pv[j]);
        }
        assert(r.0@.map_values(|job: Job<State>| job.state) =~= init_states@) by {
            assert forall|j: int| 0 <= j < r.0@.len() implies r.0@[j].state == all[j] by {
                assert(r.0@[j] == pv[j]);
            }
        }
    }
    r
}

/// The greatest depth of the jobs `jobs` (0 if there are none).
pub open spec fn deepest<State>(jobs: Seq<Job<State>>) -> int
    decreases jobs.len(),
{
    if jobs.len() == 0 {
        0
    } else if jobs.last().depth > deepest(jobs.drop_last()) {
        jobs.last().depth as int
    } else {
        deepest(jobs.drop_last())
    }
}

/// No job is deeper than [`deepest`] says.
proof fn lemma_deepest<State>(jobs: Seq<Job<State>>)
    ensures
        forall|j: int| 0 <= j < jobs.len() ==> (#[trigger] jobs[j]).depth <= deepest(jobs),
    decreases jobs.len(),
{
    if jobs.len() > 0 {
        lemma_deepest(jobs.drop_last());
        assert forall|j: int| 0 <= j < jobs.len() implies (#[trigger] jobs[j]).depth <= deepest(jobs) by {
            if j < jobs.len() - 1 {
                assert(jobs[j] == jobs.drop_last()[j]);
            }
        }
    }
}

/// The state `x` has its key recorded in `generated`.
pub open spec fn recorded<State, K: Fn(&State) -> u64>(generated: Set<u64>, key: K, x: State) -> bool {
    exists|k: u64| #[trigger] call_ensures(key, (&x,), k) && generated.contains(k)
}

/// Each of the states `v` has its key recorded in `generated`.
pub open spec fn all_recorded<State, K: Fn(&State) -> u64>(generated: Set<u64>, key: K, v: Seq<State>) -> bool {
    forall|j: int| #![trigger v[j]] 0 <= j < v.len() ==> recorded(generated, key, v[j])
}

/// The successors that `next_states` gave of `s` all have their keys recorded in `generated`.
pub open spec fn successors_recorded<State, K: Fn(&State) -> u64, NEXT: Fn(&State) -> Vec<State>>(
    generated: Set<u64>,
    key: K,
    next_states: NEXT,
    s: State,
) -> bool {
    exists|v: Vec<State>| #[trigger] call_ensures(next_states, (&s,), v) && all_recorded(generated, key, v@)
}

/// A job whose state has key `k` is pending.
#[verifier::opaque]
pub open spec fn queued<State, K: Fn(&State) -> u64>(pending: Seq<Job<State>>, key: K, k: u64) -> bool {
    exists|j: int| #![trigger pending[j]] 0 <= j < pending.len() && call_ensures(key, (&pending[j].state,), k)
}

/// Every property has a discovery, or every recorded key that no pending job has was checked: a
/// state of that key [`passes`] and its successors are recorded.
pub open spec fn explored<State, K: Fn(&State) -> u64, HOLDS: Fn(usize, &State) -> bool, NEXT: Fn(&State) -> Vec<State>>(
    expectations: Seq<Expectation>,
    generated: Set<u64>,
    pending: Seq<Job<State>>,
    discoveries: Seq<Option<Vec<u64>>>,
    key: K,
    holds: HOLDS,
    next_states: NEXT,
) -> bool {
    ||| forall|i: int| 0 <= i < discoveries.len() ==> (#[trigger] discoveries[i]) is Some
    ||| forall|k: u64|
        #[trigger] generated.contains(k) && !queued(pending, key, k) ==> exists|s: State|
            #[trigger] call_ensures(key, (&s,), k) && passes(expectations, discoveries, holds, s)
                && successors_recorded(generated, key, next_states, s)
}

/// A state recorded in `g` stays recorded when `g` only gains keys.
proof fn lemma_recorded_kept<State, K: Fn(&State) -> u64>(g: Set<u64>, h: Set<u64>, key: K, x: State)
    requires
        recorded(g, key, x),
        g.subset_of(h),
    ensures
        recorded(h, key, x),
{
    let k = choose|k: u64| #[trigger] call_ensures(key, (&x,), k) && g.contains(k);
    assert(h.contains(k));
}

/// Recording more keys keeps the successors of `s` recorded.
proof fn lemma_successors_kept<State, K: Fn(&State) -> u64, NEXT: Fn(&State) -> Vec<State>>(
    g: Set<u64>,
    h: Set<u64>,
    key: K,
    next_states: NEXT,
    s: State,
)
    requires
        successors_recorded(g, key, next_states, s),
        g.subset_of(h),
    ensures
        successors_recorded(h, key, next_states, s),
{
    let v = choose|v: Vec<State>| #[trigger] call_ensures(next_states, (&s,), v) && all_recorded(g, key, v@);
    assert forall|j: int| #![trigger v@[j]] 0 <= j < v@.len() implies recorded(h, key, v@[j]) by {
        lemma_recorded_kept(g, h, key, v@[j]);
    }
    assert(all_recorded(h, key, v@));
}

/// Checking the job at the top of `p_b` keeps the search [`explored`].
proof fn lemma_explored_step<State, K: Fn(&State) -> u64, HOLDS: Fn(usize, &State) -> bool, NEXT: Fn(&State) -> Vec<State>>(
    expectations: Seq<Expectation>,
    g_b: Set<u64>,
    p_b: Seq<Job<State>>,
    d_b: Seq<Option<Vec<u64>>>,
    g_e: Set<u64>,
    p_e: Seq<Job<State>>,
    d_e: Seq<Option<Vec<u64>>>,
    key: K,
    holds: HOLDS,
    next_states: NEXT,
)
    requires
        explored(expectations, g_b, p_b, d_b, key, holds, next_states),
        p_b.len() > 0,
        d_b.len() == d_e.len(),
        d_b.len() == expectations.len(),
        forall|i: int| 0 <= i < d_e.len() && (#[trigger] d_e[i]) is None ==> d_b[i] is None,
        g_b.subset_of(g_e),
        forall|k: u64| #[trigger] g_e.contains(k) && !g_b.contains(k) ==> queued(p_e, key, k),
        forall|k: u64| queued(p_b.drop_last(), key, k) ==> #[trigger] queued(p_e, key, k),
        passes(expectations, d_e, holds, p_b.last().state),
        successors_recorded(g_e, key, next_states, p_b.last().state),
    ensures
        explored(expectations, g_e, p_e, d_e, key, holds, next_states),
{
    reveal(queued);
    let job = p_b.last();
    if forall|i: int| 0 <= i < d_b.len() ==> (#[trigger] d_b[i]) is Some {
        assert forall|i: int| 0 <= i < d_e.len() implies (#[trigger] d_e[i]) is Some by {
            assert(d_b[i] is Some);
        }
    } else {
        assert forall|k: u64|
            #[trigger] g_e.contains(k) && !queued(p_e, key, k) implies exists|s: State|
                #[trigger] call_ensures(key, (&s,), k) && passes(expectations, d_e, holds, s)
                    && successors_recorded(g_e, key, next_states, s) by {
            if call_ensures(key, (&job.state,), k) {
            } else {
                assert(g_b.contains(k));
                if queued(p_b, key, k) {
                    let j = choose|j: int| #![trigger p_b[j]] 0 <= j < p_b.len() && call_ensures(key, (&p_b[j].state,), k);
                    assert(j != p_b.len() - 1);
                    assert(p_b.drop_last()[j] == p_b[j]);
                    assert(queued(p_b.drop_last(), key, k));
                }
                let s = choose|s: State|
                    #[trigger] call_ensures(key, (&s,), k) && passes(expectations, d_b, holds, s)
                        && successors_recorded(g_b, key, next_states, s);
                assert forall|i: int|
                    0 <= i < expectations.len() && (#[trigger] d_e[i]) is None implies match expectations[i] {
                        Expectation::Always => call_ensures(holds, (i as usize, &s), true),
                        Expectation::Sometimes => call_ensures(holds, (i as usize, &s), false),
                        Expectation::Eventually => true,
                    } by {
                    assert(d_b[i] is None);
                }
                lemma_successors_kept(g_b, g_e, key, next_states, s);
            }
        }
    }
}

/// Once nothing is pending and the search is [`explored`] with a property still undiscovered,
/// every state reachable from the recorded initial states is recorded, when keys are injective
/// and successors deterministic.
proof fn lemma_reached_recorded<State, K: Fn(&State) -> u64, HOLDS: Fn(usize, &State) -> bool, NEXT: Fn(&State) -> Vec<State>>(
    expectations: Seq<Expectation>,
    g: Set<u64>,
    d: Seq<Option<Vec<u64>>>,
    init: Seq<State>,
    key: K,
    holds: HOLDS,
    next_states: NEXT,
    s: State,
    n: nat,
)
    requires
        explored(expectations, g, Seq::<Job<State>>::empty(), d, key, holds, next_states),
        exists|i: int| 0 <= i < d.len() && (#[trigger] d[i]) is None,
        forall|j: int| #![trigger init[j]] 0 <= j < init.len() ==> recorded(g, key, init[j]),
        injective(key),
        deterministic(next_states),
        reachable(init, next_states, s, n),
    ensures
        recorded(g, key, s),
    decreases n,
{
    reveal(queued);
    if n == 0 {
        let j = choose|j: int| 0 <= j < init.len() && init[j] == s;
        assert(recorded(g, key, init[j]));
    } else {
        let (p, v) = choose|p: State, v: Vec<State>|
            #[trigger] call_ensures(next_states, (&p,), v) && reachable(init, next_states, p, (n - 1) as nat)
                && v@.contains(s);
        lemma_reached_recorded(expectations, g, d, init, key, holds, next_states, p, (n - 1) as nat);
        let kp = choose|k: u64| #[trigger] call_ensures(key, (&p,), k) && g.contains(k);
        assert(!queued(Seq::<Job<State>>::empty(), key, kp));
        let q = choose|q: State|
            #[trigger] call_ensures(key, (&q,), kp) && passes(expectations, d, holds, q)
                && successors_recorded(g, key, next_states, q);
        assert(q == p);
        let w = choose|w: Vec<State>| #[trigger] call_ensures(next_states, (&p,), w) && all_recorded(g, key, w@);
        assert(w@ == v@);
        let k = choose|k: int| 0 <= k < v@.len() && v@[k] == s;
        assert(recorded(g, key, w@[k]));
    }
}

/// Every state reachable from the recorded initial states [`passes`], under the same
/// conditions as [`lemma_reached_recorded`].
proof fn lemma_reached_passes<State, K: Fn(&State) -> u64, HOLDS: Fn(usize, &State) -> bool, NEXT: Fn(&State) -> Vec<State>>(
    expectations: Seq<Expectation>,
    g: Set<u64>,
    d: Seq<Option<Vec<u64>>>,
    init: Seq<State>,
    key: K,
    holds: HOLDS,
    next_states: NEXT,
    s: State,
    n: nat,
)
    requires
        explored(expectations, g, Seq::<Job<State>>::empty(), d, key, holds, next_states),
        forall|j: int| #![trigger init[j]] 0 <= j < init.len() ==> recorded(g, key, init[j]),
        injective(key),
        deterministic(next_states),
        reachable(init, next_states, s, n),
        d.len() == expectations.len(),
    ensures
        passes(expectations, d, holds, s),
{
    reveal(queued);
    if exists|i: int| 0 <= i < d.len() && (#[trigger] d[i]) is None {
        lemma_reached_recorded(expectations, g, d, init, key, holds, next_states, s, n);
        let k = choose|k: u64| #[trigger] call_ensures(key, (&s,), k) && g.contains(k);
        assert(!queued(Seq::<Job<State>>::empty(), key, k));
        let q = choose|q: State|
            #[trigger] call_ensures(key, (&q,), k) && passes(expectations, d, holds, q)
                && successors_recorded(g, key, next_states, q);
        assert(q == s);
    } else {
        assert forall|i: int| 0 <= i < expectations.len() && (#[trigger] d[i]) is None implies false by {
            assert(d[i] is None);
        }
    }
}

/// `b` is one of the states that `next_states` gives of `a`.
pub open spec fn successor<State, NEXT: Fn(&State) -> Vec<State>>(next_states: NEXT, a: State, b: State) -> bool {
    exists|v: Vec<State>| #[trigger] call_ensures(next_states, (&a,), v) && v@.contains(b)
}

/// The states `ps` have the fingerprints `d`, and each but the first is a successor of the one
/// before it.
pub open spec fn path_of<State, FP: Fn(&State) -> u64, NEXT: Fn(&State) -> Vec<State>>(
    ps: Seq<State>,
    d: Seq<u64>,
    fingerprint: FP,
    next_states: NEXT,
) -> bool {
    &&& ps.len() > 0
    &&& ps.len() == d.len()
    &&& forall|k: int| #![trigger ps[k]] 0 <= k < ps.len() ==> call_ensures(fingerprint, (&ps[k],), d[k])
    &&& forall|k: int| #![trigger ps[k]] 0 <= k < ps.len() - 1 ==> successor(next_states, ps[k], ps[k + 1])
}

/// Property `i` did not hold on any of the first `n` states of `ps`.
pub open spec fn unmet<State, HOLDS: Fn(usize, &State) -> bool>(holds: HOLDS, i: int, ps: Seq<State>, n: int) -> bool {
    forall|k: int| #![trigger ps[k]] 0 <= k < n ==> call_ensures(holds, (i as usize, &ps[k]), false)
}

/// The state of `job` is reached along the job's path of fingerprints, on whose earlier states
/// property `i` did not hold.
pub open spec fn job_unmet<State, FP: Fn(&State) -> u64, HOLDS: Fn(usize, &State) -> bool, NEXT: Fn(&State) -> Vec<State>>(
    job: Job<State>,
    i: int,
    fingerprint: FP,
    holds: HOLDS,
    next_states: NEXT,
) -> bool {
    exists|ps: Seq<State>|
        #[trigger] path_of(ps, job.fingerprints@, fingerprint, next_states) && ps.last() == job.state
            && unmet(holds, i, ps, ps.len() - 1)
}

/// The state `state` is reached along the path of fingerprints `d`, on none of whose states
/// (including `state`) property `i` held.
pub open spec fn state_unmet<State, FP: Fn(&State) -> u64, HOLDS: Fn(usize, &State) -> bool, NEXT: Fn(&State) -> Vec<State>>(
    state: State,
    d: Seq<u64>,
    i: int,
    fingerprint: FP,
    holds: HOLDS,
    next_states: NEXT,
) -> bool {
    exists|ps: Seq<State>|
        #[trigger] path_of(ps, d, fingerprint, next_states) && ps.last() == state && unmet(
            holds,
            i,
            ps,
            ps.len() as int,
        )
}

/// Each pending job whose bit for a property without a discovery is set was reached along a
/// path on which that property did not hold.
pub open spec fn paths_known<State, FP: Fn(&State) -> u64, HOLDS: Fn(usize, &State) -> bool, NEXT: Fn(&State) -> Vec<State>>(
    pending: Seq<Job<State>>,
    discoveries: Seq<Option<Vec<u64>>>,
    expectations: Seq<Expectation>,
    fingerprint: FP,
    holds: HOLDS,
    next_states: NEXT,
) -> bool {
    forall|j: int, i: int|
        #![trigger pending[j].ebits@[i]]
        0 <= j < pending.len() && 0 <= i < expectations.len() && pending[j].ebits@[i] && discoveries[i] is None
            ==> job_unmet(pending[j], i, fingerprint, holds, next_states)
}

/// Some path from the first state of one of the jobs `roots` reaches a terminal state without
/// property `i` holding on any of its states.
pub open spec fn unmet_to_terminal<State, FP: Fn(&State) -> u64, HOLDS: Fn(usize, &State) -> bool, NEXT: Fn(&State) -> Vec<State>>(
    i: int,
    roots: Seq<Job<State>>,
    fingerprint: FP,
    holds: HOLDS,
    next_states: NEXT,
) -> bool {
    exists|ps: Seq<State>, d: Seq<u64>, j: int|
        #![trigger path_of(ps, d, fingerprint, next_states), roots[j]]
        path_of(ps, d, fingerprint, next_states) && 0 <= j < roots.len() && roots[j].fingerprints@.len() > 0
            && d[0] == roots[j].fingerprints@[0] && unmet(holds, i, ps, ps.len() as int) && terminal(
            next_states,
            ps.last(),
        )
}

/// Some path of states, from one with the fingerprint of a state of `init`, reaches a terminal
/// state without property `i` holding on any of its states.
pub open spec fn unmet_from_init<State, FP: Fn(&State) -> u64, HOLDS: Fn(usize, &State) -> bool, NEXT: Fn(&State) -> Vec<State>>(
    i: int,
    init: Seq<State>,
    fingerprint: FP,
    holds: HOLDS,
    next_states: NEXT,
) -> bool {
    exists|ps: Seq<State>, d: Seq<u64>, j: int|
        #![trigger path_of(ps, d, fingerprint, next_states), init[j]]
        path_of(ps, d, fingerprint, next_states) && 0 <= j < init.len() && call_ensures(fingerprint, (&init[j],), d[0])
            && unmet(holds, i, ps, ps.len() as int) && terminal(next_states, ps.last())
}

/// `f` is the fingerprint of one of the states `init`.
pub open spec fn fingerprint_of_one<State, FP: Fn(&State) -> u64>(init: Seq<State>, fingerprint: FP, f: u64) -> bool {
    exists|k: int| #![trigger init[k]] 0 <= k < init.len() && call_ensures(fingerprint, (&init[k],), f)
}

/// The path of each of the jobs `jobs` starts with the fingerprint of a state of `init`.
pub open spec fn rooted_at<State, FP: Fn(&State) -> u64>(jobs: Seq<Job<State>>, init: Seq<State>, fingerprint: FP) -> bool {
    forall|j: int|
        #![trigger jobs[j]]
        0 <= j < jobs.len() ==> fingerprint_of_one(init, fingerprint, jobs[j].fingerprints@[0])
}

/// Jobs whose paths are their own states alone (as [`init_jobs`] makes them) were reached along
/// paths on which no property has failed to hold yet, whatever has been discovered.
pub proof fn lemma_init_paths_known<State, FP: Fn(&State) -> u64, HOLDS: Fn(usize, &State) -> bool, NEXT: Fn(&State) -> Vec<State>>(
    jobs: Seq<Job<State>>,
    discoveries: Seq<Option<Vec<u64>>>,
    expectations: Seq<Expectation>,
    fingerprint: FP,
    holds: HOLDS,
    next_states: NEXT,
)
    requires
        forall|j: int|
            #![trigger jobs[j]]
            0 <= j < jobs.len() ==> jobs[j].fingerprints@.len() == 1 && call_ensures(
                fingerprint,
                (&jobs[j].state,),
                jobs[j].fingerprints@[0],
            ),
    ensures
        paths_known(jobs, discoveries, expectations, fingerprint, holds, next_states),
{
    assert forall|j: int, i: int|
        0 <= j < jobs.len() && 0 <= i < expectations.len() && #[trigger] jobs[j].ebits@[i] && discoveries[i] is None
            implies job_unmet(jobs[j], i, fingerprint, holds, next_states) by {
        let ps = seq![jobs[j].state];
        assert(ps[0] == jobs[j].state);
        assert(path_of(ps, jobs[j].fingerprints@, fingerprint, next_states));
        assert(unmet(holds, i, ps, ps.len() - 1));
    }
}

/// An unmet path from the first state of one of `roots` starts at the fingerprint of a state of
/// `init` when the roots are rooted there.
proof fn lemma_unmet_rooted<State, FP: Fn(&State) -> u64, HOLDS: Fn(usize, &State) -> bool, NEXT: Fn(&State) -> Vec<State>>(
    i: int,
    roots: Seq<Job<State>>,
    init: Seq<State>,
    fingerprint: FP,
    holds: HOLDS,
    next_states: NEXT,
)
    requires
        unmet_to_terminal(i, roots, fingerprint, holds, next_states),
        rooted_at(roots, init, fingerprint),
    ensures
        unmet_from_init(i, init, fingerprint, holds, next_states),
{
    let (ps, d, j) = choose|ps: Seq<State>, d: Seq<u64>, j: int|
        #![trigger path_of(ps, d, fingerprint, next_states), roots[j]]
        path_of(ps, d, fingerprint, next_states) && 0 <= j < roots.len() && roots[j].fingerprints@.len() > 0
            && d[0] == roots[j].fingerprints@[0] && unmet(holds, i, ps, ps.len() as int) && terminal(
            next_states,
            ps.last(),
        );
    assert(fingerprint_of_one(init, fingerprint, roots[j].fingerprints@[0]));
    let k = choose|k: int| #![trigger init[k]] 0 <= k < init.len() && call_ensures(fingerprint, (&init[k],), roots[j].fingerprints@[0]);
    assert(path_of(ps, d, fingerprint, next_states) && 0 <= k < init.len() && call_ensures(fingerprint, (&init[k],), d[0]));
}

/// Jobs whose paths start as those of rooted jobs are rooted too.
proof fn lemma_rooted_kept<State, FP: Fn(&State) -> u64>(
    before: Seq<Job<State>>,
    after: Seq<Job<State>>,
    init: Seq<State>,
    fingerprint: FP,
)
    requires
        rooted_at(before, init, fingerprint),
        forall|j: int|
            0 <= j < after.len() ==> exists|j0: int|
                0 <= j0 < before.len() && (#[trigger] after[j]).fingerprints@[0] == before[j0].fingerprints@[0],
    ensures
        rooted_at(after, init, fingerprint),
{
    assert forall|j: int| #![trigger after[j]] 0 <= j < after.len() implies fingerprint_of_one(
        init,
        fingerprint,
        after[j].fingerprints@[0],
    ) by {
        let j0 = choose|j0: int| 0 <= j0 < before.len() && after[j].fingerprints@[0] == before[j0].fingerprints@[0];
        assert(fingerprint_of_one(init, fingerprint, before[j0].fingerprints@[0]));
    }
}

/// Extending a path by a successor of its last state, on which the property is not yet known.
proof fn lemma_extend_path<State, FP: Fn(&State) -> u64, HOLDS: Fn(usize, &State) -> bool, NEXT: Fn(&State) -> Vec<State>>(
    ps: Seq<State>,
    d: Seq<u64>,
    x: State,
    f: u64,
    i: int,
    fingerprint: FP,
    holds: HOLDS,
    next_states: NEXT,
)
    requires
        path_of(ps, d, fingerprint, next_states),
        unmet(holds, i, ps, ps.len() as int),
        call_ensures(fingerprint, (&x,), f),
        successor(next_states, ps.last(), x),
    ensures
        path_of(ps.push(x), d.push(f), fingerprint, next_states),
        unmet(holds, i, ps.push(x), ps.len() as int),
        ps.push(x).last() == x,
{
    let qs = ps.push(x);
    assert forall|k: int| #![trigger qs[k]] 0 <= k < qs.len() implies call_ensures(fingerprint, (&qs[k],), d.push(f)[k]) by {
        if k < ps.len() {
            assert(qs[k] == ps[k]);
        }
    }
    assert forall|k: int| #![trigger qs[k]] 0 <= k < qs.len() - 1 implies successor(next_states, qs[k], qs[k + 1]) by {
        if k < ps.len() - 1 {
            assert(qs[k] == ps[k] && qs[k + 1] == ps[k + 1]);
        } else {
            assert(qs[k] == ps.last());
        }
    }
    assert forall|k: int| #![trigger qs[k]] 0 <= k < ps.len() implies call_ensures(holds, (i as usize, &qs[k]), false) by {
        assert(qs[k] == ps[k]);
    }
}

/// Checks up to `max_count` pending jobs, taken from the top (back) of `pending`, for the
/// properties whose expectations are `expectations` (`holds(i, s)` evaluates property `i` on
/// state `s`).
///
/// For each job within `target_max_depth`: each property without a discovery yet is evaluated;
/// an `always` property that does not hold, or a `sometimes` property that holds, is discovered
/// with the job's path, and an `eventually` property that holds is marked as met on the path. If
/// no property awaits a discovery any more, checking stops. Otherwise each state of
/// `next_states` from the job's state whose key (its fingerprint, or that of its representative)
/// was not generated before is recorded and pushed on `pending` with the path extended by its
/// fingerprint, one level deeper. A state with no such successor is terminal: each `eventually`
/// property not met on its path is discovered with that path. Returns the greatest depth taken.
#[verifier::rlimit(100)]
#[verifier::spinoff_prover]
pub fn check_block<State, FP, K, HOLDS, NEXT>(
    expectations: &[Expectation],
    pending: &mut VecDeque<Job<State>>,
    generated: &mut HashSet<u64>,
    discoveries: &mut Vec<Option<Vec<u64>>>,
    max_count: usize,
    target_max_depth: Option<usize>,
    fingerprint: &FP,
    key: &K,
    holds: &HOLDS,
    next_states: &NEXT,
) -> (max_depth: usize) where
    FP: Fn(&State) -> u64,
    K: Fn(&State) -> u64,
    HOLDS: Fn(usize, &State) -> bool,
    NEXT: Fn(&State) -> Vec<State>,

    requires
        old(discoveries)@.len() == expectations@.len(),
        jobs_known(old(pending)@, old(generated)@, expectations@, *fingerprint, *key),
        old(generated)@.finite(),
        forall|s: &State| call_requires(*fingerprint, (s,)),
        forall|s: &State| call_requires(*key, (s,)),
        forall|i: usize, s: &State| call_requires(*holds, (i, s)),
        forall|s: &State| call_requires(*next_states, (s,)),
    ensures
        final(discoveries)@.len() == expectations@.len(),
        jobs_known(final(pending)@, final(generated)@, expectations@, *fingerprint, *key),
        old(generated)@.subset_of(final(generated)@),
        final(generated)@.finite(),
        max_count > 0 && old(pending)@.len() > 0 ==> max_depth >= old(pending)@.last().depth,
        final(generated)@ == old(generated)@ || final(generated)@.len() > old(generated)@.len(),
        max_count > 0 && old(pending)@.len() > 0 ==> final(generated)@.len() > old(generated)@.len()
            || (final(generated)@ == old(generated)@ && final(pending)@.len() < old(pending)@.len()),
        max_depth <= deepest(old(pending)@) + max_count,
        paths_known(old(pending)@, old(discoveries)@, expectations@, *fingerprint, *holds, *next_states)
            ==> paths_known(final(pending)@, final(discoveries)@, expectations@, *fingerprint, *holds, *next_states),
        paths_known(old(pending)@, old(discoveries)@, expectations@, *fingerprint, *holds, *next_states)
            ==> forall|i: int|
            0 <= i < expectations@.len() && expectations@[i] is Eventually && old(discoveries)@[i] is None
                && #[trigger] final(discoveries)@[i] is Some ==> unmet_to_terminal(
                i,
                old(pending)@,
                *fingerprint,
                *holds,
                *next_states,
            ),
        forall|j: int|
            0 <= j < final(pending)@.len() ==> exists|j0: int|
                0 <= j0 < old(pending)@.len() && (#[trigger] final(pending)@[j]).fingerprints@[0]
                    == old(pending)@[j0].fingerprints@[0],
        target_max_depth is None && explored(
            expectations@,
            old(generated)@,
            old(pending)@,
            old(discoveries)@,
            *key,
            *holds,
            *next_states,
        ) ==> explored(
            expectations@,
            final(generated)@,
            final(pending)@,
            final(discoveries)@,
            *key,
            *holds,
            *next_states,
        ),
        forall|i: int|
            0 <= i < expectations@.len() && #[trigger] old(discoveries)@[i] is Some ==> final(discoveries)@[i] is Some,
        forall|i: int|
            0 <= i < expectations@.len() && !(expectations@[i] is Eventually) && old(discoveries)@[i] is Some ==> #[trigger] final(discoveries)@[i] == old(discoveries)@[i],
        forall|i: int|
            0 <= i < expectations@.len() && #[trigger] final(discoveries)@[i] is Some && final(discoveries)@[i] != old(discoveries)@[i] ==> justified(
                expectations@[i],
                i,
                final(discoveries)@[i]->0@,
                *fingerprint,
                *holds,
                *next_states,
            ),
{
    let n = expectations.len();
    let ghost d0 = discoveries@;
    let ghost g0 = generated@;
    let mut count = max_count;
    let mut current_max_depth: usize = 0;
    let ghost top = deepest(pending@);
    let ghost p0 = pending@.len();
    let ghost ex0 = target_max_depth is None && explored(
        expectations@,
        generated@,
        pending@,
        discoveries@,
        *key,
        *holds,
        *next_states,
    );
    let ghost pk0 = paths_known(pending@, discoveries@, expectations@, *fingerprint, *holds, *next_states);
    let ghost ps0 = pending@;
    proof {
        lemma_deepest(pending@);
    }
    while count > 0
        invariant
            ps0 == old(pending)@,
            forall|j: int| 0 <= j < ps0.len() ==> (#[trigger] ps0[j]).fingerprints@.len() > 0,
            pk0 ==> paths_known(pending@, discoveries@, expectations@, *fingerprint, *holds, *next_states),
            pk0 ==> forall|i: int|
                0 <= i < n && expectations@[i] is Eventually && d0[i] is None && #[trigger] discoveries@[i] is Some
                    ==> unmet_to_terminal(i, ps0, *fingerprint, *holds, *next_states),
            forall|j: int|
                0 <= j < pending@.len() ==> exists|j0: int|
                    0 <= j0 < ps0.len() && (#[trigger] pending@[j]).fingerprints@[0] == ps0[j0].fingerprints@[0],
            ex0 ==> target_max_depth is None && explored(
                expectations@,
                generated@,
                pending@,
                discoveries@,
                *key,
                *holds,
                *next_states,
            ),
            count <= max_count,
            forall|j: int| 0 <= j < pending@.len() ==> (#[trigger] pending@[j]).depth <= top + (max_count - count),
            current_max_depth <= top + (max_count - count),
            top == deepest(old(pending)@),
            old(pending)@.len() > 0 && count < max_count ==> current_max_depth >= old(pending)@.last().depth,
            count == max_count ==> pending@ == old(pending)@,
            p0 == old(pending)@.len(),
            generated@ == g0 || generated@.len() > g0.len(),
            generated@ == g0 ==> pending@.len() + (max_count - count) <= p0 || pending@.len() == 0,
            n == expectations@.len(),
            discoveries@.len() == n,
            jobs_known(pending@, generated@, expectations@, *fingerprint, *key),
            g0.subset_of(generated@),
            generated@.finite(),
            forall|i: int| 0 <= i < n && #[trigger] d0[i] is Some ==> discoveries@[i] is Some,
            forall|i: int| 0 <= i < n && !(expectations@[i] is Eventually) && d0[i] is Some ==> #[trigger] discoveries@[i] == d0[i],
            forall|i: int| 0 <= i < n && #[trigger] discoveries@[i] is Some && discoveries@[i] != d0[i] ==> justified(
                expectations@[i],
                i,
                discoveries@[i]->0@,
                *fingerprint,
                *holds,
                *next_states,
            ),
            forall|s: &State| call_requires(*fingerprint, (s,)),
            forall|s: &State| call_requires(*key, (s,)),
            forall|i: usize, s: &State| call_requires(*holds, (i, s)),
            forall|s: &State| call_requires(*next_states, (s,)),
        ensures
            max_count == 0 || count < max_count,
        decreases count,
    {
        let ghost p_b = pending@;
        let ghost g_b = generated@;
        let ghost d_b = discoveries@;
        count = count - 1;
        let job = match pending.pop_back() {
            None => {
                break;
            },
            Some(job) => job,
        };
        proof {
            assert(pending@ == p_b.drop_last());
            assert forall|j: int| 0 <= j < pending@.len() implies exists|j0: int|
                0 <= j0 < ps0.len() && (#[trigger] pending@[j]).fingerprints@[0] == ps0[j0].fingerprints@[0] by {
                assert(pending@[j] == p_b[j]);
            }
            if pk0 {
                assert forall|j: int, q: int|
                    0 <= j < pending@.len() && 0 <= q < n && #[trigger] pending@[j].ebits@[q] && discoveries@[q] is None
                        implies job_unmet(pending@[j], q, *fingerprint, *holds, *next_states) by {
                    assert(pending@[j] == p_b[j]);
                    assert(p_b[j].ebits@[q]);
                }
            }
        }
        if job.depth > current_max_depth {
            current_max_depth = job.depth;
        }
        match target_max_depth {
            Some(t) => {
                if job.depth >= t {
                    continue;
                }
            },
            None => {},
        }
        let ghost jb = job;
        let Job { state, fingerprints, ebits, depth } = job;
        proof {
            assert(pending@ == p_b.drop_last());
            assert(jb == p_b.last());
            if pk0 {
                assert forall|q: int| 0 <= q < n && #[trigger] jb.ebits@[q] && d_b[q] is None implies job_unmet(
                    jb,
                    q,
                    *fingerprint,
                    *holds,
                    *next_states,
                ) by {
                    assert(p_b[p_b.len() - 1].ebits@[q]);
                }
            }
            let j0 = choose|j0: int| 0 <= j0 < ps0.len() && p_b[p_b.len() - 1].fingerprints@[0] == ps0[j0].fingerprints@[0];
            assert(exists|j0: int| 0 <= j0 < ps0.len() && jb.fingerprints@[0] == ps0[j0].fingerprints@[0]);
        }
        let ghost ebits0 = ebits@;
        let mut ebits = ebits;
        let mut awaiting = false;
        let mut i: usize = 0;
        while i < n
            invariant
                jb.fingerprints == fingerprints,
                jb.state == state,
                jb.ebits@ == ebits0,
                forall|q: int| i <= q < n ==> ebits@[q] == ebits0[q],
                forall|q: int| 0 <= q < n && expectations@[q] is Eventually ==> #[trigger] discoveries@[q] == d_b[q],
                pk0 ==> forall|q: int| 0 <= q < n && #[trigger] ebits0[q] && d_b[q] is None ==> job_unmet(
                    jb,
                    q,
                    *fingerprint,
                    *holds,
                    *next_states,
                ),
                pk0 ==> forall|q: int|
                    0 <= q < i && #[trigger] ebits@[q] && discoveries@[q] is None ==> state_unmet(
                        state,
                        fingerprints@,
                        q,
                        *fingerprint,
                        *holds,
                        *next_states,
                    ),
                d_b.len() == n,
                forall|q: int| 0 <= q < n && (#[trigger] discoveries@[q]) is None ==> d_b[q] is None,
                forall|q: int|
                    0 <= q < i && (#[trigger] discoveries@[q]) is None ==> match expectations@[q] {
                        Expectation::Always => call_ensures(*holds, (q as usize, &state), true),
                        Expectation::Sometimes => call_ensures(*holds, (q as usize, &state), false),
                        Expectation::Eventually => true,
                    },
                !awaiting ==> forall|q: int| 0 <= q < i ==> (#[trigger] discoveries@[q]) is Some,
                i <= n,
                n == expectations@.len(),
                discoveries@.len() == n,
                ebits@.len() == n,
                forall|q: int| 0 <= q < n && #[trigger] ebits@[q] ==> expectations@[q] is Eventually,
                fingerprints@.len() > 0,
                call_ensures(*fingerprint, (&state,), fingerprints@.last()),
                forall|q: int| 0 <= q < n && #[trigger] d0[q] is Some ==> discoveries@[q] is Some,
                forall|q: int| 0 <= q < n && !(expectations@[q] is Eventually) && d0[q] is Some ==> #[trigger] discoveries@[q] == d0[q],
                forall|q: int| 0 <= q < n && #[trigger] discoveries@[q] is Some && discoveries@[q] != d0[q] ==> justified(
                    expectations@[q],
                    q,
                    discoveries@[q]->0@,
                    *fingerprint,
                    *holds,
                    *next_states,
                ),
                forall|i: usize, s: &State| call_requires(*holds, (i, s)),
            decreases n - i,
        {
            if discoveries[i].is_none() {
                let h = holds(i, &state);
                proof {
                    assert(((i as int) as usize) == i);
                }
                match expectations[i] {
                    Expectation::Always => {
                        if !h {
                            discoveries.set(i, Some(extended(&fingerprints, None)));
                        } else {
                            awaiting = true;
                        }
                    },
                    Expectation::Sometimes => {
                        if h {
                            discoveries.set(i, Some(extended(&fingerprints, None)));
                        } else {
                            awaiting = true;
                        }
                    },
                    Expectation::Eventually => {
                        awaiting = true;
                        if h {
                            ebits.set(i, false);
                        } else {
                            proof {
                                if pk0 && ebits0[i as int] {
                                    assert(job_unmet(jb, i as int, *fingerprint, *holds, *next_states));
                                    let ps = choose|ps: Seq<State>|
                                        #[trigger] path_of(ps, jb.fingerprints@, *fingerprint, *next_states)
                                            && ps.last() == jb.state && unmet(*holds, i as int, ps, ps.len() - 1);
                                    assert(unmet(*holds, i as int, ps, ps.len() as int)) by {
                                        assert forall|k: int| #![trigger ps[k]] 0 <= k < ps.len() implies call_ensures(
                                            *holds,
                                            ((i as int) as usize, &ps[k]),
                                            false,
                                        ) by {
                                            if k == ps.len() - 1 {
                                                assert(ps[k] == state);
                                            }
                                        }
                                    }
                                    assert(state_unmet(state, fingerprints@, i as int, *fingerprint, *holds, *next_states));
                                }
                            }
                        }
                    },
                }
            }
            i = i + 1;
        }
        if !awaiting {
            proof {
                assert(forall|q: int| 0 <= q < discoveries@.len() ==> (#[trigger] discoveries@[q]) is Some);
            }
            break;
        }
        proof {
            assert(passes(expectations@, discoveries@, *holds, state));
            if pk0 {
                assert forall|j: int, q: int|
                    0 <= j < pending@.len() && 0 <= q < n && #[trigger] pending@[j].ebits@[q] && discoveries@[q] is None
                        implies job_unmet(pending@[j], q, *fingerprint, *holds, *next_states) by {
                    assert(pending@[j] == p_b[j]);
                    assert(p_b[j].ebits@[q]);
                    assert(d_b[q] is None);
                }
            }
        }
        let ghost root_ok = exists|j0: int| 0 <= j0 < ps0.len() && fingerprints@[0] == ps0[j0].fingerprints@[0];
        let nexts = next_states(&state);
        let ghost nexts0 = nexts;
        let mut rev: Vec<State> = Vec::new();
        let mut rest = nexts;
        while rest.len() > 0
            invariant
                rev@.len() + rest@.len() == nexts0@.len(),
                forall|j: int| 0 <= j < rest@.len() ==> rest@[j] == nexts0@[j],
                forall|j: int| 0 <= j < rev@.len() ==> #[trigger] rev@[j] == nexts0@[nexts0@.len() - 1 - j],
            decreases rest@.len(),
        {
            let x = rest.pop().unwrap();
            rev.push(x);
        }
        let mut is_terminal = true;
        while rev.len() > 0
            invariant
                is_terminal ==> rev@.len() == nexts0@.len(),
                root_ok,
                root_ok == exists|j0: int| 0 <= j0 < ps0.len() && fingerprints@[0] == ps0[j0].fingerprints@[0],
                fingerprints@.len() > 0,
                call_ensures(*next_states, (&state,), nexts0),
                pk0 ==> paths_known(pending@, discoveries@, expectations@, *fingerprint, *holds, *next_states),
                pk0 ==> forall|q: int|
                    0 <= q < n && #[trigger] ebits@[q] && discoveries@[q] is None ==> state_unmet(
                        state,
                        fingerprints@,
                        q,
                        *fingerprint,
                        *holds,
                        *next_states,
                    ),
                forall|j: int|
                    0 <= j < pending@.len() ==> exists|j0: int|
                        0 <= j0 < ps0.len() && (#[trigger] pending@[j]).fingerprints@[0] == ps0[j0].fingerprints@[0],
                rev@.len() <= nexts0@.len(),
                forall|j: int| 0 <= j < rev@.len() ==> #[trigger] rev@[j] == nexts0@[nexts0@.len() - 1 - j],
                forall|k: int|
                    #![trigger nexts0@[k]] 0 <= k < nexts0@.len() - rev@.len() ==> recorded(generated@, *key, nexts0@[k]),
                g_b.subset_of(generated@),
                forall|k: u64| #[trigger] generated@.contains(k) && !g_b.contains(k) ==> queued(pending@, *key, k),
                forall|k: u64| queued(p_b.drop_last(), *key, k) ==> #[trigger] queued(pending@, *key, k),
                n == expectations@.len(),
                discoveries@.len() == n,
                ebits@.len() == n,
                forall|q: int| 0 <= q < n && #[trigger] ebits@[q] ==> expectations@[q] is Eventually,
                jobs_known(pending@, generated@, expectations@, *fingerprint, *key),
                g0.subset_of(generated@),
                generated@.finite(),
                forall|s: &State| call_requires(*fingerprint, (s,)),
                forall|s: &State| call_requires(*key, (s,)),
                count < max_count,
                depth + 1 <= top + (max_count - count),
                generated@ == g0 || generated@.len() > g0.len(),
                generated@ == g0 ==> pending@.len() + (max_count - count) <= p0 || pending@.len() == 0,
                forall|j: int| 0 <= j < pending@.len() ==> (#[trigger] pending@[j]).depth <= top + (max_count - count),
            decreases rev@.len(),
        {
            let ghost rb = rev@;
            let next_state = rev.pop().unwrap();
            let k = key(&next_state);
            proof {
                assert(next_state == nexts0@[nexts0@.len() - rb.len()]);
            }
            is_terminal = false;
            let ghost gb = generated@;
            if !generated.insert(k) {
                proof {
                    assert(generated@ =~= gb);
                    assert(recorded(generated@, *key, next_state));
                }
                continue;
            }
            proof {
                assert(recorded(generated@, *key, next_state));
                assert forall|kk: int|
                    #![trigger nexts0@[kk]] 0 <= kk < nexts0@.len() - rb.len() implies recorded(generated@, *key, nexts0@[kk]) by {
                    lemma_recorded_kept(gb, generated@, *key, nexts0@[kk]);
                }
            }
            proof {
                broadcast use vstd::std_specs::hash::group_hash_axioms;
                broadcast use vstd::set::group_set_axioms;

                assert(!gb.contains(k));
                assert(generated@ == gb.insert(k));
                assert(generated@.len() == gb.len() + 1);
                assert(!g0.contains(k));
                assert(generated@ != g0);
            }
            let next_fp = fingerprint(&next_state);
            let ghost pb = pending@;
            let ghost nx = next_state;
            pending.push_back(Job { state: next_state, fingerprints: extended(&fingerprints, Some(next_fp)), ebits: copy_bits(&ebits), depth: depth.saturating_add(1) });
            proof {
                let nj = pending@[pb.len() as int];
                assert(nj.state == nx && nj.fingerprints@ == fingerprints@.push(next_fp) && nj.ebits@ == ebits@);
                assert(nexts0@.contains(nx));
                assert(successor(*next_states, state, nx));
                assert forall|j: int| 0 <= j < pending@.len() implies exists|j0: int|
                    0 <= j0 < ps0.len() && (#[trigger] pending@[j]).fingerprints@[0] == ps0[j0].fingerprints@[0] by {
                    if j < pb.len() {
                        assert(pending@[j] == pb[j]);
                    } else {
                        assert(nj.fingerprints@[0] == fingerprints@[0]);
                    }
                }
                if pk0 {
                    assert forall|j: int, q: int|
                        0 <= j < pending@.len() && 0 <= q < n && #[trigger] pending@[j].ebits@[q] && discoveries@[q] is None
                            implies job_unmet(pending@[j], q, *fingerprint, *holds, *next_states) by {
                        if j < pb.len() {
                            assert(pending@[j] == pb[j]);
                            assert(pb[j].ebits@[q]);
                        } else {
                            assert(ebits@[q]);
                            assert(state_unmet(state, fingerprints@, q, *fingerprint, *holds, *next_states));
                            let ps = choose|ps: Seq<State>|
                                #[trigger] path_of(ps, fingerprints@, *fingerprint, *next_states) && ps.last() == state
                                    && unmet(*holds, q, ps, ps.len() as int);
                            lemma_extend_path(ps, fingerprints@, nx, next_fp, q, *fingerprint, *holds, *next_states);
                            assert(path_of(ps.push(nx), nj.fingerprints@, *fingerprint, *next_states));
                        }
                    }
                }
            }
            proof {
                assert forall|j: int| 0 <= j < pending@.len() implies {
                    &&& (#[trigger] pending@[j]).fingerprints@.len() > 0
                    &&& call_ensures(*fingerprint, (&pending@[j].state,), pending@[j].fingerprints@.last())
                    &&& exists|k: u64| call_ensures(*key, (&pending@[j].state,), k) && generated@.contains(k)
                    &&& pending@[j].ebits@.len() == expectations@.len()
                    &&& forall|i: int|
                        0 <= i < expectations@.len() && #[trigger] pending@[j].ebits@[i] ==> expectations@[i]
                            is Eventually
                } by {
                    if j < pb.len() {
                        assert(pending@[j] == pb[j]);
                        let k2 = choose|k2: u64| call_ensures(*key, (&pb[j].state,), k2) && gb.contains(k2);
                        assert(generated@.contains(k2));
                    } else {
                        assert(call_ensures(*key, (&pending@[j].state,), k) && generated@.contains(k));
                    }
                }
                assert(call_ensures(*key, (&pending@[pb.len() as int].state,), k));
                reveal(queued);
                assert forall|kk: u64| queued(pb, *key, kk) implies #[trigger] queued(pending@, *key, kk) by {
                    let j = choose|j: int| #![trigger pb[j]] 0 <= j < pb.len() && call_ensures(*key, (&pb[j].state,), kk);
                    assert(pending@[j] == pb[j]);
                }
                assert forall|kk: u64| #[trigger] generated@.contains(kk) && !g_b.contains(kk) implies queued(pending@, *key, kk) by {
                    if kk == k {
                        assert(pending@[pb.len() as int].state == next_state);
                    } else {
                        assert(gb.contains(kk));
                        assert(queued(pb, *key, kk));
                    }
                }
            }
        }
        proof {
            assert(all_recorded(generated@, *key, nexts0@));
            assert(call_ensures(*next_states, (&state,), nexts0));
            assert(successors_recorded(generated@, *key, *next_states, state));
        }
        let ghost d_t = discoveries@;
        if is_terminal {
            proof {
                assert(call_ensures(*next_states, (&state,), nexts0));
                assert(terminal(*next_states, state));
            }
            let mut i: usize = 0;
            while i < n
                invariant
                    terminal(*next_states, state),
                    forall|j: int| 0 <= j < ps0.len() ==> (#[trigger] ps0[j]).fingerprints@.len() > 0,
                    root_ok,
                    root_ok == exists|j0: int| 0 <= j0 < ps0.len() && fingerprints@[0] == ps0[j0].fingerprints@[0],
                    d_t.len() == n,
                    forall|q: int| i <= q < n ==> #[trigger] discoveries@[q] == d_t[q],
                    pk0 ==> paths_known(pending@, discoveries@, expectations@, *fingerprint, *holds, *next_states),
                    pk0 ==> forall|q: int|
                        0 <= q < n && #[trigger] ebits@[q] && d_t[q] is None ==> state_unmet(
                            state,
                            fingerprints@,
                            q,
                            *fingerprint,
                            *holds,
                            *next_states,
                        ),
                    pk0 ==> forall|q: int|
                        0 <= q < n && expectations@[q] is Eventually && d0[q] is None && #[trigger] discoveries@[q] is Some
                            ==> unmet_to_terminal(q, ps0, *fingerprint, *holds, *next_states),
                    d_b.len() == n,
                    passes(expectations@, discoveries@, *holds, state),
                    forall|q: int| 0 <= q < n && (#[trigger] discoveries@[q]) is None ==> d_b[q] is None,
                    n == expectations@.len(),
                    discoveries@.len() == n,
                    ebits@.len() == n,
                    forall|q: int| 0 <= q < n && #[trigger] ebits@[q] ==> expectations@[q] is Eventually,
                    fingerprints@.len() > 0,
                    call_ensures(*fingerprint, (&state,), fingerprints@.last()),
                    forall|q: int| 0 <= q < n && #[trigger] d0[q] is Some ==> discoveries@[q] is Some,
                    forall|q: int| 0 <= q < n && !(expectations@[q] is Eventually) && d0[q] is Some ==> #[trigger] discoveries@[q] == d0[q],
                    forall|q: int| 0 <= q < n && #[trigger] discoveries@[q] is Some && discoveries@[q] != d0[q] ==> justified(
                        expectations@[q],
                        q,
                        discoveries@[q]->0@,
                        *fingerprint,
                        *holds,
                        *next_states,
                    ),
                decreases n - i,
            {
                if ebits[i] {
                    let ghost db = discoveries@;
                    discoveries.set(i, Some(extended(&fingerprints, None)));
                    proof {
                        if pk0 && d0[i as int] is None {
                            if d_t[i as int] is None {
                                assert(ebits@[i as int]);
                                assert(state_unmet(state, fingerprints@, i as int, *fingerprint, *holds, *next_states));
                                let ps = choose|ps: Seq<State>|
                                    #[trigger] path_of(ps, fingerprints@, *fingerprint, *next_states) && ps.last() == state
                                        && unmet(*holds, i as int, ps, ps.len() as int);
                                let j0 = choose|j0: int| 0 <= j0 < ps0.len() && fingerprints@[0] == ps0[j0].fingerprints@[0];
                                assert(path_of(ps, fingerprints@, *fingerprint, *next_states) && 0 <= j0 < ps0.len()
                                    && ps0[j0].fingerprints@.len() > 0);
                                assert(unmet_to_terminal(i as int, ps0, *fingerprint, *holds, *next_states));
                            } else {
                                assert(db[i as int] is Some);
                            }
                        }
                    }
                }
                i = i + 1;
            }
        }
        proof {
            if ex0 {
                lemma_explored_step(
                    expectations@,
                    g_b,
                    p_b,
                    d_b,
                    generated@,
                    pending@,
                    discoveries@,
                    *key,
                    *holds,
                    *next_states,
                );
            }
        }
    }
    current_max_depth
}

/// Checks depth first from the initial states `init_states`, in blocks of 1500 jobs (see
/// [`check_block`]), until every property has a discovery or no job is left; states with the same
/// `key` are checked once. Returns the discoveries (each a path of fingerprints), the keys of the
/// states generated, the greatest depth taken, and the number of jobs left (none unless every
/// property has a discovery).
pub fn search<State, FP, K, HOLDS, NEXT>(
    expectations: &[Expectation],
    init_states: Vec<State>,
    target_max_depth: Option<usize>,
    fingerprint: &FP,
    key: &K,
    holds: &HOLDS,
    next_states: &NEXT,
) -> (r: (Vec<Option<Vec<u64>>>, HashSet<u64>, usize, usize)) where
    FP: Fn(&State) -> u64,
    K: Fn(&State) -> u64,
    HOLDS: Fn(usize, &State) -> bool,
    NEXT: Fn(&State) -> Vec<State>,

    requires
        forall|s: &State| call_requires(*fingerprint, (s,)),
        forall|s: &State| call_requires(*key, (s,)),
        forall|i: usize, s: &State| call_requires(*holds, (i, s)),
        forall|s: &State| call_requires(*next_states, (s,)),
    ensures
        r.0@.len() == expectations@.len(),
        forall|i: int|
            0 <= i < expectations@.len() && #[trigger] r.0@[i] is Some ==> justified(
                expectations@[i],
                i,
                r.0@[i]->0@,
                *fingerprint,
                *holds,
                *next_states,
            ),
        r.3 == 0 || forall|i: int| 0 <= i < expectations@.len() ==> #[trigger] r.0@[i] is Some,
        target_max_depth is None && r.3 == 0 && injective(*key) && deterministic(*next_states)
            ==> forall|s: State, k: nat|
            #[trigger] reachable(init_states@, *next_states, s, k) ==> passes(expectations@, r.0@, *holds, s),
        forall|i: int|
            0 <= i < expectations@.len() && expectations@[i] is Eventually && #[trigger] r.0@[i] is Some
                ==> unmet_from_init(i, init_states@, *fingerprint, *holds, *next_states),
{
    let n = expectations.len();
    let ghost init0 = init_states@;
    let (mut pending, mut generated) = init_jobs(expectations, init_states, fingerprint, key);
    proof {
        assert forall|j: int| #![trigger init0[j]] 0 <= j < init0.len() implies recorded(generated@, *key, init0[j]) by {
            assert(pending@.map_values(|job: Job<State>| job.state)[j] == init0[j]);
            let k = choose|k: u64| call_ensures(*key, (&pending@[j].state,), k) && generated@.contains(k);
            assert(call_ensures(*key, (&init0[j],), k));
        }
    }
    let mut discoveries: Vec<Option<Vec<u64>>> = Vec::new();
    let mut i: usize = 0;
    while i < n
        invariant
            i <= n,
            discoveries@.len() == i,
            forall|j: int| 0 <= j < i ==> #[trigger] discoveries@[j] is None,
        decreases n - i,
    {
        discoveries.push(None);
        i = i + 1;
    }
    proof {
        assert forall|j: int| #![trigger pending@[j]] 0 <= j < pending@.len() implies pending@[j].fingerprints@.len() == 1
            && call_ensures(*fingerprint, (&pending@[j].state,), pending@[j].fingerprints@[0]) by {
            assert(pending@[j].fingerprints@.len() == 1);
        }
        lemma_init_paths_known(pending@, discoveries@, expectations@, *fingerprint, *holds, *next_states);
        assert forall|j: int| #![trigger pending@[j]] 0 <= j < pending@.len() implies fingerprint_of_one(
            init0,
            *fingerprint,
            pending@[j].fingerprints@[0],
        ) by {
            assert(pending@.map_values(|job: Job<State>| job.state)[j] == init0[j]);
            assert(pending@[j].fingerprints@.len() == 1);
            assert(call_ensures(*fingerprint, (&init0[j],), pending@[j].fingerprints@[0]));
        }
        assert(rooted_at(pending@, init0, *fingerprint));
    }
    let mut max_depth: usize = 0;
    while pending.len() > 0 && awaiting_any(&discoveries)
        invariant
            init0 == init_states@,
            paths_known(pending@, discoveries@, expectations@, *fingerprint, *holds, *next_states),
            rooted_at(pending@, init0, *fingerprint),
            forall|i: int|
                0 <= i < n && expectations@[i] is Eventually && #[trigger] discoveries@[i] is Some
                    ==> unmet_from_init(i, init0, *fingerprint, *holds, *next_states),
            forall|j: int| #![trigger init0[j]] 0 <= j < init0.len() ==> recorded(generated@, *key, init0[j]),
            target_max_depth is None ==> explored(
                expectations@,
                generated@,
                pending@,
                discoveries@,
                *key,
                *holds,
                *next_states,
            ),
            n == expectations@.len(),
            discoveries@.len() == n,
            jobs_known(pending@, generated@, expectations@, *fingerprint, *key),
            generated@.finite(),
            forall|i: int|
                0 <= i < n && #[trigger] discoveries@[i] is Some ==> justified(
                    expectations@[i],
                    i,
                    discoveries@[i]->0@,
                    *fingerprint,
                    *holds,
                    *next_states,
                ),
            forall|s: &State| call_requires(*fingerprint, (s,)),
            forall|s: &State| call_requires(*key, (s,)),
            forall|i: usize, s: &State| call_requires(*holds, (i, s)),
            forall|s: &State| call_requires(*next_states, (s,)),
        decreases usize::MAX - generated@.len(), pending@.len(),
    {
        let ghost d0 = discoveries@;
        let ghost g_before = generated@;
        let ghost p_before = pending@;
        let depth = check_block(
            expectations,
            &mut pending,
            &mut generated,
            &mut discoveries,
            1500,
            target_max_depth,
            fingerprint,
            key,
            holds,
            next_states,
        );
        proof {
            assert forall|i: int|
                0 <= i < n && #[trigger] discoveries@[i] is Some implies justified(
                expectations@[i],
                i,
                discoveries@[i]->0@,
                *fingerprint,
                *holds,
                *next_states,
            ) by {
                if discoveries@[i] == d0[i] {
                    assert(d0[i] is Some);
                }
            }
            assert(generated@.len() <= usize::MAX) by {
                assert(generated.len() == generated@.len());
            }
            assert forall|j: int| #![trigger init0[j]] 0 <= j < init0.len() implies recorded(generated@, *key, init0[j]) by {
                lemma_recorded_kept(g_before, generated@, *key, init0[j]);
            }
            lemma_rooted_kept(p_before, pending@, init0, *fingerprint);
            assert forall|i: int|
                0 <= i < n && expectations@[i] is Eventually && #[trigger] discoveries@[i] is Some implies unmet_from_init(
                i,
                init0,
                *fingerprint,
                *holds,
                *next_states,
            ) by {
                if d0[i] is None {
                    lemma_unmet_rooted(i, p_before, init0, *fingerprint, *holds, *next_states);
                }
            }
        }
        if depth > max_depth {
            max_depth = depth;
        }
    }
    let left = pending.len();
    proof {
        if target_max_depth is None && left == 0 && injective(*key) && deterministic(*next_states) {
            assert(pending@ == Seq::<Job<State>>::empty());
            assert forall|s: State, k: nat| #[trigger] reachable(init_states@, *next_states, s, k) implies passes(
                expectations@,
                discoveries@,
                *holds,
                s,
            ) by {
                lemma_reached_passes(
                    expectations@,
                    generated@,
                    discoveries@,
                    init0,
                    *key,
                    *holds,
                    *next_states,
                    s,
                    k,
                );
            }
        }
    }
    (discoveries, generated, max_depth, left)
}

} // verus!
