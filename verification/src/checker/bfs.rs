//! The breadth-first search at the heart of the model checker: it takes states from the back of
//! a queue of pending jobs, evaluates the properties on each, and queues the states first reached
//! from it at the front, remembering from which state each was first reached.

use crate::checker::expectation::Expectation;
use crate::checker::dfs::{successor, unmet};
use std::collections::{HashMap, VecDeque};
use vstd::prelude::*;

verus! {

broadcast use vstd::std_specs::hash::group_hash_axioms;

/// A state awaiting checking: the state, its fingerprint, which `eventually` properties have not
/// held yet on the path that reached it (by property index), and its depth on that path.
pub struct Job<State> {
    pub state: State,
    pub fingerprint: u64,
    pub ebits: Vec<bool>,
    pub depth: usize,
}

/// Every state recorded in `generated` was first reached from a state recorded there too (or is
/// an initial state, reached from none).
pub open spec fn parents_known(generated: Map<u64, Option<u64>>) -> bool {
    forall|k: u64|
        #[trigger] generated.contains_key(k) && generated[k] is Some ==> generated.contains_key(
            generated[k]->0,
        )
}

/// Each pending job is well formed for the properties `expectations`: its fingerprint is
/// recorded in `generated`, it is the fingerprint `fingerprint` gives of its state, and its
/// bits mark `eventually` properties only.
pub open spec fn jobs_known<State, FP: Fn(&State) -> u64>(
    pending: Seq<Job<State>>,
    generated: Map<u64, Option<u64>>,
    expectations: Seq<Expectation>,
    fingerprint: FP,
) -> bool {
    forall|j: int|
        0 <= j < pending.len() ==> {
            &&& generated.contains_key(#[trigger] pending[j].fingerprint)
            &&& call_ensures(fingerprint, (&pending[j].state,), pending[j].fingerprint)
            &&& pending[j].ebits@.len() == expectations.len()
            &&& forall|i: int|
                0 <= i < expectations.len() && #[trigger] pending[j].ebits@[i] ==> expectations[i]
                    is Eventually
        }
}

/// Each discovery is the fingerprint of a recorded state.
pub open spec fn discoveries_known(discoveries: Seq<Option<u64>>, generated: Map<u64, Option<u64>>) -> bool {
    forall|i: int|
        0 <= i < discoveries.len() && #[trigger] discoveries[i] is Some ==> generated.contains_key(
            discoveries[i]->0,
        )
}

/// The discovery `d` for property `i` (of expectation `e`) is justified by a state of
/// fingerprint `d`: one where the property did not hold for `always`, did hold for `sometimes`.
pub open spec fn justified<
    State,
    FP: Fn(&State) -> u64,
    HOLDS: Fn(usize, &State) -> bool,
    NEXT: Fn(&State) -> Vec<State>,
>(
    e: Expectation,
    i: int,
    d: u64,
    fingerprint: FP,
    holds: HOLDS,
    next_states: NEXT,
) -> bool {
    exists|s: State|
        #[trigger] call_ensures(fingerprint, (&s,), d) && match e {
            Expectation::Always => call_ensures(holds, (i as usize, &s), false),
            Expectation::Sometimes => call_ensures(holds, (i as usize, &s), true),
            Expectation::Eventually => terminal(next_states, s),
        }
}

/// `s` is a terminal state: `next_states` gives no successor of it.
pub open spec fn terminal<State, NEXT: Fn(&State) -> Vec<State>>(next_states: NEXT, s: State) -> bool {
    exists|v: Vec<State>| #[trigger] call_ensures(next_states, (&s,), v) && v@.len() == 0
}

/// A copy of a vector of bits.
fn copy_bits(v: &Vec<bool>) -> (r: Vec<bool>)
    ensures
        r@ == v@,
{
    let mut r: Vec<bool> = Vec::new();
    let mut i: usize = 0;
    while i < v.len()
        invariant
            i <= v@.len(),
            r@ == v@.take(i as int),
        decreases v@.len() - i,
    {
        r.push(v[i]);
        proof {
            assert(v@.take(i + 1) == v@.take(i as int).push(v@[i as int]));
        }
        i = i + 1;
    }
    proof {
        assert(v@.take(v@.len() as int) == v@);
    }
    r
}

/// `path` is a chain of recorded states, each first reached from the one before it, starting at
/// an initial state (one reached from none).
pub open spec fn chain(generated: Map<u64, Option<u64>>, path: Seq<u64>) -> bool {
    &&& path.len() > 0
    &&& forall|j: int| 0 <= j < path.len() ==> generated.contains_key(#[trigger] path[j])
    &&& generated[path[0]] is None
    &&& forall|j: int| 0 < j < path.len() ==> #[trigger] generated[path[j]] == Some(path[j - 1])
}

/// Which of the properties of `expectations` are `eventually` properties.
pub open spec fn eventually_bits(expectations: Seq<Expectation>) -> Seq<bool> {
    expectations.map_values(|e: Expectation| e is Eventually)
}

/// The jobs for the initial states `init_states`, in order, with the bookkeeping that records
/// them as initial: each at depth 1, its fingerprint given by `fingerprint`, with the
/// `eventually` properties of `expectations` not yet met.
pub fn init_jobs<State, FP>(
    expectations: &[Expectation],
    init_states: Vec<State>,
    fingerprint: &FP,
) -> (r: (VecDeque<Job<State>>, HashMap<u64, Option<u64>>)) where
    FP: Fn(&State) -> u64,

    requires
        forall|s: &State| call_requires(*fingerprint, (s,)),
    ensures
        r.0@.len() == init_states@.len(),
        r.0@.map_values(|job: Job<State>| job.state) == init_states@,
        forall|j: int| 0 <= j < r.0@.len() ==> (#[trigger] r.0@[j]).depth == 1 && r.0@[j].ebits@ == eventually_bits(expectations@),
        forall|k: u64| #[trigger] r.1@.contains_key(k) ==> r.1@[k] is None && exists|j: int| 0 <= j < r.0@.len() && r.0@[j].fingerprint == k,
        parents_known(r.1@),
        jobs_known(r.0@, r.1@, expectations@, *fingerprint),
{
    let n = expectations.len();
    let mut ebits: Vec<bool> = Vec::new();
    let mut i: usize = 0;
    while i < n
        invariant
            n == expectations@.len(),
            i <= n,
            ebits@.len() == i,
            forall|q: int| 0 <= q < i ==> #[trigger] ebits@[q] == (expectations@[q] is Eventually),
        decreases n - i,
    {
        ebits.push(matches!(expectations[i], Expectation::Eventually));
        i = i + 1;
    }
    let ghost all = init_states@;
    let mut rest = init_states;
    let mut rev: Vec<State> = Vec::new();
    while rest.len() > 0
        invariant
            rev@.len() + rest@.len() == all.len(),
            forall|j: int| 0 <= j < rest@.len() ==> rest@[j] == all[j],
            forall|j: int|
                0 <= j < rev@.len() ==> #[trigger] rev@[j] == all[all.len() - 1 - j],
        decreases rest@.len(),
    {
        let x = rest.pop().unwrap();
        rev.push(x);
    }
    let mut pending: VecDeque<Job<State>> = VecDeque::new();
    let ghost bits = ebits@;
    let mut generated: HashMap<u64, Option<u64>> = HashMap::new();
    while rev.len() > 0
        invariant
            n == expectations@.len(),
            ebits@.len() == n,
            forall|q: int| 0 <= q < n ==> #[trigger] ebits@[q] == (expectations@[q] is Eventually),
            pending@.len() + rev@.len() == all.len(),
            forall|j: int|
                0 <= j < rev@.len() ==> #[trigger] rev@[j] == all[all.len() - 1 - j],
            forall|j: int| 0 <= j < pending@.len() ==> #[trigger] pending@[j].state == all[j] && pending@[j].depth == 1
                && pending@[j].ebits@ == ebits@,
            forall|k: u64| #[trigger] generated@.contains_key(k) ==> generated@[k] is None && exists|j: int| 0 <= j < pending@.len() && pending@[j].fingerprint == k,
            jobs_known(pending@, generated@, expectations@, *fingerprint),
            forall|s: &State| call_requires(*fingerprint, (s,)),
        decreases rev@.len(),
    {
        let state = rev.pop().unwrap();
        let fp = fingerprint(&state);
        let ghost gb = generated@;
        let ghost pb = pending@;
        generated.insert(fp, None);
        pending.push_back(Job { state, fingerprint: fp, ebits: copy_bits(&ebits), depth: 1 });
        proof {
            assert forall|k: u64| #[trigger] generated@.contains_key(k) implies generated@[k] is None && exists|j: int| 0 <= j < pending@.len() && pending@[j].fingerprint == k by {
                if k == fp {
                    assert(pending@[pb.len() as int].fingerprint == fp);
                } else {
                    assert(gb.contains_key(k));
                    let j = choose|j: int| 0 <= j < pb.len() && pb[j].fingerprint == k;
                    assert(pending@[j] == pb[j]);
                }
            }
            assert forall|j: int| 0 <= j < pending@.len() implies {
                &&& generated@.contains_key(#[trigger] pending@[j].fingerprint)
                &&& call_ensures(*fingerprint, (&pending@[j].state,), pending@[j].fingerprint)
                &&& pending@[j].ebits@.len() == expectations@.len()
                &&& forall|i: int|
                    0 <= i < expectations@.len() && #[trigger] pending@[j].ebits@[i] ==> expectations@[i]
                        is Eventually
            } by {
                if j < pb.len() {
                    assert(pending@[j] == pb[j]);
                    assert(gb.contains_key(pb[j].fingerprint));
                }
            }
        }
    }
    proof {
        assert(all == init_states@);
        assert(pending@.len() == all.len());
        assert(forall|k: u64| #[trigger] generated@.contains_key(k) ==> generated@[k] is None && exists|j: int| 0 <= j < pending@.len() && pending@[j].fingerprint == k);
    }
    let ghost pv = pending@;
    let r = (pending, generated);
    proof {
        assert(r.0@ == pv);
        assert(ebits@ == eventually_bits(expectations@));
        assert forall|j: int| 0 <= j < r.0@.len() implies (#[trigger] r.0@[j]).depth == 1 && r.0@[j].ebits@ == eventually_bits(expectations@) by {
            assert(r.0@[j] == pv[j]);
            assert(pv[j].state == all[j]);
        }
        assert(r.0@.map_values(|job: Job<State>| job.state) =~= init_states@);
    }
    r
}

/// Following the recorded parents from `fp` leads, in at most `n` recorded states, to one recorded
/// without a parent (an initial state).
pub open spec fn reaches_root(generated: Map<u64, Option<u64>>, fp: u64, n: nat) -> bool
    decreases n,
{
    if n == 0 {
        false
    } else {
        &&& generated.contains_key(fp)
        &&& match generated[fp] {
            None => true,
            Some(parent) => reaches_root(generated, parent, (n - 1) as nat),
        }
    }
}

/// The fingerprints of the states on the path that first reached the state of fingerprint `fp`,
/// from an initial state to that state, following the recorded parents. `None` when `fp` is not
/// recorded, or the parents do not lead back to an initial state within as many steps as there
/// are recorded states.
pub fn fingerprint_path(generated: &HashMap<u64, Option<u64>>, fp: u64) -> (r: Option<Vec<u64>>)
    ensures
        r matches Some(path) ==> chain(generated@, path@) && path@.last() == fp,
        !generated@.contains_key(fp) ==> r is None,
        r is Some <==> reaches_root(generated@, fp, generated@.len()),
{
    if !generated.contains_key(&fp) {
        return None;
    }
    let mut rev: Vec<u64> = Vec::new();
    rev.push(fp);
    let mut cur = fp;
    let limit = generated.len();
    let mut steps: usize = 0;
    loop
        invariant
            rev@.len() > 0,
            rev@[0] == fp,
            rev@.last() == cur,
            generated@.contains_key(cur),
            forall|j: int| 0 <= j < rev@.len() ==> generated@.contains_key(#[trigger] rev@[j]),
            forall|j: int| 0 <= j < rev@.len() - 1 ==> #[trigger] generated@[rev@[j]] == Some(rev@[j + 1]),
            limit == generated@.len(),
            steps <= limit,
            reaches_root(generated@, fp, limit as nat) == reaches_root(generated@, cur, (limit - steps) as nat),
        ensures
            reaches_root(generated@, fp, generated@.len()),
            rev@.len() > 0,
            rev@[0] == fp,
            rev@.last() == cur,
            generated@.contains_key(cur),
            generated@[cur] is None,
            forall|j: int| 0 <= j < rev@.len() ==> generated@.contains_key(#[trigger] rev@[j]),
            forall|j: int| 0 <= j < rev@.len() - 1 ==> #[trigger] generated@[rev@[j]] == Some(rev@[j + 1]),
        decreases limit - steps,
    {
        if steps >= limit {
            return None;
        }
        match generated.get(&cur) {
            Some(Some(parent)) => {
                let p = *parent;
                if !generated.contains_key(&p) {
                    proof {
                        assert(!reaches_root(generated@, p, (limit - steps - 1) as nat));
                    }
                    return None;
                }
                rev.push(p);
                cur = p;
                steps = steps + 1;
            },
            Some(None) => {
                break;
            },
            None => {
                return None;
            },
        }
    }
    let mut path: Vec<u64> = Vec::new();
    let ghost rv = rev@;
    while rev.len() > 0
        invariant
            path@.len() + rev@.len() == rv.len(),
            forall|j: int| 0 <= j < rev@.len() ==> rev@[j] == rv[j],
            forall|j: int| 0 <= j < path@.len() ==> #[trigger] path@[j] == rv[rv.len() - 1 - j],
        decreases rev@.len(),
    {
        let x = rev.pop().unwrap();
        path.push(x);
    }
    proof {
        assert forall|j: int| 0 < j < path@.len() implies #[trigger] generated@[path@[j]] == Some(path@[j - 1]) by {
            let a = rv.len() - 1 - j;
            assert(path@[j] == rv[a]);
            assert(path@[j - 1] == rv[a + 1]);
            assert(generated@[rv[a]] == Some(rv[a + 1]));
        }
        assert(path@[0] == rv[rv.len() - 1]);
        assert(path@.last() == rv[0]);
    }
    Some(path)
}

/// The greatest depth of the jobs `jobs` (0 if there are none).
pub open spec fn deepest<State>(jobs: Seq<Job<State>>) -> int
    decreases jobs.len(),
{
    if jobs.len() == 0 {
        0
    } else if jobs.last().depth > deepest(jobs.drop_last()) {
        jobs.last().depth as int
    } else {
        deepest(jobs.drop_last())
    }
}

/// No job is deeper than [`deepest`] says.
proof fn lemma_deepest<State>(jobs: Seq<Job<State>>)
    ensures
        forall|j: int| 0 <= j < jobs.len() ==> (#[trigger] jobs[j]).depth <= deepest(jobs),
    decreases jobs.len(),
{
    if jobs.len() > 0 {
        lemma_deepest(jobs.drop_last());
        assert forall|j: int| 0 <= j < jobs.len() implies (#[trigger] jobs[j]).depth <= deepest(jobs) by {
            if j < jobs.len() - 1 {
                assert(jobs[j] == jobs.drop_last()[j]);
            }
        }
    }
}

/// The properties `expectations` without a discovery in `discoveries` were evaluated on `s` as
/// not yet discovered: each `always` property held there, each `sometimes` property did not.
pub open spec fn passes<State, D, HOLDS: Fn(usize, &State) -> bool>(
    expectations: Seq<Expectation>,
    discoveries: Seq<Option<D>>,
    holds: HOLDS,
    s: State,
) -> bool {
    forall|i: int|
        0 <= i < expectations.len() && (#[trigger] discoveries[i]) is None ==> match expectations[i] {
            Expectation::Always => call_ensures(holds, (i as usize, &s), true),
            Expectation::Sometimes => call_ensures(holds, (i as usize, &s), false),
            Expectation::Eventually => true,
        }
}

/// The successors that `next_states` gave of `s` all have their fingerprints recorded in
/// `generated`.
pub open spec fn successors_recorded<State, FP: Fn(&State) -> u64, NEXT: Fn(&State) -> Vec<State>>(
    generated: Map<u64, Option<u64>>,
    fingerprint: FP,
    next_states: NEXT,
    s: State,
) -> bool {
    exists|v: Vec<State>|
        #[trigger] call_ensures(next_states, (&s,), v) && all_recorded(generated, fingerprint, v@)
}

/// Each of the states `v` has its fingerprint recorded in `generated`.
pub open spec fn all_recorded<State, FP: Fn(&State) -> u64>(
    generated: Map<u64, Option<u64>>,
    fingerprint: FP,
    v: Seq<State>,
) -> bool {
    forall|k: int| #![trigger v[k]] 0 <= k < v.len() ==> recorded(generated, fingerprint, v[k])
}

/// The state `x` has its fingerprint recorded in `generated`.
pub open spec fn recorded<State, FP: Fn(&State) -> u64>(
    generated: Map<u64, Option<u64>>,
    fingerprint: FP,
    x: State,
) -> bool {
    exists|f: u64| #[trigger] call_ensures(fingerprint, (&x,), f) && generated.contains_key(f)
}

/// A job of fingerprint `f` is pending.
pub open spec fn queued<State>(pending: Seq<Job<State>>, f: u64) -> bool {
    exists|j: int| #![trigger pending[j]] 0 <= j < pending.len() && pending[j].fingerprint == f
}

/// Every property has a discovery, or every recorded state that is no longer pending was checked:
/// a state of that fingerprint [`passes`] and its successors are recorded.
pub open spec fn explored<State, FP: Fn(&State) -> u64, HOLDS: Fn(usize, &State) -> bool, NEXT: Fn(&State) -> Vec<State>>(
    expectations: Seq<Expectation>,
    generated: Map<u64, Option<u64>>,
    pending: Seq<Job<State>>,
    discoveries: Seq<Option<u64>>,
    fingerprint: FP,
    holds: HOLDS,
    next_states: NEXT,
) -> bool {
    ||| forall|i: int| 0 <= i < discoveries.len() ==> (#[trigger] discoveries[i]) is Some
    ||| forall|f: u64|
        #[trigger] generated.contains_key(f) && !queued(pending, f) ==> exists|s: State|
            #[trigger] call_ensures(fingerprint, (&s,), f) && passes(expectations, discoveries, holds, s)
                && successors_recorded(generated, fingerprint, next_states, s)
}

/// Recording more states keeps the successors of `s` recorded.
proof fn lemma_recorded_mono<State, FP: Fn(&State) -> u64, NEXT: Fn(&State) -> Vec<State>>(
    g_b: Map<u64, Option<u64>>,
    g_e: Map<u64, Option<u64>>,
    fingerprint: FP,
    next_states: NEXT,
    s: State,
)
    requires
        successors_recorded(g_b, fingerprint, next_states, s),
        forall|k: u64| #[trigger] g_b.contains_key(k) ==> g_e.contains_key(k),
    ensures
        successors_recorded(g_e, fingerprint, next_states, s),
{
    let v = choose|v: Vec<State>|
        #[trigger] call_ensures(next_states, (&s,), v) && all_recorded(g_b, fingerprint, v@);
    assert forall|k: int| #![trigger v@[k]] 0 <= k < v@.len() implies recorded(g_e, fingerprint, v@[k]) by {
        let x = v@[k];
        assert(recorded(g_b, fingerprint, x));
        let f = choose|f: u64| #[trigger] call_ensures(fingerprint, (&x,), f) && g_b.contains_key(f);
        assert(g_e.contains_key(f));
    }
    assert(all_recorded(g_e, fingerprint, v@));
}

/// Checking the job at the back of `p_b` keeps the search [`explored`]: the job's state passed
/// and its successors are recorded, records were only added (each new one queued), no
/// discovery was withdrawn, and the other jobs stay queued.
proof fn lemma_explored_step<State, FP: Fn(&State) -> u64, HOLDS: Fn(usize, &State) -> bool, NEXT: Fn(&State) -> Vec<State>>(
    expectations: Seq<Expectation>,
    g_b: Map<u64, Option<u64>>,
    p_b: Seq<Job<State>>,
    d_b: Seq<Option<u64>>,
    g_e: Map<u64, Option<u64>>,
    p_e: Seq<Job<State>>,
    d_e: Seq<Option<u64>>,
    fingerprint: FP,
    holds: HOLDS,
    next_states: NEXT,
)
    requires
        explored(expectations, g_b, p_b, d_b, fingerprint, holds, next_states),
        p_b.len() > 0,
        call_ensures(fingerprint, (&p_b.last().state,), p_b.last().fingerprint),
        d_b.len() == d_e.len(),
        d_b.len() == expectations.len(),
        forall|i: int| 0 <= i < d_e.len() && (#[trigger] d_e[i]) is None ==> d_b[i] is None,
        forall|k: u64| #[trigger] g_b.contains_key(k) ==> g_e.contains_key(k),
        forall|f: u64| #[trigger] g_e.contains_key(f) && !g_b.contains_key(f) ==> queued(p_e, f),
        forall|f: u64| queued(p_b.drop_last(), f) ==> #[trigger] queued(p_e, f),
        passes(expectations, d_e, holds, p_b.last().state),
        successors_recorded(g_e, fingerprint, next_states, p_b.last().state),
    ensures
        explored(expectations, g_e, p_e, d_e, fingerprint, holds, next_states),
{
    let job = p_b.last();
    if forall|i: int| 0 <= i < d_b.len() ==> (#[trigger] d_b[i]) is Some {
        assert forall|i: int| 0 <= i < d_e.len() implies (#[trigger] d_e[i]) is Some by {
            assert(d_b[i] is Some);
        }
    } else {
        assert forall|f: u64|
            #[trigger] g_e.contains_key(f) && !queued(p_e, f) implies exists|s: State|
                #[trigger] call_ensures(fingerprint, (&s,), f) && passes(expectations, d_e, holds, s)
                    && successors_recorded(g_e, fingerprint, next_states, s) by {
            if f == job.fingerprint {
                assert(call_ensures(fingerprint, (&job.state,), f));
            } else {
                assert(g_b.contains_key(f));
                if queued(p_b, f) {
                    let j = choose|j: int| #![trigger p_b[j]] 0 <= j < p_b.len() && p_b[j].fingerprint == f;
                    assert(j != p_b.len() - 1);
                    assert(p_b.drop_last()[j] == p_b[j]);
                    assert(queued(p_b.drop_last(), f));
                }
                let s = choose|s: State|
                    #[trigger] call_ensures(fingerprint, (&s,), f) && passes(expectations, d_b, holds, s)
                        && successors_recorded(g_b, fingerprint, next_states, s);
                assert forall|i: int|
                    0 <= i < expectations.len() && (#[trigger] d_e[i]) is None implies match expectations[i] {
                        Expectation::Always => call_ensures(holds, (i as usize, &s), true),
                        Expectation::Sometimes => call_ensures(holds, (i as usize, &s), false),
                        Expectation::Eventually => true,
                    } by {
                    assert(d_b[i] is None);
                }
                lemma_recorded_mono(g_b, g_e, fingerprint, next_states, s);
                assert(successors_recorded(g_e, fingerprint, next_states, s));
            }
        }
    }
}

/// The states `ps` form a walk: it starts at the state of one of the jobs `roots` whose bit for
/// property `i` is set, and each state after the first is a successor of the one before it.
pub open spec fn walk_from<State, NEXT: Fn(&State) -> Vec<State>>(
    ps: Seq<State>,
    i: int,
    roots: Seq<Job<State>>,
    next_states: NEXT,
) -> bool {
    &&& ps.len() > 0
    &&& exists|j: int|
        #![trigger roots[j]]
        0 <= j < roots.len() && roots[j].state == ps[0] && 0 <= i < roots[j].ebits@.len() && roots[j].ebits@[i]
    &&& forall|k: int| #![trigger ps[k]] 0 <= k < ps.len() - 1 ==> successor(next_states, ps[k], ps[k + 1])
}

/// The state of `job` ends a walk from `roots` on whose earlier states property `i` did not hold.
pub open spec fn reached_unmet<State, HOLDS: Fn(usize, &State) -> bool, NEXT: Fn(&State) -> Vec<State>>(
    job: Job<State>,
    i: int,
    roots: Seq<Job<State>>,
    holds: HOLDS,
    next_states: NEXT,
) -> bool {
    exists|ps: Seq<State>|
        #[trigger] walk_from(ps, i, roots, next_states) && ps.last() == job.state && unmet(holds, i, ps, ps.len() - 1)
}

/// The state `state` ends a walk from `roots` on none of whose states (`state` included)
/// property `i` held.
pub open spec fn walked_unmet<State, HOLDS: Fn(usize, &State) -> bool, NEXT: Fn(&State) -> Vec<State>>(
    state: State,
    i: int,
    roots: Seq<Job<State>>,
    holds: HOLDS,
    next_states: NEXT,
) -> bool {
    exists|ps: Seq<State>|
        #[trigger] walk_from(ps, i, roots, next_states) && ps.last() == state && unmet(holds, i, ps, ps.len() as int)
}

/// Some walk from `roots` reaches a terminal state without property `i` holding on any of its
/// states.
pub open spec fn unmet_walk_to_terminal<State, HOLDS: Fn(usize, &State) -> bool, NEXT: Fn(&State) -> Vec<State>>(
    i: int,
    roots: Seq<Job<State>>,
    holds: HOLDS,
    next_states: NEXT,
) -> bool {
    exists|ps: Seq<State>|
        #[trigger] walk_from(ps, i, roots, next_states) && unmet(holds, i, ps, ps.len() as int) && terminal(
            next_states,
            ps.last(),
        )
}

/// The states `ps` form a walk from one of the states `init`: each after the first is a
/// successor of the one before it.
pub open spec fn walk_from_init<State, NEXT: Fn(&State) -> Vec<State>>(
    ps: Seq<State>,
    init: Seq<State>,
    next_states: NEXT,
) -> bool {
    &&& ps.len() > 0
    &&& init.contains(ps[0])
    &&& forall|k: int| #![trigger ps[k]] 0 <= k < ps.len() - 1 ==> successor(next_states, ps[k], ps[k + 1])
}

/// The state of `job` ends a walk from `init` on whose earlier states property `i` did not hold.
pub open spec fn init_reached_unmet<State, HOLDS: Fn(usize, &State) -> bool, NEXT: Fn(&State) -> Vec<State>>(
    job: Job<State>,
    i: int,
    init: Seq<State>,
    holds: HOLDS,
    next_states: NEXT,
) -> bool {
    exists|ps: Seq<State>|
        #[trigger] walk_from_init(ps, init, next_states) && ps.last() == job.state && unmet(holds, i, ps, ps.len() - 1)
}

/// Some walk from `init` reaches a terminal state without property `i` holding on any of its
/// states.
pub open spec fn unmet_walk_from_init<State, HOLDS: Fn(usize, &State) -> bool, NEXT: Fn(&State) -> Vec<State>>(
    i: int,
    init: Seq<State>,
    holds: HOLDS,
    next_states: NEXT,
) -> bool {
    exists|ps: Seq<State>|
        #[trigger] walk_from_init(ps, init, next_states) && unmet(holds, i, ps, ps.len() as int) && terminal(
            next_states,
            ps.last(),
        )
}

/// Each pending job whose bit for a property without a discovery is set ends a walk from `init`
/// on whose earlier states that property did not hold.
pub open spec fn walks_known<State, HOLDS: Fn(usize, &State) -> bool, NEXT: Fn(&State) -> Vec<State>>(
    pending: Seq<Job<State>>,
    discoveries: Seq<Option<u64>>,
    n: int,
    init: Seq<State>,
    holds: HOLDS,
    next_states: NEXT,
) -> bool {
    forall|j: int, q: int|
        0 <= j < pending.len() && 0 <= q < n && #[trigger] pending[j].ebits@[q] && discoveries[q] is None
            ==> init_reached_unmet(pending[j], q, init, holds, next_states)
}

/// A walk from `init` ending at the first state of the successor chain `ps` joined with that
/// chain: the first `m` states of `ps` and all but the last state of the walk unmet make the
/// joined walk unmet on its states before position `qs.len() - 1 + m`.
proof fn lemma_join_walks<State, HOLDS: Fn(usize, &State) -> bool, NEXT: Fn(&State) -> Vec<State>>(
    qs: Seq<State>,
    ps: Seq<State>,
    i: int,
    m: int,
    init: Seq<State>,
    holds: HOLDS,
    next_states: NEXT,
) -> (rs: Seq<State>)
    requires
        walk_from_init(qs, init, next_states),
        unmet(holds, i, qs, qs.len() - 1),
        ps.len() > 0,
        ps[0] == qs.last(),
        forall|k: int| #![trigger ps[k]] 0 <= k < ps.len() - 1 ==> successor(next_states, ps[k], ps[k + 1]),
        0 <= m <= ps.len(),
        unmet(holds, i, ps, m),
    ensures
        walk_from_init(rs, init, next_states),
        rs.len() == qs.len() + ps.len() - 1,
        rs.last() == ps.last(),
        unmet(holds, i, rs, qs.len() - 1 + m),
{
    let rs = qs + ps.subrange(1, ps.len() as int);
    assert(rs[0] == qs[0]);
    assert forall|k: int| #![trigger rs[k]] 0 <= k < rs.len() - 1 implies successor(next_states, rs[k], rs[k + 1]) by {
        if k < qs.len() - 1 {
            assert(rs[k] == qs[k] && rs[k + 1] == qs[k + 1]);
        } else if k == qs.len() - 1 {
            assert(rs[k] == qs[k]);
            assert(rs[k + 1] == ps[1]);
            assert(successor(next_states, ps[0], ps[1]));
        } else {
            let t = k - qs.len() + 1;
            assert(rs[k] == ps[t] && rs[k + 1] == ps[t + 1]);
            assert(successor(next_states, ps[t], ps[t + 1]));
        }
    }
    assert forall|k: int| #![trigger rs[k]] 0 <= k < qs.len() - 1 + m implies call_ensures(holds, (i as usize, &rs[k]), false) by {
        if k < qs.len() - 1 {
            assert(rs[k] == qs[k]);
        } else if k == qs.len() - 1 {
            assert(rs[k] == qs[k]);
            assert(call_ensures(holds, (i as usize, &ps[0]), false));
        } else {
            let t = k - qs.len() + 1;
            assert(rs[k] == ps[t]);
            assert(call_ensures(holds, (i as usize, &ps[t]), false));
        }
    }
    assert(rs.last() == ps.last()) by {
        if ps.len() > 1 {
            assert(rs[rs.len() - 1] == ps[ps.len() - 1]);
        } else {
            assert(rs[rs.len() - 1] == qs[qs.len() - 1]);
        }
    }
    rs
}

/// After a block checked from the jobs `p_before`, the jobs `p_after` still end walks from
/// `init` on which their awaited properties did not hold.
proof fn lemma_block_walks<State, HOLDS: Fn(usize, &State) -> bool, NEXT: Fn(&State) -> Vec<State>>(
    p_before: Seq<Job<State>>,
    p_after: Seq<Job<State>>,
    d_before: Seq<Option<u64>>,
    d_after: Seq<Option<u64>>,
    n: int,
    init: Seq<State>,
    holds: HOLDS,
    next_states: NEXT,
)
    requires
        walks_known(p_before, d_before, n, init, holds, next_states),
        forall|j: int, q: int|
            0 <= j < p_after.len() && 0 <= q < n && #[trigger] p_after[j].ebits@[q] && d_after[q] is None
                ==> reached_unmet(p_after[j], q, p_before, holds, next_states),
        forall|q: int| 0 <= q < n && #[trigger] d_before[q] is Some ==> d_after[q] is Some,
    ensures
        walks_known(p_after, d_after, n, init, holds, next_states),
{
    assert forall|j: int, q: int|
        0 <= j < p_after.len() && 0 <= q < n && #[trigger] p_after[j].ebits@[q] && d_after[q] is None
            implies init_reached_unmet(p_after[j], q, init, holds, next_states) by {
        let ps = choose|ps: Seq<State>|
            #[trigger] walk_from(ps, q, p_before, next_states) && ps.last() == p_after[j].state && unmet(
                holds,
                q,
                ps,
                ps.len() - 1,
            );
        let r = choose|r: int|
            #![trigger p_before[r]]
            0 <= r < p_before.len() && p_before[r].state == ps[0] && 0 <= q < p_before[r].ebits@.len()
                && p_before[r].ebits@[q];
        assert(d_before[q] is None);
        let qs = choose|qs: Seq<State>|
            #[trigger] walk_from_init(qs, init, next_states) && qs.last() == p_before[r].state && unmet(
                holds,
                q,
                qs,
                qs.len() - 1,
            );
        let rs = lemma_join_walks(qs, ps, q, ps.len() - 1, init, holds, next_states);
        assert(walk_from_init(rs, init, next_states));
    }
}

/// A terminal walk from the jobs `p_before` on which property `i` never held, joined with the
/// walk from `init` that reached its first job, is such a walk from `init`.
proof fn lemma_terminal_walk<State, HOLDS: Fn(usize, &State) -> bool, NEXT: Fn(&State) -> Vec<State>>(
    i: int,
    p_before: Seq<Job<State>>,
    d_before: Seq<Option<u64>>,
    n: int,
    init: Seq<State>,
    holds: HOLDS,
    next_states: NEXT,
)
    requires
        walks_known(p_before, d_before, n, init, holds, next_states),
        unmet_walk_to_terminal(i, p_before, holds, next_states),
        0 <= i < n,
        d_before[i] is None,
    ensures
        unmet_walk_from_init(i, init, holds, next_states),
{
    let ps = choose|ps: Seq<State>|
        #[trigger] walk_from(ps, i, p_before, next_states) && unmet(holds, i, ps, ps.len() as int) && terminal(
            next_states,
            ps.last(),
        );
    let r = choose|r: int|
        #![trigger p_before[r]]
        0 <= r < p_before.len() && p_before[r].state == ps[0] && 0 <= i < p_before[r].ebits@.len()
            && p_before[r].ebits@[i];
    let qs = choose|qs: Seq<State>|
        #[trigger] walk_from_init(qs, init, next_states) && qs.last() == p_before[r].state && unmet(
            holds,
            i,
            qs,
            qs.len() - 1,
        );
    let rs = lemma_join_walks(qs, ps, i, ps.len() as int, init, holds, next_states);
    assert(walk_from_init(rs, init, next_states) && unmet(holds, i, rs, rs.len() as int));
}

/// A walk on none of whose states the property held, extended by a successor of its last state.
proof fn lemma_extend_walk<State, HOLDS: Fn(usize, &State) -> bool, NEXT: Fn(&State) -> Vec<State>>(
    ps: Seq<State>,
    x: State,
    i: int,
    roots: Seq<Job<State>>,
    holds: HOLDS,
    next_states: NEXT,
)
    requires
        walk_from(ps, i, roots, next_states),
        unmet(holds, i, ps, ps.len() as int),
        successor(next_states, ps.last(), x),
    ensures
        walk_from(ps.push(x), i, roots, next_states),
        unmet(holds, i, ps.push(x), ps.push(x).len() - 1),
        ps.push(x).last() == x,
{
    let qs = ps.push(x);
    let j = choose|j: int|
        #![trigger roots[j]]
        0 <= j < roots.len() && roots[j].state == ps[0] && 0 <= i < roots[j].ebits@.len() && roots[j].ebits@[i];
    assert(qs[0] == ps[0]);
    assert forall|k: int| #![trigger qs[k]] 0 <= k < qs.len() - 1 implies successor(next_states, qs[k], qs[k + 1]) by {
        if k < ps.len() - 1 {
            assert(qs[k] == ps[k] && qs[k + 1] == ps[k + 1]);
        } else {
            assert(qs[k] == ps.last());
        }
    }
    assert forall|k: int| #![trigger qs[k]] 0 <= k < qs.len() - 1 implies call_ensures(holds, (i as usize, &qs[k]), false) by {
        assert(qs[k] == ps[k]);
    }
}

/// Checks up to `max_count` pending jobs, taken from the back of `pending`, for the properties
/// whose expectations are `expectations` (`holds(i, s)` evaluates property `i` on state `s`).
///
/// For each job within `target_max_depth`: each property without a discovery yet is evaluated;
/// an `always` property that does not hold, or a `sometimes` property that holds, is discovered
/// at the job's state, and an `eventually` property that holds is marked as met on the path. If
/// no property awaits a discovery any more, checking stops. Otherwise each state of
/// `next_states` from the job's state that was not generated before is recorded (with the job's
/// state as its parent) and queued at the front of `pending`, one level deeper. A state with no
/// such successor is terminal: each `eventually` property not met on its path is discovered
/// there. Returns the greatest depth taken.
#[verifier::rlimit(100)]
#[verifier::spinoff_prover]
pub fn check_block<State, FP, HOLDS, NEXT>(
    expectations: &[Expectation],
    pending: &mut VecDeque<Job<State>>,
    generated: &mut HashMap<u64, Option<u64>>,
    discoveries: &mut Vec<Option<u64>>,
    max_count: usize,
    target_max_depth: Option<usize>,
    fingerprint: &FP,
    holds: &HOLDS,
    next_states: &NEXT,
) -> (max_depth: usize) where
    FP: Fn(&State) -> u64,
    HOLDS: Fn(usize, &State) -> bool,
    NEXT: Fn(&State) -> Vec<State>,

    requires
        old(discoveries)@.len() == expectations@.len(),
        parents_known(old(generated)@),
        jobs_known(old(pending)@, old(generated)@, expectations@, *fingerprint),
        discoveries_known(old(discoveries)@, old(generated)@),
        forall|s: &State| call_requires(*fingerprint, (s,)),
        forall|i: usize, s: &State| call_requires(*holds, (i, s)),
        forall|s: &State| call_requires(*next_states, (s,)),
    ensures
        final(discoveries)@.len() == expectations@.len(),
        parents_known(final(generated)@),
        jobs_known(final(pending)@, final(generated)@, expectations@, *fingerprint),
        discoveries_known(final(discoveries)@, final(generated)@),
        forall|j: int, i: int|
            0 <= j < final(pending)@.len() && 0 <= i < expectations@.len() && #[trigger] final(pending)@[j].ebits@[i]
                && final(discoveries)@[i] is None ==> reached_unmet(final(pending)@[j], i, old(pending)@, *holds, *next_states),
        forall|i: int|
            0 <= i < expectations@.len() && expectations@[i] is Eventually && old(discoveries)@[i] is None
                && #[trigger] final(discoveries)@[i] is Some ==> unmet_walk_to_terminal(i, old(pending)@, *holds, *next_states),
        max_count > 0 && old(pending)@.len() > 0 ==> max_depth >= old(pending)@.last().depth,
        final(generated)@ == old(generated)@ || final(generated)@.len() > old(generated)@.len(),
        max_count > 0 && old(pending)@.len() > 0 ==> final(generated)@.len() > old(generated)@.len()
            || (final(generated)@ == old(generated)@ && final(pending)@.len() < old(pending)@.len()),
        max_depth <= deepest(old(pending)@) + max_count,
        target_max_depth is None && explored(
            expectations@,
            old(generated)@,
            old(pending)@,
            old(discoveries)@,
            *fingerprint,
            *holds,
            *next_states,
        ) ==> explored(
            expectations@,
            final(generated)@,
            final(pending)@,
            final(discoveries)@,
            *fingerprint,
            *holds,
            *next_states,
        ),
        forall|k: u64|
            #[trigger] old(generated)@.contains_key(k) ==> final(generated)@.contains_key(k)
                && final(generated)@[k] == old(generated)@[k],
        forall|i: int|
            0 <= i < expectations@.len() && #[trigger] old(discoveries)@[i] is Some ==> final(discoveries)@[i] is Some,
        forall|i: int|
            0 <= i < expectations@.len() && !(expectations@[i] is Eventually) && old(discoveries)@[i] is Some ==> #[trigger] final(discoveries)@[i] == old(discoveries)@[i],
        forall|i: int|
            0 <= i < expectations@.len() && #[trigger] final(discoveries)@[i] is Some && final(discoveries)@[i] != old(discoveries)@[i] ==> justified(
                expectations@[i],
                i,
                final(discoveries)@[i]->0,
                *fingerprint,
                *holds,
                *next_states,
            ),
{
    let n = expectations.len();
    let ghost d0 = discoveries@;
    let ghost g0 = generated@;
    let mut count = max_count;
    let mut current_max_depth: usize = 0;
    let ghost top = deepest(pending@);
    let ghost p0 = pending@.len();
    let ghost ex0 = target_max_depth is None && explored(
        expectations@,
        generated@,
        pending@,
        discoveries@,
        *fingerprint,
        *holds,
        *next_states,
    );
    let ghost ps0 = pending@;
    proof {
        lemma_deepest(pending@);
        assert forall|j: int, q: int|
            0 <= j < pending@.len() && 0 <= q < n && #[trigger] pending@[j].ebits@[q] && discoveries@[q] is None
                implies reached_unmet(pending@[j], q, ps0, *holds, *next_states) by {
            let ps = seq![pending@[j].state];
            assert(generated@.contains_key(pending@[j].fingerprint));
            assert(ps[0] == ps0[j].state);
            assert(walk_from(ps, q, ps0, *next_states));
        }
    }
    while count > 0
        invariant
            ps0 == old(pending)@,
            forall|j: int, q: int|
                0 <= j < pending@.len() && 0 <= q < n && #[trigger] pending@[j].ebits@[q] && discoveries@[q] is None
                    ==> reached_unmet(pending@[j], q, ps0, *holds, *next_states),
            forall|i: int|
                0 <= i < n && expectations@[i] is Eventually && d0[i] is None && #[trigger] discoveries@[i] is Some
                    ==> unmet_walk_to_terminal(i, ps0, *holds, *next_states),
            ex0 ==> target_max_depth is None && explored(
                expectations@,
                generated@,
                pending@,
                discoveries@,
                *fingerprint,
                *holds,
                *next_states,
            ),
            count <= max_count,
            forall|j: int| 0 <= j < pending@.len() ==> (#[trigger] pending@[j]).depth <= top + (max_count - count),
            current_max_depth <= top + (max_count - count),
            top == deepest(old(pending)@),
            old(pending)@.len() > 0 && count < max_count ==> current_max_depth >= old(pending)@.last().depth,
            count == max_count ==> pending@ == old(pending)@,
            p0 == old(pending)@.len(),
            generated@ == g0 || generated@.len() > g0.len(),
            generated@ == g0 ==> pending@.len() + (max_count - count) <= p0 || pending@.len() == 0,
            n == expectations@.len(),
            discoveries@.len() == n,
            parents_known(generated@),
            jobs_known(pending@, generated@, expectations@, *fingerprint),
            discoveries_known(discoveries@, generated@),
            forall|k: u64| #[trigger] g0.contains_key(k) ==> generated@.contains_key(k) && generated@[k] == g0[k],
            forall|i: int| 0 <= i < n && #[trigger] d0[i] is Some ==> discoveries@[i] is Some,
            forall|i: int| 0 <= i < n && !(expectations@[i] is Eventually) && d0[i] is Some ==> #[trigger] discoveries@[i] == d0[i],
            forall|i: int| 0 <= i < n && #[trigger] discoveries@[i] is Some && discoveries@[i] != d0[i] ==> justified(
                expectations@[i],
                i,
                discoveries@[i]->0,
                *fingerprint,
                *holds,
                *next_states,
            ),
            forall|s: &State| call_requires(*fingerprint, (s,)),
            forall|i: usize, s: &State| call_requires(*holds, (i, s)),
            forall|s: &State| call_requires(*next_states, (s,)),
        ensures
            max_count == 0 || count < max_count,
        decreases count,
    {
        let ghost p_b = pending@;
        let ghost g_b = generated@;
        let ghost d_b = discoveries@;
        count = count - 1;
        let job = match pending.pop_back() {
            None => {
                break;
            },
            Some(job) => job,
        };
        proof {
            assert(pending@ == p_b.drop_last());
            assert forall|j: int, q: int|
                0 <= j < pending@.len() && 0 <= q < n && #[trigger] pending@[j].ebits@[q] && discoveries@[q] is None
                    implies reached_unmet(pending@[j], q, ps0, *holds, *next_states) by {
                assert(pending@[j] == p_b[j]);
                assert(p_b[j].ebits@[q]);
            }
        }
        if job.depth > current_max_depth {
            current_max_depth = job.depth;
        }
        match target_max_depth {
            Some(t) => {
                if job.depth >= t {
                    continue;
                }
            },
            None => {},
        }
        let ghost jb = job;
        let Job { state, fingerprint: state_fp, ebits, depth } = job;
        proof {
            assert(pending@ == p_b.drop_last());
            assert(jb == p_b.last());
            assert(call_ensures(*fingerprint, (&p_b[p_b.len() - 1].state,), p_b[p_b.len() - 1].fingerprint));
            assert forall|q: int| 0 <= q < n && #[trigger] jb.ebits@[q] && d_b[q] is None implies reached_unmet(
                jb,
                q,
                ps0,
                *holds,
                *next_states,
            ) by {
                assert(p_b[p_b.len() - 1].ebits@[q]);
            }
        }
        let ghost ebits0 = ebits@;
        let mut ebits = ebits;
        let ghost s = state;
        let mut awaiting = false;
        let mut i: usize = 0;
        while i < n
            invariant
                jb.state == state,
                jb.ebits@ == ebits0,
                forall|q: int| i <= q < n ==> ebits@[q] == ebits0[q],
                forall|q: int| 0 <= q < n && expectations@[q] is Eventually ==> #[trigger] discoveries@[q] == d_b[q],
                forall|q: int| 0 <= q < n && #[trigger] ebits0[q] && d_b[q] is None ==> reached_unmet(
                    jb,
                    q,
                    ps0,
                    *holds,
                    *next_states,
                ),
                forall|q: int|
                    0 <= q < i && #[trigger] ebits@[q] && discoveries@[q] is None ==> walked_unmet(
                        state,
                        q,
                        ps0,
                        *holds,
                        *next_states,
                    ),
                d_b.len() == n,
                forall|q: int| 0 <= q < n && (#[trigger] discoveries@[q]) is None ==> d_b[q] is None,
                forall|q: int|
                    0 <= q < i && (#[trigger] discoveries@[q]) is None ==> match expectations@[q] {
                        Expectation::Always => call_ensures(*holds, (q as usize, &state), true),
                        Expectation::Sometimes => call_ensures(*holds, (q as usize, &state), false),
                        Expectation::Eventually => true,
                    },
                !awaiting ==> forall|q: int| 0 <= q < i ==> (#[trigger] discoveries@[q]) is Some,
                i <= n,
                n == expectations@.len(),
                discoveries@.len() == n,
                ebits@.len() == n,
                forall|q: int| 0 <= q < n && #[trigger] ebits@[q] ==> expectations@[q] is Eventually,
                generated@.contains_key(state_fp),
                call_ensures(*fingerprint, (&state,), state_fp),
                discoveries_known(discoveries@, generated@),
                forall|q: int| 0 <= q < n && #[trigger] d0[q] is Some ==> discoveries@[q] is Some,
                forall|q: int| 0 <= q < n && !(expectations@[q] is Eventually) && d0[q] is Some ==> #[trigger] discoveries@[q] == d0[q],
                forall|q: int| 0 <= q < n && #[trigger] discoveries@[q] is Some && discoveries@[q] != d0[q] ==> justified(
                    expectations@[q],
                    q,
                    discoveries@[q]->0,
                    *fingerprint,
                    *holds,
                    *next_states,
                ),
                forall|i: usize, s: &State| call_requires(*holds, (i, s)),
            decreases n - i,
        {
            if discoveries[i].is_none() {
                let h = holds(i, &state);
                proof {
                    assert(((i as int) as usize) == i);
                }
                match expectations[i] {
                    Expectation::Always => {
                        if !h {
                            discoveries.set(i, Some(state_fp));
                            proof {
                                assert(call_ensures(*fingerprint, (&state,), state_fp));
                            }
                        } else {
                            awaiting = true;
                        }
                    },
                    Expectation::Sometimes => {
                        if h {
                            discoveries.set(i, Some(state_fp));
                            proof {
                                assert(call_ensures(*fingerprint, (&state,), state_fp));
                            }
                        } else {
                            awaiting = true;
                        }
                    },
                    Expectation::Eventually => {
                        awaiting = true;
                        if h {
                            ebits.set(i, false);
                        } else {
                            proof {
                                if ebits0[i as int] {
                                    assert(reached_unmet(jb, i as int, ps0, *holds, *next_states));
                                    let ps = choose|ps: Seq<State>|
                                        #[trigger] walk_from(ps, i as int, ps0, *next_states) && ps.last() == jb.state
                                            && unmet(*holds, i as int, ps, ps.len() - 1);
                                    assert(unmet(*holds, i as int, ps, ps.len() as int)) by {
                                        assert forall|k: int| #![trigger ps[k]] 0 <= k < ps.len() implies call_ensures(
                                            *holds,
                                            ((i as int) as usize, &ps[k]),
                                            false,
                                        ) by {
                                            if k == ps.len() - 1 {
                                                assert(ps[k] == state);
                                            }
                                        }
                                    }
                                    assert(walked_unmet(state, i as int, ps0, *holds, *next_states));
                                }
                            }
                        }
                    },
                }
            }
            i = i + 1;
        }
        if !awaiting {
            proof {
                assert(forall|q: int| 0 <= q < discoveries@.len() ==> (#[trigger] discoveries@[q]) is Some);
            }
            break;
        }
        proof {
            assert(passes(expectations@, discoveries@, *holds, state));
            assert forall|j: int, q: int|
                0 <= j < pending@.len() && 0 <= q < n && #[trigger] pending@[j].ebits@[q] && discoveries@[q] is None
                    implies reached_unmet(pending@[j], q, ps0, *holds, *next_states) by {
                assert(pending@[j] == p_b[j]);
                assert(p_b[j].ebits@[q]);
                assert(d_b[q] is None);
            }
        }
        let nexts = next_states(&state);
        let ghost nexts0 = nexts;
        let mut rev: Vec<State> = Vec::new();
        let mut rest = nexts;
        while rest.len() > 0
            invariant
                rev@.len() + rest@.len() == nexts0@.len(),
                forall|j: int| 0 <= j < rest@.len() ==> rest@[j] == nexts0@[j],
                forall|j: int| 0 <= j < rev@.len() ==> #[trigger] rev@[j] == nexts0@[nexts0@.len() - 1 - j],
            decreases rest@.len(),
        {
            let x = rest.pop().unwrap();
            rev.push(x);
        }
        let mut is_terminal = true;
        while rev.len() > 0
            invariant
                is_terminal ==> rev@.len() == nexts0@.len(),
                call_ensures(*next_states, (&state,), nexts0),
                forall|j: int, q: int|
                    0 <= j < pending@.len() && 0 <= q < n && #[trigger] pending@[j].ebits@[q] && discoveries@[q] is None
                        ==> reached_unmet(pending@[j], q, ps0, *holds, *next_states),
                forall|q: int|
                    0 <= q < n && #[trigger] ebits@[q] && discoveries@[q] is None ==> walked_unmet(
                        state,
                        q,
                        ps0,
                        *holds,
                        *next_states,
                    ),
                rev@.len() <= nexts0@.len(),
                forall|j: int| 0 <= j < rev@.len() ==> #[trigger] rev@[j] == nexts0@[nexts0@.len() - 1 - j],
                forall|k: int|
                    #![trigger nexts0@[k]] 0 <= k < nexts0@.len() - rev@.len() ==> recorded(generated@, *fingerprint, nexts0@[k]),
                forall|k: u64| #[trigger] g_b.contains_key(k) ==> generated@.contains_key(k),
                forall|f: u64| #[trigger] generated@.contains_key(f) && !g_b.contains_key(f) ==> queued(pending@, f),
                forall|f: u64| queued(p_b.drop_last(), f) ==> #[trigger] queued(pending@, f),
                n == expectations@.len(),
                discoveries@.len() == n,
                ebits@.len() == n,
                forall|q: int| 0 <= q < n && #[trigger] ebits@[q] ==> expectations@[q] is Eventually,
                generated@.contains_key(state_fp),
                parents_known(generated@),
                jobs_known(pending@, generated@, expectations@, *fingerprint),
                discoveries_known(discoveries@, generated@),
                forall|k: u64| #[trigger] g0.contains_key(k) ==> generated@.contains_key(k) && generated@[k] == g0[k],
                forall|s: &State| call_requires(*fingerprint, (s,)),
                count < max_count,
                depth + 1 <= top + (max_count - count),
                generated@ == g0 || generated@.len() > g0.len(),
                generated@ == g0 ==> pending@.len() + (max_count - count) <= p0 || pending@.len() == 0,
                forall|j: int| 0 <= j < pending@.len() ==> (#[trigger] pending@[j]).depth <= top + (max_count - count),
            decreases rev@.len(),
        {
            let ghost rb = rev@;
            let next_state = rev.pop().unwrap();
            let next_fp = fingerprint(&next_state);
            proof {
                assert(next_state == nexts0@[nexts0@.len() - rb.len()]);
            }
            is_terminal = false;
            if generated.contains_key(&next_fp) {
                proof {
                    assert(recorded(generated@, *fingerprint, next_state));
                }
                continue;
            }
            let ghost gb = generated@;
            generated.insert(next_fp, Some(state_fp));
            proof {
                assert(recorded(generated@, *fingerprint, next_state));
                assert forall|k: int|
                    #![trigger nexts0@[k]] 0 <= k < nexts0@.len() - rb.len() implies recorded(generated@, *fingerprint, nexts0@[k]) by {
                    let x = nexts0@[k];
                    assert(recorded(gb, *fingerprint, x));
                    let f = choose|f: u64| #[trigger] call_ensures(*fingerprint, (&x,), f) && gb.contains_key(f);
                    assert(generated@.contains_key(f));
                }
                assert forall|k: u64| #[trigger] generated@.contains_key(k) && generated@[k] is Some implies generated@.contains_key(generated@[k]->0) by {
                    if k != next_fp {
                        assert(gb.contains_key(k));
                    }
                }
            }
            let ghost pb = pending@;
            let ghost nx = next_state;
            pending.push_front(Job { state: next_state, fingerprint: next_fp, ebits: copy_bits(&ebits), depth: depth.saturating_add(1) });
            proof {
                let nj = pending@[0];
                assert(nj.state == nx && nj.ebits@ == ebits@);
                assert(nexts0@.contains(nx));
                assert(successor(*next_states, state, nx));
                assert forall|j: int, q: int|
                    0 <= j < pending@.len() && 0 <= q < n && #[trigger] pending@[j].ebits@[q] && discoveries@[q] is None
                        implies reached_unmet(pending@[j], q, ps0, *holds, *next_states) by {
                    if j > 0 {
                        assert(pending@[j] == pb[j - 1]);
                        assert(pb[j - 1].ebits@[q]);
                    } else {
                        assert(ebits@[q]);
                        assert(walked_unmet(state, q, ps0, *holds, *next_states));
                        let ps = choose|ps: Seq<State>|
                            #[trigger] walk_from(ps, q, ps0, *next_states) && ps.last() == state
                                && unmet(*holds, q, ps, ps.len() as int);
                        lemma_extend_walk(ps, nx, q, ps0, *holds, *next_states);
                        assert(walk_from(ps.push(nx), q, ps0, *next_states));
                    }
                }
            }
            proof {
                assert forall|j: int| 0 <= j < pending@.len() implies {
                    &&& generated@.contains_key(#[trigger] pending@[j].fingerprint)
                    &&& call_ensures(*fingerprint, (&pending@[j].state,), pending@[j].fingerprint)
                    &&& pending@[j].ebits@.len() == expectations@.len()
                    &&& forall|i: int|
                        0 <= i < expectations@.len() && #[trigger] pending@[j].ebits@[i] ==> expectations@[i]
                            is Eventually
                } by {
                    if j > 0 {
                        assert(pending@[j] == pb[j - 1]);
                        assert(gb.contains_key(pb[j - 1].fingerprint));
                    }
                }
                assert(pending@[0].fingerprint == next_fp);
                assert forall|f: u64| queued(pb, f) implies #[trigger] queued(pending@, f) by {
                    let j = choose|j: int| #![trigger pb[j]] 0 <= j < pb.len() && pb[j].fingerprint == f;
                    assert(pending@[j + 1] == pb[j]);
                }
                assert forall|f: u64| #[trigger] generated@.contains_key(f) && !g_b.contains_key(f) implies queued(pending@, f) by {
                    if f == next_fp {
                        assert(pending@[0].fingerprint == f);
                    } else {
                        assert(gb.contains_key(f));
                        assert(queued(pb, f));
                    }
                }
            }
        }
        proof {
            assert(all_recorded(generated@, *fingerprint, nexts0@));
            assert(call_ensures(*next_states, (&state,), nexts0));
            assert(successors_recorded(generated@, *fingerprint, *next_states, state));
        }
        if is_terminal {
            proof {
                assert(call_ensures(*next_states, (&state,), nexts0));
                assert(terminal(*next_states, state));
            }
            let ghost d_t = discoveries@;
            let mut i: usize = 0;
            while i < n
                invariant
                    terminal(*next_states, state),
                    d_t.len() == n,
                    forall|q: int| i <= q < n ==> #[trigger] discoveries@[q] == d_t[q],
                    forall|q: int|
                        0 <= q < n && #[trigger] ebits@[q] && d_t[q] is None ==> walked_unmet(
                            state,
                            q,
                            ps0,
                            *holds,
                            *next_states,
                        ),
                    forall|j: int, q: int|
                        0 <= j < pending@.len() && 0 <= q < n && #[trigger] pending@[j].ebits@[q] && discoveries@[q] is None
                            ==> reached_unmet(pending@[j], q, ps0, *holds, *next_states),
                    forall|q: int|
                        0 <= q < n && expectations@[q] is Eventually && d0[q] is None && #[trigger] discoveries@[q] is Some
                            ==> unmet_walk_to_terminal(q, ps0, *holds, *next_states),
                    d_b.len() == n,
                    passes(expectations@, discoveries@, *holds, state),
                    forall|q: int| 0 <= q < n && (#[trigger] discoveries@[q]) is None ==> d_b[q] is None,
                    n == expectations@.len(),
                    discoveries@.len() == n,
                    ebits@.len() == n,
                    forall|q: int| 0 <= q < n && #[trigger] ebits@[q] ==> expectations@[q] is Eventually,
                    generated@.contains_key(state_fp),
                    call_ensures(*fingerprint, (&state,), state_fp),
                    discoveries_known(discoveries@, generated@),
                    forall|q: int| 0 <= q < n && #[trigger] d0[q] is Some ==> discoveries@[q] is Some,
                    forall|q: int| 0 <= q < n && !(expectations@[q] is Eventually) && d0[q] is Some ==> #[trigger] discoveries@[q] == d0[q],
                    forall|q: int| 0 <= q < n && #[trigger] discoveries@[q] is Some && discoveries@[q] != d0[q] ==> justified(
                        expectations@[q],
                        q,
                        discoveries@[q]->0,
                        *fingerprint,
                        *holds,
                        *next_states,
                    ),
                decreases n - i,
            {
                if ebits[i] {
                    let ghost db = discoveries@;
                    discoveries.set(i, Some(state_fp));
                    proof {
                        assert(call_ensures(*fingerprint, (&state,), state_fp));
                        if d0[i as int] is None {
                            if d_t[i as int] is None {
                                assert(ebits@[i as int]);
                                assert(walked_unmet(state, i as int, ps0, *holds, *next_states));
                                let ps = choose|ps: Seq<State>|
                                    #[trigger] walk_from(ps, i as int, ps0, *next_states) && ps.last() == state
                                        && unmet(*holds, i as int, ps, ps.len() as int);
                                assert(unmet_walk_to_terminal(i as int, ps0, *holds, *next_states));
                            } else {
                                assert(db[i as int] is Some);
                            }
                        }
                    }
                }
                i = i + 1;
            }
        }
        proof {
            if ex0 {
                lemma_explored_step(
                    expectations@,
                    g_b,
                    p_b,
                    d_b,
                    generated@,
                    pending@,
                    discoveries@,
                    *fingerprint,
                    *holds,
                    *next_states,
                );
            }
        }
    }
    current_max_depth
}

/// `s` is reached from one of the states `init` in `n` steps, each to one of the states that
/// `next_states` gives.
pub open spec fn reachable<State, NEXT: Fn(&State) -> Vec<State>>(
    init: Seq<State>,
    next_states: NEXT,
    s: State,
    n: nat,
) -> bool
    decreases n,
{
    if n == 0 {
        init.contains(s)
    } else {
        exists|p: State, v: Vec<State>|
            #[trigger] call_ensures(next_states, (&p,), v) && reachable(init, next_states, p, (n - 1) as nat)
                && v@.contains(s)
    }
}

/// Distinct states never share a fingerprint.
pub open spec fn injective<State, FP: Fn(&State) -> u64>(fingerprint: FP) -> bool {
    forall|s1: State, s2: State, f: u64|
        #[trigger] call_ensures(fingerprint, (&s1,), f) && #[trigger] call_ensures(fingerprint, (&s2,), f)
            ==> s1 == s2
}

/// `next_states` gives the same states each time it is called on a state.
pub open spec fn deterministic<State, NEXT: Fn(&State) -> Vec<State>>(next_states: NEXT) -> bool {
    forall|s: State, v1: Vec<State>, v2: Vec<State>|
        #[trigger] call_ensures(next_states, (&s,), v1) && #[trigger] call_ensures(next_states, (&s,), v2)
            ==> v1@ == v2@
}

/// A state recorded in `g` stays recorded when `g` only gains records.
proof fn lemma_recorded_kept<State, FP: Fn(&State) -> u64>(
    g: Map<u64, Option<u64>>,
    h: Map<u64, Option<u64>>,
    fingerprint: FP,
    x: State,
)
    requires
        recorded(g, fingerprint, x),
        forall|k: u64| #[trigger] g.contains_key(k) ==> h.contains_key(k),
    ensures
        recorded(h, fingerprint, x),
{
    let f = choose|f: u64| #[trigger] call_ensures(fingerprint, (&x,), f) && g.contains_key(f);
    assert(h.contains_key(f));
}

/// Once nothing is pending and the search is [`explored`] with a property still undiscovered,
/// every state reachable from the recorded initial states is recorded, when fingerprints are
/// injective and successors deterministic.
proof fn lemma_reached_recorded<State, FP: Fn(&State) -> u64, HOLDS: Fn(usize, &State) -> bool, NEXT: Fn(&State) -> Vec<State>>(
    expectations: Seq<Expectation>,
    g: Map<u64, Option<u64>>,
    d: Seq<Option<u64>>,
    init: Seq<State>,
    fingerprint: FP,
    holds: HOLDS,
    next_states: NEXT,
    s: State,
    n: nat,
)
    requires
        explored(expectations, g, Seq::<Job<State>>::empty(), d, fingerprint, holds, next_states),
        exists|i: int| 0 <= i < d.len() && (#[trigger] d[i]) is None,
        forall|j: int| #![trigger init[j]] 0 <= j < init.len() ==> recorded(g, fingerprint, init[j]),
        injective(fingerprint),
        deterministic(next_states),
        reachable(init, next_states, s, n),
    ensures
        recorded(g, fingerprint, s),
    decreases n,
{
    if n == 0 {
        let j = choose|j: int| 0 <= j < init.len() && init[j] == s;
        assert(recorded(g, fingerprint, init[j]));
    } else {
        let (p, v) = choose|p: State, v: Vec<State>|
            #[trigger] call_ensures(next_states, (&p,), v) && reachable(init, next_states, p, (n - 1) as nat)
                && v@.contains(s);
        lemma_reached_recorded(expectations, g, d, init, fingerprint, holds, next_states, p, (n - 1) as nat);
        let fp = choose|f: u64| #[trigger] call_ensures(fingerprint, (&p,), f) && g.contains_key(f);
        assert(!queued(Seq::<Job<State>>::empty(), fp));
        let q = choose|q: State|
            #[trigger] call_ensures(fingerprint, (&q,), fp) && passes(expectations, d, holds, q)
                && successors_recorded(g, fingerprint, next_states, q);
        assert(q == p);
        let w = choose|w: Vec<State>|
            #[trigger] call_ensures(next_states, (&p,), w) && all_recorded(g, fingerprint, w@);
        assert(w@ == v@);
        let k = choose|k: int| 0 <= k < v@.len() && v@[k] == s;
        assert(recorded(g, fingerprint, w@[k]));
    }
}

/// Every state reachable from the recorded initial states [`passes`], under the same
/// conditions as [`lemma_reached_recorded`].
proof fn lemma_reached_passes<State, FP: Fn(&State) -> u64, HOLDS: Fn(usize, &State) -> bool, NEXT: Fn(&State) -> Vec<State>>(
    expectations: Seq<Expectation>,
    g: Map<u64, Option<u64>>,
    d: Seq<Option<u64>>,
    init: Seq<State>,
    fingerprint: FP,
    holds: HOLDS,
    next_states: NEXT,
    s: State,
    n: nat,
)
    requires
        explored(expectations, g, Seq::<Job<State>>::empty(), d, fingerprint, holds, next_states),
        forall|j: int| #![trigger init[j]] 0 <= j < init.len() ==> recorded(g, fingerprint, init[j]),
        injective(fingerprint),
        deterministic(next_states),
        reachable(init, next_states, s, n),
        d.len() == expectations.len(),
    ensures
        passes(expectations, d, holds, s),
{
    if exists|i: int| 0 <= i < d.len() && (#[trigger] d[i]) is None {
        lemma_reached_recorded(expectations, g, d, init, fingerprint, holds, next_states, s, n);
        let f = choose|f: u64| #[trigger] call_ensures(fingerprint, (&s,), f) && g.contains_key(f);
        assert(!queued(Seq::<Job<State>>::empty(), f));
        let q = choose|q: State|
            #[trigger] call_ensures(fingerprint, (&q,), f) && passes(expectations, d, holds, q)
                && successors_recorded(g, fingerprint, next_states, q);
        assert(q == s);
    } else {
        assert forall|i: int| 0 <= i < expectations.len() && (#[trigger] d[i]) is None implies false by {
            if 0 <= i < d.len() {
                assert(d[i] is None);
            }
        }
    }
}

/// Whether some property has no discovery yet.
pub(crate) fn awaiting_any<T>(discoveries: &Vec<Option<T>>) -> (r: bool)
    ensures
        r == exists|i: int| 0 <= i < discoveries@.len() && #[trigger] discoveries@[i] is None,
{
    let mut i: usize = 0;
    while i < discoveries.len()
        invariant
            i <= discoveries@.len(),
            forall|j: int| 0 <= j < i ==> #[trigger] discoveries@[j] is Some,
        decreases discoveries@.len() - i,
    {
        if discoveries[i].is_none() {
            return true;
        }
        i = i + 1;
    }
    false
}

/// Checks breadth first from the initial states `init_states`, in blocks of 1500 jobs (see
/// [`check_block`]), until every property has a discovery or no job is left. Returns the
/// discoveries, the record of the states generated (each with the state it was first reached
/// from), the greatest depth taken, and the number of jobs left (none unless every property has
/// a discovery).
pub fn search<State, FP, HOLDS, NEXT>(
    expectations: &[Expectation],
    init_states: Vec<State>,
    target_max_depth: Option<usize>,
    fingerprint: &FP,
    holds: &HOLDS,
    next_states: &NEXT,
) -> (r: (Vec<Option<u64>>, HashMap<u64, Option<u64>>, usize, usize)) where
    FP: Fn(&State) -> u64,
    HOLDS: Fn(usize, &State) -> bool,
    NEXT: Fn(&State) -> Vec<State>,

    requires
        forall|s: &State| call_requires(*fingerprint, (s,)),
        forall|i: usize, s: &State| call_requires(*holds, (i, s)),
        forall|s: &State| call_requires(*next_states, (s,)),
    ensures
        r.0@.len() == expectations@.len(),
        parents_known(r.1@),
        discoveries_known(r.0@, r.1@),
        forall|i: int|
            0 <= i < expectations@.len() && #[trigger] r.0@[i] is Some ==> justified(
                expectations@[i],
                i,
                r.0@[i]->0,
                *fingerprint,
                *holds,
                *next_states,
            ),
        r.3 == 0 || forall|i: int| 0 <= i < expectations@.len() ==> #[trigger] r.0@[i] is Some,
        target_max_depth is None && r.3 == 0 && injective(*fingerprint) && deterministic(*next_states)
            ==> forall|s: State, k: nat|
            #[trigger] reachable(init_states@, *next_states, s, k) ==> passes(expectations@, r.0@, *holds, s),
        forall|i: int|
            0 <= i < expectations@.len() && expectations@[i] is Eventually && #[trigger] r.0@[i] is Some
                ==> unmet_walk_from_init(i, init_states@, *holds, *next_states),
{
    let n = expectations.len();
    let ghost init0 = init_states@;
    let (mut pending, mut generated) = init_jobs(expectations, init_states, fingerprint);
    proof {
        assert forall|j: int| #![trigger init0[j]] 0 <= j < init0.len() implies recorded(generated@, *fingerprint, init0[j]) by {
            assert(pending@.map_values(|job: Job<State>| job.state)[j] == init0[j]);
            assert(call_ensures(*fingerprint, (&pending@[j].state,), pending@[j].fingerprint));
        }
    }
    let mut discoveries: Vec<Option<u64>> = Vec::new();
    let mut i: usize = 0;
    while i < n
        invariant
            i <= n,
            discoveries@.len() == i,
            forall|j: int| 0 <= j < i ==> #[trigger] discoveries@[j] is None,
        decreases n - i,
    {
        discoveries.push(None);
        i = i + 1;
    }
    let mut max_depth: usize = 0;
    proof {
        assert forall|j: int, q: int|
            0 <= j < pending@.len() && 0 <= q < n && #[trigger] pending@[j].ebits@[q] && discoveries@[q] is None
                implies init_reached_unmet(pending@[j], q, init0, *holds, *next_states) by {
            let ps = seq![pending@[j].state];
            assert(pending@.map_values(|job: Job<State>| job.state)[j] == init0[j]);
            assert(ps[0] == init0[j]);
            assert(walk_from_init(ps, init0, *next_states));
        }
        assert(walks_known(pending@, discoveries@, n as int, init0, *holds, *next_states));
        assert forall|f: u64| #[trigger] generated@.contains_key(f) implies queued(pending@, f) by {
            let j = choose|j: int| 0 <= j < pending@.len() && pending@[j].fingerprint == f;
            assert(pending@[j].fingerprint == f);
        }
    }
    while pending.len() > 0 && awaiting_any(&discoveries)
        invariant
            init0 == init_states@,
            walks_known(pending@, discoveries@, n as int, init0, *holds, *next_states),
            forall|i: int|
                0 <= i < n && expectations@[i] is Eventually && #[trigger] discoveries@[i] is Some
                    ==> unmet_walk_from_init(i, init0, *holds, *next_states),
            forall|j: int| #![trigger init0[j]] 0 <= j < init0.len() ==> recorded(generated@, *fingerprint, init0[j]),
            target_max_depth is None ==> explored(
                expectations@,
                generated@,
                pending@,
                discoveries@,
                *fingerprint,
                *holds,
                *next_states,
            ),
            n == expectations@.len(),
            discoveries@.len() == n,
            parents_known(generated@),
            jobs_known(pending@, generated@, expectations@, *fingerprint),
            discoveries_known(discoveries@, generated@),
            forall|i: int|
                0 <= i < n && #[trigger] discoveries@[i] is Some ==> justified(
                    expectations@[i],
                    i,
                    discoveries@[i]->0,
                    *fingerprint,
                    *holds,
                    *next_states,
                ),
            forall|s: &State| call_requires(*fingerprint, (s,)),
            forall|i: usize, s: &State| call_requires(*holds, (i, s)),
            forall|s: &State| call_requires(*next_states, (s,)),
        decreases usize::MAX - generated@.len(), pending@.len(),
    {
        proof {
            broadcast use vstd::std_specs::hash::group_hash_axioms;
        }
        let ghost d0 = discoveries@;
        let ghost g_before = generated@;
        let ghost p_before = pending@;
        let depth = check_block(
            expectations,
            &mut pending,
            &mut generated,
            &mut discoveries,
            1500,
            target_max_depth,
            fingerprint,
            holds,
            next_states,
        );
        proof {
            broadcast use vstd::std_specs::hash::group_hash_axioms;

            assert forall|i: int|
                0 <= i < n && #[trigger] discoveries@[i] is Some implies justified(
                expectations@[i],
                i,
                discoveries@[i]->0,
                *fingerprint,
                *holds,
                *next_states,
            ) by {
                if discoveries@[i] == d0[i] {
                    assert(d0[i] is Some);
                }
            }
            assert(generated@.len() <= usize::MAX) by {
                assert(generated.len() == generated@.len());
            }
            assert forall|j: int| #![trigger init0[j]] 0 <= j < init0.len() implies recorded(generated@, *fingerprint, init0[j]) by {
                lemma_recorded_kept(g_before, generated@, *fingerprint, init0[j]);
            }
            lemma_block_walks(p_before, pending@, d0, discoveries@, n as int, init0, *holds, *next_states);
            assert forall|i: int|
                0 <= i < n && expectations@[i] is Eventually && #[trigger] discoveries@[i] is Some
                    implies unmet_walk_from_init(i, init0, *holds, *next_states) by {
                if d0[i] is None {
                    lemma_terminal_walk(i, p_before, d0, n as int, init0, *holds, *next_states);
                }
            }
        }
        if depth > max_depth {
            max_depth = depth;
        }
    }
    let left = pending.len();
    proof {
        if target_max_depth is None && left == 0 && injective(*fingerprint) && deterministic(*next_states) {
            assert(pending@ == Seq::<Job<State>>::empty());
            assert forall|s: State, k: nat| #[trigger] reachable(init_states@, *next_states, s, k) implies passes(
                expectations@,
                discoveries@,
                *holds,
                s,
            ) by {
                lemma_reached_passes(
                    expectations@,
                    generated@,
                    discoveries@,
                    init0,
                    *fingerprint,
                    *holds,
                    *next_states,
                    s,
                    k,
                );
            }
        }
    }
    (discoveries, generated, max_depth, left)
}

} // verus!
