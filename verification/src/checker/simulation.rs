//! Uniformly random choices for simulating a model.

use crate::checker::dfs::extended;
use crate::checker::expectation::Expectation;
use rand::rngs::StdRng;
use rand::Rng;
use rand::SeedableRng;
use std::collections::HashSet;
use vstd::prelude::*;

verus! {

#[verifier::external_type_specification]
#[verifier::external_body]
pub struct ExStdRng(StdRng);

/// rand's `StdRng::seed_from_u64`: a generator seeded from `seed`. Nothing is stated of the
/// generator's internal state.
#[verifier::external_body]
fn seeded(seed: u64) -> StdRng {
    StdRng::seed_from_u64(seed)
}

/// rand's `Rng::gen_range` on the range `0..n`: a number below `n`, as the documentation of
/// `gen_range` promises for a non-empty range (it panics on an empty one, which `requires`
/// leaves out). Which number comes out depends on the generator's state.
#[verifier::external_body]
fn gen_below(rng: &mut StdRng, n: usize) -> (r: usize)
    requires
        n > 0,
    ensures
        r < n,
{
    rng.gen_range(0..n)
}

/// Choose transitions in the model: a chooser picks, with a state of its own during a run, the
/// initial state and each action of a simulated trace.
pub trait Chooser<S, A> {
    /// State of the chooser during a run.
    type State;

    /// Creates a new chooser state from this seed for the run.
    fn new_state(&self, seed: u64) -> Self::State;

    /// Chooses the initial state for this simulation run: the index of one of `initial_states`.
    fn choose_initial_state(&self, state: &mut Self::State, initial_states: &[S]) -> (r: usize)
        requires
            initial_states@.len() > 0,
        ensures
            r < initial_states@.len(),
    ;

    /// Chooses the next action to take from the current state: the index of one of `actions`.
    fn choose_action(&self, state: &mut Self::State, current_state: &S, actions: &[A]) -> (r: usize)
        requires
            actions@.len() > 0,
        ensures
            r < actions@.len(),
    ;
}

/// A chooser that makes uniform choices.
#[derive(Clone, Copy, Debug)]
pub struct UniformChooser;

/// A chooser that makes uniform choices: its random number generator during a run.
pub struct UniformChooserState {
    rng: StdRng,
}

impl UniformChooser {
    /// Creates a new chooser state from this seed for the run.
    pub fn new_state(&self, seed: u64) -> UniformChooserState {
        UniformChooserState { rng: seeded(seed) }
    }

    /// Chooses the initial state for this simulation run: the index of one of
    /// `initial_states`.
    pub fn choose_initial_state<S>(&self, state: &mut UniformChooserState, initial_states: &[S]) -> (r: usize)
        requires
            initial_states@.len() > 0,
        ensures
            r < initial_states@.len(),
    {
        gen_below(&mut state.rng, initial_states.len())
    }

    /// Chooses the next action to take from the current state: the index of one of `actions`.
    pub fn choose_action<S, A>(&self, state: &mut UniformChooserState, current_state: &S, actions: &[A]) -> (r: usize)
        requires
            actions@.len() > 0,
        ensures
            r < actions@.len(),
    {
        gen_below(&mut state.rng, actions.len())
    }
}


impl<S, A> Chooser<S, A> for UniformChooser {
    type State = UniformChooserState;

    fn new_state(&self, seed: u64) -> UniformChooserState {
        UniformChooser::new_state(self, seed)
    }

    fn choose_initial_state(&self, state: &mut UniformChooserState, initial_states: &[S]) -> (r: usize) {
        UniformChooser::choose_initial_state(self, state, initial_states)
    }

    fn choose_action(&self, state: &mut UniformChooserState, current_state: &S, actions: &[A]) -> (r: usize) {
        UniformChooser::choose_action(self, state, current_state, actions)
    }
}

/// For an `eventually` property `i`, the path of fingerprints `d` of a simulated trace never met
/// it: `d` begins with the fingerprints of states, one each, on none of which the property held
/// (the last fingerprint may be that of a state seen before in the trace, not checked again).
pub open spec fn never_met<S, FP: Fn(&S) -> u64, HOLDS: Fn(usize, &S) -> bool>(
    i: int,
    d: Seq<u64>,
    fingerprint: FP,
    holds: HOLDS,
) -> bool {
    exists|ss: Seq<S>|
        #![trigger ss.len()]
        ss.len() <= d.len() <= ss.len() + 1 && forall|j: int|
            0 <= j < ss.len() ==> call_ensures(fingerprint, (&(#[trigger] ss[j]),), d[j])
                && call_ensures(holds, (i as usize, &ss[j]), false)
}

/// The discovery `d` (a path of fingerprints) for property `i` (of expectation `e`) ends at a
/// state where the property did not hold for `always`, did hold for `sometimes`.
pub open spec fn justified<S, FP: Fn(&S) -> u64, HOLDS: Fn(usize, &S) -> bool>(
    e: Expectation,
    i: int,
    d: Seq<u64>,
    fingerprint: FP,
    holds: HOLDS,
) -> bool {
    &&& d.len() > 0
    &&& exists|s: S|
        #[trigger] call_ensures(fingerprint, (&s,), d.last()) && match e {
            Expectation::Always => call_ensures(holds, (i as usize, &s), false),
            Expectation::Sometimes => call_ensures(holds, (i as usize, &s), true),
            Expectation::Eventually => false,
        }
}

/// `within_boundary` admits each of `init`.
pub open spec fn admits_all<S, BOUND: Fn(&S) -> bool>(within_boundary: BOUND, init: Seq<S>) -> bool {
    forall|j: int, b: bool|
        0 <= j < init.len() && #[trigger] call_ensures(within_boundary, (&init[j],), b) ==> b
}

/// Property `i` evaluates to `v` on each of `init`.
pub open spec fn evaluates_on_all<S, HOLDS: Fn(usize, &S) -> bool>(
    holds: HOLDS,
    i: int,
    init: Seq<S>,
    v: bool,
) -> bool {
    forall|j: int, b: bool|
        0 <= j < init.len() && #[trigger] call_ensures(holds, (i as usize, &init[j]), b) ==> b == v
}

/// Whichever initial state a trace starts from, property `i` (without an earlier discovery) is
/// discovered there: the depth sought is not zero, the boundary admits each initial state, and
/// property `i` is an `always` property false on each of them or a `sometimes` property true on
/// each of them.
pub open spec fn found_at_start<S, HOLDS: Fn(usize, &S) -> bool, BOUND: Fn(&S) -> bool>(
    e: Expectation,
    i: int,
    init: Seq<S>,
    target_max_depth: Option<usize>,
    holds: HOLDS,
    within_boundary: BOUND,
) -> bool {
    &&& target_max_depth != Some(0usize)
    &&& admits_all(within_boundary, init)
    &&& match e {
        Expectation::Always => evaluates_on_all(holds, i, init, false),
        Expectation::Sometimes => evaluates_on_all(holds, i, init, true),
        Expectation::Eventually => false,
    }
}

/// Simulates one trace of a model, as the simulation checker does on each run: `chooser`
/// (seeded with `seed`) picks one of `init_states`, then from each state visited one of the
/// actions that `actions_from` gives whose `next_state` is a state.
///
/// Along the trace: each property without a discovery is evaluated on each state visited
/// (`holds(i, s)` evaluates property `i` on `s`); an `always` property that does not hold, or a
/// `sometimes` property that holds, is discovered with the trace's fingerprints so far, and an
/// `eventually` property that holds is marked as met. The trace ends at a state beyond
/// `target_max_depth` (then nothing more is discovered), at a state outside `within_boundary`,
/// at a state whose `key` was seen before in the trace (a cycle), once no property awaits a
/// discovery, or where no action leads anywhere; each `eventually` property not marked as met is
/// then discovered with the trace's fingerprints. Returns the number of states visited and the
/// greatest depth taken.
pub fn check_trace<S, Act, C, FP, K, HOLDS, ACTS, NEXT, BOUND>(
    expectations: &[Expectation],
    init_states: Vec<S>,
    chooser: &C,
    seed: u64,
    discoveries: &mut Vec<Option<Vec<u64>>>,
    target_max_depth: Option<usize>,
    fingerprint: &FP,
    key: &K,
    holds: &HOLDS,
    actions_from: &ACTS,
    next_state: &NEXT,
    within_boundary: &BOUND,
) -> (r: (usize, usize)) where
    C: Chooser<S, Act>,
    FP: Fn(&S) -> u64,
    K: Fn(&S) -> u64,
    HOLDS: Fn(usize, &S) -> bool,
    ACTS: Fn(&S) -> Vec<Act>,
    NEXT: Fn(&S, Act) -> Option<S>,
    BOUND: Fn(&S) -> bool,

    requires
        init_states@.len() > 0,
        old(discoveries)@.len() == expectations@.len(),
        forall|s: &S| call_requires(*fingerprint, (s,)),
        forall|s: &S| call_requires(*key, (s,)),
        forall|i: usize, s: &S| call_requires(*holds, (i, s)),
        forall|s: &S| call_requires(*actions_from, (s,)),
        forall|s: &S, a: Act| call_requires(*next_state, (s, a)),
        forall|s: &S| call_requires(*within_boundary, (s,)),
    ensures
        r.1 <= r.0 <= r.1 + 1,
        target_max_depth matches Some(t) ==> r.0 <= t,
        target_max_depth != Some(0usize) && admits_all(*within_boundary, init_states@) ==> r.0 >= 1,
        forall|i: int|
            0 <= i < expectations@.len() && old(discoveries)@[i] is None && found_at_start(
                expectations@[i],
                i,
                init_states@,
                target_max_depth,
                *holds,
                *within_boundary,
            ) ==> #[trigger] final(discoveries)@[i] is Some,
        final(discoveries)@.len() == expectations@.len(),
        forall|i: int|
            0 <= i < expectations@.len() && #[trigger] old(discoveries)@[i] is Some ==> final(discoveries)@[i] is Some,
        forall|i: int|
            0 <= i < expectations@.len() && !(expectations@[i] is Eventually) && old(discoveries)@[i] is Some ==> #[trigger] final(discoveries)@[i] == old(discoveries)@[i],
        forall|i: int|
            0 <= i < expectations@.len() && !(expectations@[i] is Eventually) && old(discoveries)@[i] is None && #[trigger] final(discoveries)@[i] is Some ==> justified(
                expectations@[i],
                i,
                final(discoveries)@[i]->0@,
                *fingerprint,
                *holds,
            ),
        forall|i: int|
            0 <= i < expectations@.len() && expectations@[i] is Eventually && old(discoveries)@[i] is None && #[trigger] final(discoveries)@[i] is Some ==> never_met::<S, FP, HOLDS>(
                i,
                final(discoveries)@[i]->0@,
                *fingerprint,
                *holds,
            ),
{
    let n = expectations.len();
    let ghost d0 = discoveries@;
    let ghost init0 = init_states@;
    let mut chooser_state = chooser.new_state(seed);
    let mut pool = init_states;
    let index: usize = chooser.choose_initial_state(&mut chooser_state, pool.as_slice());
    let mut state = pool.swap_remove(index);
    let ghost start = state;
    let ghost starts = target_max_depth != Some(0usize) && admits_all(*within_boundary, init0);
    proof {
        broadcast use vstd::std_specs::hash::group_hash_axioms;

        assert(start == init0[index as int]);
        if starts {
            assert forall|b: bool| #[trigger] call_ensures(*within_boundary, (&start,), b) implies b by {
                assert(call_ensures(*within_boundary, (&init0[index as int],), b));
            }
        }
    }
    let mut ebits: Vec<bool> = Vec::new();
    let mut i: usize = 0;
    while i < n
        invariant
            n == expectations@.len(),
            i <= n,
            ebits@.len() == i,
            forall|q: int| 0 <= q < i ==> #[trigger] ebits@[q] == (expectations@[q] is Eventually),
        decreases n - i,
    {
        ebits.push(matches!(expectations[i], Expectation::Eventually));
        i = i + 1;
    }
    let mut fingerprints: Vec<u64> = Vec::new();
    let mut generated: HashSet<u64> = HashSet::new();
    let mut count: usize = 0;
    let mut max_depth: usize = 0;
    let ghost mut seen: Seq<S> = Seq::empty();
    loop
        invariant_except_break
            fingerprints@.len() == seen.len(),
        invariant
            n == expectations@.len(),
            d0 == old(discoveries)@,
            discoveries@.len() == n,
            ebits@.len() == n,
            count <= fingerprints@.len(),
            count == seen.len(),
            count == 0 ==> fingerprints@.len() == 0 && generated@ == Set::<u64>::empty() && state
                == start,
            starts ==> forall|b: bool| #[trigger] call_ensures(*within_boundary, (&start,), b) ==> b,
            starts == (target_max_depth != Some(0usize) && admits_all(*within_boundary, init0)),
            init0 == init_states@,
            0 <= index < init0.len() && start == init0[index as int],
            count >= 1 ==> forall|q: int|
                0 <= q < n && d0[q] is None && found_at_start(
                    expectations@[q],
                    q,
                    init0,
                    target_max_depth,
                    *holds,
                    *within_boundary,
                ) ==> #[trigger] discoveries@[q] is Some,
            max_depth <= count <= max_depth + 1,
            target_max_depth matches Some(t) ==> count <= t && fingerprints@.len() <= t,
            fingerprints@.len() <= usize::MAX,
            seen.len() <= fingerprints@.len() <= seen.len() + 1,
            forall|q: int| 0 <= q < n && #[trigger] ebits@[q] ==> expectations@[q] is Eventually,
            forall|j: int| #![trigger seen[j]] 0 <= j < seen.len() ==> call_ensures(*fingerprint, (&seen[j],), fingerprints@[j]),
            forall|q: int, j: int|
                #![trigger ebits@[q], seen[j]]
                0 <= q < n && 0 <= j < seen.len() && ebits@[q] && d0[q] is None ==> call_ensures(
                    *holds,
                    (q as usize, &seen[j]),
                    false,
                ),
            forall|q: int| 0 <= q < n && expectations@[q] is Eventually && d0[q] is None ==> #[trigger] discoveries@[q] is None,
            forall|q: int| 0 <= q < n && #[trigger] d0[q] is Some ==> discoveries@[q] is Some,
            forall|q: int| 0 <= q < n && !(expectations@[q] is Eventually) && d0[q] is Some ==> #[trigger] discoveries@[q] == d0[q],
            forall|q: int| 0 <= q < n && !(expectations@[q] is Eventually) && d0[q] is None && #[trigger] discoveries@[q] is Some ==> justified(
                expectations@[q],
                q,
                discoveries@[q]->0@,
                *fingerprint,
                *holds,
            ),
            forall|s: &S| call_requires(*fingerprint, (s,)),
            forall|s: &S| call_requires(*key, (s,)),
            forall|i: usize, s: &S| call_requires(*holds, (i, s)),
            forall|s: &S| call_requires(*actions_from, (s,)),
            forall|s: &S, a: Act| call_requires(*next_state, (s, a)),
            forall|s: &S| call_requires(*within_boundary, (s,)),
        ensures
            starts ==> count >= 1,
        decreases usize::MAX - fingerprints@.len(),
    {
        if fingerprints.len() > max_depth {
            max_depth = fingerprints.len();
        }
        match target_max_depth {
            Some(t) => {
                if fingerprints.len() >= t {
                    // Beyond the depth sought: whether the trace ends here is not known.
                    proof {
                        if count == 0 {
                            assert(target_max_depth == Some(0usize));
                            assert forall|q: int|
                                0 <= q < n && d0[q] is None implies !found_at_start(
                                expectations@[q],
                                q,
                                init0,
                                target_max_depth,
                                *holds,
                                *within_boundary,
                            ) by {}
                        }
                    }
                    return (count, max_depth);
                }
            },
            None => {},
        }
        if !within_boundary(&state) {
            break;
        }
        let fp = fingerprint(&state);
        fingerprints.push(fp);
        let _depth: usize = fingerprints.len();
        let fresh = generated.insert(key(&state));
        proof {
            broadcast use vstd::std_specs::hash::group_hash_axioms;

            if count == 0 {
                assert(fresh);
            }
        }
        if !fresh {
            // A cycle.
            break;
        }
        let ghost first = count == 0;
        count = count + 1;
        proof {
            seen = seen.push(state);
        }
        let mut awaiting = false;
        let mut i: usize = 0;
        while i < n
            invariant
                n == expectations@.len(),
                discoveries@.len() == n,
                ebits@.len() == n,
                fingerprints@.len() == seen.len(),
                seen.len() > 0,
                seen.last() == state,
                first ==> state == start,
                0 <= index < init0.len() && start == init0[index as int],
                forall|q: int|
                    0 <= q < n && d0[q] is None && found_at_start(
                        expectations@[q],
                        q,
                        init0,
                        target_max_depth,
                        *holds,
                        *within_boundary,
                    ) && (!first || q < i) ==> #[trigger] discoveries@[q] is Some,
                call_ensures(*fingerprint, (&state,), fingerprints@.last()),
                forall|q: int| 0 <= q < n && #[trigger] ebits@[q] ==> expectations@[q] is Eventually,
                forall|q: int, j: int|
                    #![trigger ebits@[q], seen[j]]
                    0 <= q < n && 0 <= j < seen.len() - 1 && ebits@[q] && d0[q] is None ==> call_ensures(
                        *holds,
                        (q as usize, &seen[j]),
                        false,
                    ),
                forall|q: int|
                    0 <= q < i && #[trigger] ebits@[q] && d0[q] is None ==> call_ensures(
                        *holds,
                        (q as usize, &state),
                        false,
                    ),
                forall|q: int| 0 <= q < n && expectations@[q] is Eventually && d0[q] is None ==> #[trigger] discoveries@[q] is None,
                forall|q: int| 0 <= q < n && #[trigger] d0[q] is Some ==> discoveries@[q] is Some,
                forall|q: int| 0 <= q < n && !(expectations@[q] is Eventually) && d0[q] is Some ==> #[trigger] discoveries@[q] == d0[q],
                forall|q: int| 0 <= q < n && !(expectations@[q] is Eventually) && d0[q] is None && #[trigger] discoveries@[q] is Some ==> justified(
                    expectations@[q],
                    q,
                    discoveries@[q]->0@,
                    *fingerprint,
                    *holds,
                ),
                forall|i: usize, s: &S| call_requires(*holds, (i, s)),
            decreases n - i,
        {
            if discoveries[i].is_none() {
                let h = holds(i, &state);
                proof {
                    if first {
                        assert(call_ensures(*holds, ((i as int) as usize, &init0[index as int]), h));
                    }
                }
                match expectations[i] {
                    Expectation::Always => {
                        if !h {
                            discoveries.set(i, Some(extended(&fingerprints, None)));
                        } else {
                            awaiting = true;
                        }
                    },
                    Expectation::Sometimes => {
                        if h {
                            discoveries.set(i, Some(extended(&fingerprints, None)));
                        } else {
                            awaiting = true;
                        }
                    },
                    Expectation::Eventually => {
                        awaiting = true;
                        if h {
                            ebits.set(i, false);
                        }
                    },
                }
            }
            i = i + 1;
        }
        proof {
            assert forall|q: int, j: int|
                #![trigger ebits@[q], seen[j]]
                0 <= q < n && 0 <= j < seen.len() && ebits@[q] && d0[q] is None implies call_ensures(
                    *holds,
                    (q as usize, &seen[j]),
                    false,
                ) by {
                if j == seen.len() - 1 {
                    assert(seen[j] == state);
                }
            }
        }
        if !awaiting {
            break;
        }
        let mut actions = actions_from(&state);
        let mut chosen: Option<S> = None;
        while chosen.is_none() && actions.len() > 0
            invariant
                forall|s: &S, a: Act| call_requires(*next_state, (s, a)),
            decreases actions@.len(),
        {
            let index: usize = chooser.choose_action(&mut chooser_state, &state, actions.as_slice());
            let action = actions.swap_remove(index);
            chosen = next_state(&state, action);
        }
        match chosen {
            Some(next) => {
                state = next;
            },
            None => {
                // No action leads anywhere.
                break;
            },
        }
    }
    let mut i: usize = 0;
    while i < n
        invariant
            n == expectations@.len(),
            discoveries@.len() == n,
            ebits@.len() == n,
            starts ==> count >= 1,
            starts == (target_max_depth != Some(0usize) && admits_all(*within_boundary, init0)),
            init0 == init_states@,
            count >= 1 ==> forall|q: int|
                0 <= q < n && d0[q] is None && found_at_start(
                    expectations@[q],
                    q,
                    init0,
                    target_max_depth,
                    *holds,
                    *within_boundary,
                ) ==> #[trigger] discoveries@[q] is Some,
            seen.len() <= fingerprints@.len() <= seen.len() + 1,
            forall|q: int| 0 <= q < n && #[trigger] ebits@[q] ==> expectations@[q] is Eventually,
            forall|j: int| #![trigger seen[j]] 0 <= j < seen.len() ==> call_ensures(*fingerprint, (&seen[j],), fingerprints@[j]),
            forall|q: int, j: int|
                #![trigger ebits@[q], seen[j]]
                0 <= q < n && 0 <= j < seen.len() && ebits@[q] && d0[q] is None ==> call_ensures(
                    *holds,
                    (q as usize, &seen[j]),
                    false,
                ),
            forall|q: int| i <= q < n && expectations@[q] is Eventually && d0[q] is None ==> #[trigger] discoveries@[q] is None,
            forall|q: int| 0 <= q < n && #[trigger] d0[q] is Some ==> discoveries@[q] is Some,
            forall|q: int| 0 <= q < n && !(expectations@[q] is Eventually) && d0[q] is Some ==> #[trigger] discoveries@[q] == d0[q],
            forall|q: int| 0 <= q < n && !(expectations@[q] is Eventually) && d0[q] is None && #[trigger] discoveries@[q] is Some ==> justified(
                expectations@[q],
                q,
                discoveries@[q]->0@,
                *fingerprint,
                *holds,
            ),
            forall|q: int| 0 <= q < i && expectations@[q] is Eventually && d0[q] is None && #[trigger] discoveries@[q] is Some ==> never_met::<S, FP, HOLDS>(
                q,
                discoveries@[q]->0@,
                *fingerprint,
                *holds,
            ),
        decreases n - i,
    {
        if ebits[i] {
            discoveries.set(i, Some(extended(&fingerprints, None)));
            proof {
                if d0[i as int] is None {
                    let ss = seen;
                    assert(ss.len() <= fingerprints@.len() <= ss.len() + 1);
                    assert(forall|j: int|
                        0 <= j < ss.len() ==> call_ensures(*fingerprint, (&(#[trigger] ss[j]),), fingerprints@[j])
                            && call_ensures(*holds, (i as usize, &ss[j]), false));
                }
            }
        }
        i = i + 1;
    }
    (count, max_depth)
}

/// Whichever initial states `init` gives, property `i` is discovered at the start of a trace
/// (see [`found_at_start`]).
pub open spec fn found_from_any_start<S, HOLDS: Fn(usize, &S) -> bool, BOUND: Fn(&S) -> bool, INIT: Fn() -> Vec<S>>(
    init: INIT,
    e: Expectation,
    i: int,
    target_max_depth: Option<usize>,
    holds: HOLDS,
    within_boundary: BOUND,
) -> bool {
    forall|v: Vec<S>|
        #[trigger] call_ensures(init, (), v) ==> found_at_start(e, i, v@, target_max_depth, holds, within_boundary)
}

/// Whether every property has a discovery.
fn all_found(discoveries: &Vec<Option<Vec<u64>>>) -> (r: bool)
    ensures
        r == forall|i: int| 0 <= i < discoveries@.len() ==> #[trigger] discoveries@[i] is Some,
{
    let mut i: usize = 0;
    while i < discoveries.len()
        invariant
            i <= discoveries@.len(),
            forall|j: int| 0 <= j < i ==> #[trigger] discoveries@[j] is Some,
        decreases discoveries@.len() - i,
    {
        if discoveries[i].is_none() {
            return false;
        }
        i = i + 1;
    }
    true
}

/// Simulates traces of a model with [`check_trace`], the `k`-th one seeded with `seed + k`
/// (wrapping), each from the initial states `init` gives, until every property has a discovery
/// or `max_traces` traces have run. Returns the discoveries (each a path of fingerprints), the
/// number of states visited over all traces (wrapping), the greatest depth taken, and the number
/// of traces run.
pub fn simulate<S, Act, C, FP, K, HOLDS, ACTS, NEXT, BOUND, INIT>(
    expectations: &[Expectation],
    init: &INIT,
    chooser: &C,
    seed: u64,
    max_traces: usize,
    target_max_depth: Option<usize>,
    fingerprint: &FP,
    key: &K,
    holds: &HOLDS,
    actions_from: &ACTS,
    next_state: &NEXT,
    within_boundary: &BOUND,
) -> (r: (Vec<Option<Vec<u64>>>, usize, usize, usize)) where
    C: Chooser<S, Act>,
    FP: Fn(&S) -> u64,
    K: Fn(&S) -> u64,
    HOLDS: Fn(usize, &S) -> bool,
    ACTS: Fn(&S) -> Vec<Act>,
    NEXT: Fn(&S, Act) -> Option<S>,
    BOUND: Fn(&S) -> bool,
    INIT: Fn() -> Vec<S>,

    requires
        call_requires(*init, ()),
        forall|v: Vec<S>| #[trigger] call_ensures(*init, (), v) ==> v@.len() > 0,
        forall|s: &S| call_requires(*fingerprint, (s,)),
        forall|s: &S| call_requires(*key, (s,)),
        forall|i: usize, s: &S| call_requires(*holds, (i, s)),
        forall|s: &S| call_requires(*actions_from, (s,)),
        forall|s: &S, a: Act| call_requires(*next_state, (s, a)),
        forall|s: &S| call_requires(*within_boundary, (s,)),
    ensures
        r.0@.len() == expectations@.len(),
        r.3 <= max_traces,
        forall|i: int|
            0 <= i < expectations@.len() && max_traces > 0 && found_from_any_start(
                *init,
                expectations@[i],
                i,
                target_max_depth,
                *holds,
                *within_boundary,
            ) ==> #[trigger] r.0@[i] is Some,
        r.3 == max_traces || forall|i: int| 0 <= i < expectations@.len() ==> #[trigger] r.0@[i] is Some,
        forall|i: int|
            0 <= i < expectations@.len() && !(expectations@[i] is Eventually) && #[trigger] r.0@[i] is Some ==> justified(
                expectations@[i],
                i,
                r.0@[i]->0@,
                *fingerprint,
                *holds,
            ),
{
    let n = expectations.len();
    let mut discoveries: Vec<Option<Vec<u64>>> = Vec::new();
    let mut i: usize = 0;
    while i < n
        invariant
            i <= n,
            discoveries@.len() == i,
            forall|j: int| 0 <= j < i ==> #[trigger] discoveries@[j] is None,
        decreases n - i,
    {
        discoveries.push(None);
        i = i + 1;
    }
    let mut state_count: usize = 0;
    let mut max_depth: usize = 0;
    let mut trace_seed = seed;
    let mut traces: usize = 0;
    while traces < max_traces && !all_found(&discoveries)
        invariant
            n == expectations@.len(),
            discoveries@.len() == n,
            traces <= max_traces,
            traces > 0 ==> forall|i: int|
                0 <= i < n && found_from_any_start(
                    *init,
                    expectations@[i],
                    i,
                    target_max_depth,
                    *holds,
                    *within_boundary,
                ) ==> #[trigger] discoveries@[i] is Some,
            forall|i: int|
                0 <= i < n && !(expectations@[i] is Eventually) && #[trigger] discoveries@[i] is Some ==> justified(
                    expectations@[i],
                    i,
                    discoveries@[i]->0@,
                    *fingerprint,
                    *holds,
                ),
            call_requires(*init, ()),
            forall|v: Vec<S>| #[trigger] call_ensures(*init, (), v) ==> v@.len() > 0,
            forall|s: &S| call_requires(*fingerprint, (s,)),
            forall|s: &S| call_requires(*key, (s,)),
            forall|i: usize, s: &S| call_requires(*holds, (i, s)),
            forall|s: &S| call_requires(*actions_from, (s,)),
            forall|s: &S, a: Act| call_requires(*next_state, (s, a)),
            forall|s: &S| call_requires(*within_boundary, (s,)),
        decreases max_traces - traces,
    {
        let init_states = init();
        let ghost d_b = discoveries@;
        let ghost starts = init_states@;
        let (count, depth) = check_trace(
            expectations,
            init_states,
            chooser,
            trace_seed,
            &mut discoveries,
            target_max_depth,
            fingerprint,
            key,
            holds,
            actions_from,
            next_state,
            within_boundary,
        );
        proof {
            assert forall|i: int|
                0 <= i < n && found_from_any_start(
                    *init,
                    expectations@[i],
                    i,
                    target_max_depth,
                    *holds,
                    *within_boundary,
                ) implies #[trigger] discoveries@[i] is Some by {
                assert(found_at_start(expectations@[i], i, starts, target_max_depth, *holds, *within_boundary));
                if d_b[i] is Some {
                }
            }
        }
        state_count = state_count.wrapping_add(count);
        if depth > max_depth {
            max_depth = depth;
        }
        trace_seed = trace_seed.wrapping_add(1);
        traces = traces + 1;
    }
    (discoveries, state_count, max_depth, traces)
}

} // verus!
