//! Paths of states and actions: `state --action--> state ... --action--> state`.

use crate::semantics::{exact_clone, exact_eq};
use vstd::pervasive::cloned;
use crate::util::text::{decimal, u64_decimal};
use vstd::prelude::*;
use vstd::std_specs::convert::FromSpecImpl;

verus! {

/// A path of states including actions. i.e. `state --action--> state ... --action--> state`.
///
/// Each state but the last is paired with the action taken from it; the last state is paired
/// with no action. A path holds at least one state.
#[derive(Debug, Eq, Hash, Ord, PartialEq, PartialOrd)]
pub struct Path<State, Action>(Vec<(State, Option<Action>)>);

impl<State, Action> View for Path<State, Action> {
    type V = Seq<(State, Option<Action>)>;

    /// The states in order, each with the action taken from it.
    closed spec fn view(&self) -> Self::V {
        self.0@
    }
}

/// The actions of the steps of `p`, in order.
pub open spec fn actions_of<State, Action>(p: Seq<(State, Option<Action>)>) -> Seq<Action>
    decreases p.len(),
{
    if p.len() == 0 {
        Seq::empty()
    } else {
        let rest = actions_of(p.drop_last());
        match p.last().1 {
            Some(a) => rest.push(a),
            None => rest,
        }
    }
}

/// Among the steps `steps` the model offers from a state, `steps[j]` is the one taken for
/// action `a`: the first whose action is `a` (when `==` on actions is equality of values).
pub open spec fn takes<State, Action: PartialEq>(steps: Seq<(Action, State)>, a: Action, j: int) -> bool {
    &&& 0 <= j < steps.len()
    &&& exact_eq::<Action>() ==> steps[j].0 == a && forall|i: int| 0 <= i < j ==> #[trigger] steps[i].0 != a
}

/// From state `s`, the model's steps are `steps` and none of them has action `a`.
pub open spec fn no_step<State, Action>(steps: Seq<(Action, State)>, a: Action) -> bool {
    forall|i: int| 0 <= i < steps.len() ==> #[trigger] steps[i].0 != a
}

/// `p` starts at `init` and takes, in turn, the step of each action of `acts` among those that
/// `next_steps` gives from the state reached.
pub open spec fn follows<State, Action: PartialEq, F: Fn(&State) -> Vec<(Action, State)>>(
    p: Seq<(State, Option<Action>)>,
    init: State,
    acts: Seq<Action>,
    next_steps: F,
) -> bool {
    &&& p.len() == acts.len() + 1
    &&& p[0].0 == init
    &&& p.last().1 is None
    &&& forall|k: int|
        0 <= k < acts.len() ==> #[trigger] p[k].1 is Some && exists|steps: Vec<(Action, State)>, j: int|
            call_ensures(next_steps, (&p[k].0,), steps) && #[trigger] takes(steps@, acts[k], j)
                && steps@[j] == (p[k].1->0, p[k + 1].0)
}

/// `s[i]` is the first occurrence of `x` in `s`.
pub open spec fn first_index<T>(s: Seq<T>, x: T, i: int) -> bool {
    &&& 0 <= i < s.len()
    &&& s[i] == x
    &&& forall|j: int| 0 <= j < i ==> #[trigger] s[j] != x
}

/// The indices `idx` written in decimal and delimited by forward slashes.
pub open spec fn encoding(idx: Seq<nat>) -> Seq<char>
    decreases idx.len(),
{
    if idx.len() == 0 {
        Seq::empty()
    } else if idx.len() == 1 {
        decimal(idx[0])
    } else {
        encoding(idx.drop_last()) + seq!['/'] + decimal(idx.last())
    }
}

/// `idx` are the positions of the actions taken in the steps `p` (each state paired with the
/// action taken from it, if any) among the actions that `actions_from` gives from the step's
/// state.
pub open spec fn action_positions<State, Action: PartialEq, F: Fn(&State) -> Vec<Action>>(
    p: Seq<(State, Option<Action>)>,
    actions_from: F,
    idx: Seq<nat>,
) -> bool
    decreases p.len(),
{
    if p.len() == 0 {
        idx.len() == 0
    } else {
        match p.last().1 {
            Some(a) => idx.len() > 0 && action_positions(p.drop_last(), actions_from, idx.drop_last())
                && exists|acts: Vec<Action>|
                #[trigger] call_ensures(actions_from, (&p.last().0,), acts) && idx.last() < acts@.len()
                    && (exact_eq::<Action>() ==> first_index(acts@, a, idx.last() as int)),
            None => action_positions(p.drop_last(), actions_from, idx),
        }
    }
}

/// `p` visits states with the fingerprints `fps`, in order, starting at one of `init_states`;
/// each step is the first of those `next_steps` gives from the state reached whose state has the
/// next fingerprint.
pub open spec fn retraces<State, Action, FP: Fn(&State) -> u64, F: Fn(&State) -> Vec<(Action, State)>>(
    p: Seq<(State, Option<Action>)>,
    init_states: Seq<State>,
    fps: Seq<u64>,
    fingerprint: FP,
    next_steps: F,
) -> bool {
    &&& p.len() == fps.len()
    &&& p.len() > 0
    &&& init_states.contains(p[0].0)
    &&& p.last().1 is None
    &&& forall|k: int| 0 <= k < p.len() ==> call_ensures(fingerprint, (&(#[trigger] p[k]).0,), fps[k])
    &&& forall|k: int|
        0 <= k < p.len() - 1 ==> #[trigger] p[k].1 is Some && exists|steps: Vec<(Action, State)>, j: int|
            #![trigger call_ensures(next_steps, (&p[k].0,), steps), steps@[j]]
            call_ensures(next_steps, (&p[k].0,), steps) && 0 <= j < steps@.len() && steps@[j]
                == (p[k].1->0, p[k + 1].0)
}

/// Some call of `fingerprint` on `s` gave a fingerprint other than `f`.
pub open spec fn misses<State, FP: Fn(&State) -> u64>(fingerprint: FP, s: State, f: u64) -> bool {
    exists|v: u64| call_ensures(fingerprint, (&s,), v) && v != f
}

/// No path retraces the fingerprints `fps` the way [`Path::from_fingerprints`] searches for one:
/// there is no fingerprint; or none of `init_states` has the first; or some path retraces the
/// first `k` fingerprints and none of the steps `next_steps` gives from its last state leads to
/// a state with the next.
pub open spec fn retrace_fails<State, Action, FP: Fn(&State) -> u64, F: Fn(&State) -> Vec<(Action, State)>>(
    init_states: Seq<State>,
    fps: Seq<u64>,
    fingerprint: FP,
    next_steps: F,
) -> bool {
    ||| fps.len() == 0
    ||| forall|j: int| 0 <= j < init_states.len() ==> misses(fingerprint, #[trigger] init_states[j], fps[0])
    ||| exists|q: Seq<(State, Option<Action>)>, steps: Vec<(Action, State)>, k: int|
        #![trigger retraces(q, init_states, fps.take(k), fingerprint, next_steps), call_ensures(next_steps, (&q.last().0,), steps)]
        1 <= k < fps.len() && retraces(q, init_states, fps.take(k), fingerprint, next_steps)
            && call_ensures(next_steps, (&q.last().0,), steps) && forall|j: int|
            0 <= j < steps@.len() ==> misses(fingerprint, (#[trigger] steps@[j]).1, fps[k])
}

/// The actions of the steps of a path whose first `m` steps take the actions `acts` are `acts`,
/// up to step `m`.
proof fn lemma_actions_prefix<State, Action>(p: Seq<(State, Option<Action>)>, acts: Seq<Action>, m: int)
    requires
        0 <= m <= acts.len() < p.len(),
        forall|k: int| 0 <= k < acts.len() ==> #[trigger] p[k].1 == Some(acts[k]),
    ensures
        actions_of(p.take(m)) == acts.take(m),
    decreases m,
{
    if m > 0 {
        lemma_actions_prefix(p, acts, m - 1);
        assert(p.take(m).drop_last() == p.take(m - 1));
        assert(p.take(m).last() == p[m - 1]);
        assert(acts.take(m) == acts.take(m - 1).push(acts[m - 1]));
    } else {
        assert(p.take(0) =~= Seq::<(State, Option<Action>)>::empty());
        assert(acts.take(0) =~= Seq::<Action>::empty());
    }
}

/// A path built by following actions takes exactly those actions, in order (when `==` on
/// actions is equality of values): [`Path::into_actions`] gives back what
/// [`Path::from_actions`] was given.
pub proof fn followed_path_takes_the_actions<State, Action: PartialEq, F: Fn(&State) -> Vec<(Action, State)>>(
    p: Seq<(State, Option<Action>)>,
    init: State,
    acts: Seq<Action>,
    next_steps: F,
)
    requires
        follows(p, init, acts, next_steps),
        exact_eq::<Action>(),
    ensures
        actions_of(p) == acts,
{
    assert forall|k: int| 0 <= k < acts.len() implies #[trigger] p[k].1 == Some(acts[k]) by {
        assert(p[k].1 is Some);
        let (steps, j) = choose|steps: Vec<(Action, State)>, j: int|
            call_ensures(next_steps, (&p[k].0,), steps) && #[trigger] takes(steps@, acts[k], j)
                && steps@[j] == (p[k].1->0, p[k + 1].0);
    }
    lemma_actions_prefix(p, acts, acts.len() as int);
    assert(p.drop_last() == p.take(acts.len() as int));
    assert(acts.take(acts.len() as int) == acts);
}

impl<State, Action> Path<State, Action> {
    #[verifier::type_invariant]
    spec fn not_empty(self) -> bool {
        self.0@.len() > 0
    }

    /// Constructs a path from the initial states of a model, an initial state, and a sequence
    /// of actions: each step is the first of those `next_steps` gives from the state reached
    /// whose action is the next one. `None` where the initial state is not one of
    /// `init_states`, or an action is not possible.
    pub fn from_actions<F>(
        init_states: &[State],
        init_state: State,
        actions: &[Action],
        next_steps: F,
    ) -> (r: Option<Self>) where
        State: PartialEq,
        Action: PartialEq,
        F: Fn(&State) -> Vec<(Action, State)>,

        requires
            forall|s: &State| call_requires(next_steps, (s,)),
        ensures
            r matches Some(p) ==> follows(p@, init_state, actions@, next_steps),
            r is Some && exact_eq::<State>() ==> init_states@.contains(init_state),
            r is None ==> !exact_eq::<State>() || !init_states@.contains(init_state) || exists|
                q: Seq<(State, Option<Action>)>,
                steps: Vec<(Action, State)>,
                k: int,
            |
                #![trigger follows(q, init_state, actions@.take(k), next_steps), call_ensures(next_steps, (&q.last().0,), steps)]
                0 <= k < actions@.len() && follows(q, init_state, actions@.take(k), next_steps)
                    && call_ensures(next_steps, (&q.last().0,), steps) && (exact_eq::<Action>()
                    ==> no_step(steps@, actions@[k])),
    {
        let mut known = false;
        let mut i: usize = 0;
        while i < init_states.len()
            invariant
                i <= init_states@.len(),
                exact_eq::<State>() ==> (known <==> exists|j: int| 0 <= j < i && init_states@[j] == init_state),
            decreases init_states@.len() - i,
        {
            if init_states[i] == init_state {
                known = true;
            }
            i = i + 1;
        }
        if !known {
            return None;
        }
        let mut output: Vec<(State, Option<Action>)> = Vec::new();
        let mut prev_state = init_state;
        let ghost init = prev_state;
        let mut k: usize = 0;
        while k < actions.len()
            invariant
                k <= actions@.len(),
                forall|s: &State| call_requires(next_steps, (s,)),
                output@.len() == k,
                init == init_state,
                follows(output@.push((prev_state, None)), init, actions@.take(k as int), next_steps),
            decreases actions@.len() - k,
        {
            let ghost before = output@.push((prev_state, None));
            let mut steps = next_steps(&prev_state);
            let ghost all_steps = steps;
            let mut j: usize = 0;
            while j < steps.len() && !(steps[j].0 == actions[k])
                invariant
                    j <= steps@.len(),
                    k < actions@.len(),
                    exact_eq::<Action>() ==> forall|i: int| 0 <= i < j ==> #[trigger] steps@[i].0 != actions@[k as int],
                decreases steps@.len() - j,
            {
                j = j + 1;
            }
            if j == steps.len() {
                proof {
                    assert(follows(before, init, actions@.take(k as int), next_steps));
                    assert(before.last().0 == prev_state);
                    assert(call_ensures(next_steps, (&before.last().0,), all_steps));
                    assert(exact_eq::<Action>() ==> no_step(all_steps@, actions@[k as int]));
                }
                return None;
            }
            let (action, next_state) = steps.remove(j);
            proof {
                assert(takes(all_steps@, actions@[k as int], j as int));
            }
            output.push((prev_state, Some(action)));
            prev_state = next_state;
            proof {
                let after = output@.push((prev_state, None));
                let acts = actions@.take(k + 1);
                assert(acts.take(k as int) == actions@.take(k as int));
                assert forall|q: int| 0 <= q < acts.len() implies #[trigger] after[q].1 is Some && exists|steps: Vec<(Action, State)>, j: int|
                    call_ensures(next_steps, (&after[q].0,), steps) && #[trigger] takes(steps@, acts[q], j)
                        && steps@[j] == (after[q].1->0, after[q + 1].0) by {
                    if q < k {
                        assert(after[q] == before[q]);
                        assert(after[q + 1] == before[q + 1] || q + 1 == k);
                        if q + 1 == k {
                            assert(after[q + 1].0 == before[q + 1].0);
                        }
                        assert(acts[q] == actions@.take(k as int)[q]);
                    } else {
                        assert(after[q].0 == before[q].0);
                        assert(takes(all_steps@, acts[q], j as int));
                    }
                }
            }
            k = k + 1;
        }
        output.push((prev_state, None));
        proof {
            assert(actions@.take(actions@.len() as int) == actions@);
        }
        Some(Path(output))
    }

    /// Reconstructs the path that visits states with the fingerprints `fingerprints`: it starts
    /// at the first of `init_states` with the first fingerprint, and each step is the first of
    /// those `next_steps` gives whose state has the next fingerprint. `None` where there is no
    /// fingerprint, or no such initial state or step.
    pub fn from_fingerprints<FP, F>(
        init_states: Vec<State>,
        fingerprints: &[u64],
        fingerprint: &FP,
        next_steps: &F,
    ) -> (r: Option<Self>) where
        FP: Fn(&State) -> u64,
        F: Fn(&State) -> Vec<(Action, State)>,

        requires
            forall|s: &State| call_requires(*fingerprint, (s,)),
            forall|s: &State| call_requires(*next_steps, (s,)),
        ensures
            r matches Some(p) ==> retraces(p@, init_states@, fingerprints@, *fingerprint, *next_steps),
            fingerprints@.len() == 0 ==> r is None,
            r is None ==> retrace_fails(init_states@, fingerprints@, *fingerprint, *next_steps),
    {
        if fingerprints.len() == 0 {
            return None;
        }
        let ghost inits = init_states@;
        let mut candidates = init_states;
        let mut found: Option<State> = None;
        let ghost mut done: int = 0;
        while candidates.len() > 0 && found.is_none()
            invariant
                forall|s: &State| call_requires(*fingerprint, (s,)),
                fingerprints@.len() > 0,
                0 <= done <= inits.len(),
                candidates@ == inits.subrange(done, inits.len() as int),
                found is None ==> forall|j: int| 0 <= j < done ==> misses(*fingerprint, #[trigger] inits[j], fingerprints@[0]),
                found matches Some(s) ==> inits.contains(s) && call_ensures(*fingerprint, (&s,), fingerprints@[0]),
            decreases candidates@.len(),
        {
            let s = candidates.remove(0);
            proof {
                assert(s == inits[done]);
                assert(inits.contains(s));
            }
            let f = fingerprint(&s);
            if f == fingerprints[0] {
                found = Some(s);
            } else {
                proof {
                    assert(misses(*fingerprint, inits[done], fingerprints@[0]));
                }
            }
            proof {
                done = done + 1;
                assert(candidates@ =~= inits.subrange(done, inits.len() as int));
            }
        }
        let mut last_state = match found {
            Some(s) => s,
            None => {
                return None;
            },
        };
        let mut output: Vec<(State, Option<Action>)> = Vec::new();
        let mut k: usize = 1;
        while k < fingerprints.len()
            invariant
                1 <= k <= fingerprints@.len(),
                forall|s: &State| call_requires(*fingerprint, (s,)),
                forall|s: &State| call_requires(*next_steps, (s,)),
                output@.len() == k - 1,
                inits == init_states@,
                retraces(output@.push((last_state, None)), inits, fingerprints@.take(k as int), *fingerprint, *next_steps),
            decreases fingerprints@.len() - k,
        {
            let ghost before = output@.push((last_state, None));
            let mut steps = next_steps(&last_state);
            let ghost all_steps = steps@;
            let ghost all_vec = steps;
            let mut j: usize = 0;
            let mut hit = false;
            while j < steps.len() && !hit
                invariant
                    j <= steps@.len(),
                    steps@ == all_steps,
                    k < fingerprints@.len(),
                    forall|s: &State| call_requires(*fingerprint, (s,)),
                    hit ==> j > 0 && call_ensures(*fingerprint, (&steps@[j - 1].1,), fingerprints@[k as int]),
                    !hit ==> forall|i: int| 0 <= i < j ==> misses(*fingerprint, (#[trigger] steps@[i]).1, fingerprints@[k as int]),
                decreases steps@.len() - j,
            {
                let f = fingerprint(&steps[j].1);
                if f == fingerprints[k] {
                    hit = true;
                } else {
                    proof {
                        assert(misses(*fingerprint, steps@[j as int].1, fingerprints@[k as int]));
                    }
                }
                j = j + 1;
            }
            if !hit {
                proof {
                    assert(before.last().0 == last_state);
                    assert(call_ensures(*next_steps, (&before.last().0,), all_vec));
                    assert(forall|i: int| 0 <= i < all_vec@.len() ==> misses(*fingerprint, (#[trigger] all_vec@[i]).1, fingerprints@[k as int]));
                    assert(retraces(before, inits, fingerprints@.take(k as int), *fingerprint, *next_steps));
                }
                return None;
            }
            let (action, next_state) = steps.remove(j - 1);
            proof {
                assert((action, next_state) == all_steps[j - 1]);
            }
            output.push((last_state, Some(action)));
            last_state = next_state;
            proof {
                let after = output@.push((last_state, None));
                let fps = fingerprints@.take(k + 1);
                assert(fps.take(k as int) == fingerprints@.take(k as int));
                assert forall|q: int| 0 <= q < after.len() implies call_ensures(*fingerprint, (&(#[trigger] after[q]).0,), fps[q]) by {
                    if q < k {
                        assert(after[q].0 == before[q].0);
                    }
                }
                assert forall|q: int| 0 <= q < after.len() - 1 implies #[trigger] after[q].1 is Some && exists|steps: Vec<(Action, State)>, j: int|
                    #![trigger call_ensures(*next_steps, (&after[q].0,), steps), steps@[j]]
                    call_ensures(*next_steps, (&after[q].0,), steps) && 0 <= j < steps@.len() && steps@[j]
                        == (after[q].1->0, after[q + 1].0) by {
                    if q < k - 1 {
                        assert(after[q] == before[q]);
                        assert(after[q + 1].0 == before[q + 1].0);
                    } else {
                        assert(after[q].0 == before[q].0);
                        assert(call_ensures(*next_steps, (&after[q].0,), all_vec));
                        assert(all_vec@[j - 1] == (after[q].1->0, after[q + 1].0));
                    }
                }
                assert(after[0].0 == before[0].0);
            }
            k = k + 1;
        }
        output.push((last_state, None));
        proof {
            assert(fingerprints@.take(fingerprints@.len() as int) == fingerprints@);
        }
        Some(Path(output))
    }

    /// The last state of the path that visits states with the fingerprints `fingerprints` (see
    /// [`Path::from_fingerprints`]).
    pub fn final_state<FP, F>(
        init_states: Vec<State>,
        fingerprints: &[u64],
        fingerprint: &FP,
        next_steps: &F,
    ) -> (r: Option<State>) where
        FP: Fn(&State) -> u64,
        F: Fn(&State) -> Vec<(Action, State)>,

        requires
            forall|s: &State| call_requires(*fingerprint, (s,)),
            forall|s: &State| call_requires(*next_steps, (s,)),
        ensures
            r matches Some(s) ==> exists|p: Seq<(State, Option<Action>)>|
                #[trigger] retraces(p, init_states@, fingerprints@, *fingerprint, *next_steps) && p.last().0 == s,
            fingerprints@.len() == 0 ==> r is None,
            r is None ==> retrace_fails(init_states@, fingerprints@, *fingerprint, *next_steps),
    {
        match Self::from_fingerprints(init_states, fingerprints, fingerprint, next_steps) {
            Some(path) => {
                let ghost p = path@;
                let mut v = path.into_vec();
                let (s, _) = v.pop().unwrap();
                Some(s)
            },
            None => None,
        }
    }

    /// The last state.
    pub fn last_state(&self) -> (r: &State)
        ensures
            self@.len() > 0,
            *r == self@.last().0,
    {
        proof {
            use_type_invariant(self);
        }
        &self.0[self.0.len() - 1].0
    }

    /// The states, in order.
    pub fn into_states(self) -> (r: Vec<State>)
        ensures
            self@.len() > 0,
            r@.len() > 0,
            r@ == self@.map_values(|p: (State, Option<Action>)| p.0),
    {
        proof {
            use_type_invariant(&self);
        }
        let ghost all = self@;
        let mut rest = self.0;
        let mut rev: Vec<State> = Vec::new();
        while rest.len() > 0
            invariant
                rev@.len() + rest@.len() == all.len(),
                forall|j: int| 0 <= j < rest@.len() ==> rest@[j] == all[j],
                forall|j: int|
                    0 <= j < rev@.len() ==> #[trigger] rev@[j] == all[all.len() - 1 - j].0,
            decreases rest@.len(),
        {
            let (s, _) = rest.pop().unwrap();
            rev.push(s);
        }
        let mut out: Vec<State> = Vec::new();
        while rev.len() > 0
            invariant
                out@.len() + rev@.len() == all.len(),
                forall|j: int|
                    0 <= j < rev@.len() ==> #[trigger] rev@[j] == all[all.len() - 1 - j].0,
                forall|j: int| 0 <= j < out@.len() ==> #[trigger] out@[j] == all[j].0,
            decreases rev@.len(),
        {
            let s = rev.pop().unwrap();
            out.push(s);
        }
        proof {
            assert(out@ =~= all.map_values(|p: (State, Option<Action>)| p.0));
        }
        out
    }

    /// The actions, in order.
    pub fn into_actions(self) -> (r: Vec<Action>)
        ensures
            r@ == actions_of(self@),
    {
        let ghost all = self@;
        let mut rest = self.0;
        let mut rev: Vec<(State, Option<Action>)> = Vec::new();
        while rest.len() > 0
            invariant
                rev@.len() + rest@.len() == all.len(),
                forall|j: int| 0 <= j < rest@.len() ==> rest@[j] == all[j],
                forall|j: int|
                    0 <= j < rev@.len() ==> #[trigger] rev@[j] == all[all.len() - 1 - j],
            decreases rest@.len(),
        {
            let x = rest.pop().unwrap();
            rev.push(x);
        }
        let mut out: Vec<Action> = Vec::new();
        let mut k: usize = 0;
        let n = rev.len();
        while rev.len() > 0
            invariant
                n == all.len(),
                k + rev@.len() == n,
                forall|j: int|
                    0 <= j < rev@.len() ==> #[trigger] rev@[j] == all[all.len() - 1 - j],
                out@ == actions_of(all.take(k as int)),
            decreases rev@.len(),
        {
            let (_, a) = rev.pop().unwrap();
            proof {
                assert(all.take(k + 1).drop_last() == all.take(k as int));
                assert(all.take(k + 1).last() == all[k as int]);
            }
            match a {
                Some(a) => out.push(a),
                None => {},
            }
            k = k + 1;
        }
        proof {
            assert(all.take(n as int) == all);
        }
        out
    }

    /// Convenience method for `Into<Vec<_>>`.
    pub fn into_vec(self) -> (r: Vec<(State, Option<Action>)>)
        ensures
            r@ == self@,
    {
        self.0
    }

    /// Encodes the path as a sequence of action indices (the 0th index is for the init state)
    /// delimited by forward slash (`/`) characters: the position of the initial state among
    /// `init_states`, then for each step the position of its action among those
    /// `actions_from` gives from its state. `None` where one is not found.
    pub fn encode<F>(&self, init_states: &[State], actions_from: F) -> (r: Option<String>) where
        State: PartialEq,
        Action: PartialEq,
        F: Fn(&State) -> Vec<Action>,

        requires
            forall|s: &State| call_requires(actions_from, (s,)),
        ensures
            r matches Some(t) ==> exists|idx: Seq<nat>|
                #[trigger] encoding(idx) == t@ && idx.len() > 0 && idx[0] < init_states@.len()
                    && (exact_eq::<State>() ==> first_index(init_states@, self@[0].0, idx[0] as int))
                    && action_positions(self@.drop_last(), actions_from, idx.drop_first()),
            r is None && exact_eq::<State>() && exact_eq::<Action>() ==> !init_states@.contains(self@[0].0)
                || exists|k: int, acts: Vec<Action>|
                #[trigger] call_ensures(actions_from, (&self@[k].0,), acts) && 0 <= k < self@.len() - 1
                    && self@[k].1 is Some && !acts@.contains(self@[k].1->0),
    {
        proof {
            use_type_invariant(self);
        }
        let ghost p = self.0@;
        let init_state = &self.0[0].0;
        let mut init_index: Option<usize> = None;
        let mut i: usize = 0;
        while i < init_states.len() && init_index.is_none()
            invariant
                i <= init_states@.len(),
                *init_state == p[0].0,
                match init_index {
                    Some(x) => x < i && x < init_states@.len() && (exact_eq::<State>() ==> first_index(init_states@, p[0].0, x as int)),
                    None => exact_eq::<State>() ==> forall|j: int| 0 <= j < i ==> #[trigger] init_states@[j] != p[0].0,
                },
            decreases init_states@.len() - i,
        {
            if init_states[i] == *init_state {
                init_index = Some(i);
            }
            i = i + 1;
        }
        let x0 = match init_index {
            Some(x) => x,
            None => {
                return None;
            },
        };
        let mut result = usize_text(x0);
        let ghost mut idx: Seq<nat> = seq![x0 as nat];
        proof {
            assert(encoding(idx) == result@);
            assert(p.take(0) =~= Seq::<(State, Option<Action>)>::empty());
            assert(idx.drop_first() =~= Seq::<nat>::empty());
        }
        let mut k: usize = 0;
        while k < self.0.len() - 1
            invariant
                p == self.0@,
                p.len() > 0,
                k <= p.len() - 1,
                forall|s: &State| call_requires(actions_from, (s,)),
                idx.len() > 0,
                idx[0] == x0,
                encoding(idx) == result@,
                action_positions(p.take(k as int), actions_from, idx.drop_first()),
            decreases p.len() - k,
        {
            let (state, action) = &self.0[k];
            proof {
                assert(p.take(k + 1).drop_last() == p.take(k as int));
                assert(p.take(k + 1).last() == p[k as int]);
            }
            match action {
                Some(action) => {
                    let actions = actions_from(state);
                    let mut found: Option<usize> = None;
                    let mut j: usize = 0;
                    while j < actions.len() && found.is_none()
                        invariant
                            j <= actions@.len(),
                            match found {
                                Some(x) => x < actions@.len() && (exact_eq::<Action>() ==> first_index(actions@, *action, x as int)),
                                None => exact_eq::<Action>() ==> forall|q: int| 0 <= q < j ==> #[trigger] actions@[q] != *action,
                            },
                        decreases actions@.len() - j,
                    {
                        if actions[j] == *action {
                            found = Some(j);
                        }
                        j = j + 1;
                    }
                    match found {
                        Some(x) => {
                            let ghost before = result@;
                            result.append("/");
                            result.append(usize_text(x).as_str());
                            proof {
                                reveal_strlit("/");
                                let idx0 = idx;
                                idx = idx.push(x as nat);
                                assert(idx.drop_last() == idx0);
                                assert(idx.drop_first().drop_last() == idx0.drop_first());
                                assert(result@ =~= encoding(idx));
                                assert(call_ensures(actions_from, (&p.take(k + 1).last().0,), actions));
                            }
                        },
                        None => {
                            proof {
                                if exact_eq::<State>() && exact_eq::<Action>() {
                                    assert(!actions@.contains(*action));
                                    assert(call_ensures(actions_from, (&p[k as int].0,), actions));
                                }
                            }
                            return None;
                        },
                    }
                },
                None => {},
            }
            k = k + 1;
        }
        proof {
            assert(p.take(p.len() - 1) == p.drop_last());
        }
        Some(result)
    }
}

/// The decimal text of an index.
fn usize_text(x: usize) -> (r: String)
    ensures
        r@ == decimal(x as nat),
{
    u64_decimal(x as u64)
}

impl<State: Clone, Action: Clone> Clone for Path<State, Action> {
    /// A path of clones of the states and actions.
    fn clone(&self) -> (r: Self)
        ensures
            r@.len() == self@.len(),
            forall|i: int|
                0 <= i < self@.len() ==> cloned(self@[i].0, #[trigger] r@[i].0) && (
                self@[i].1 is None <==> r@[i].1 is None),
            forall|i: int|
                0 <= i < self@.len() && self@[i].1 is Some ==> cloned(
                    self@[i].1->0,
                    #[trigger] r@[i].1->0,
                ),
            exact_clone::<State>() && exact_clone::<Action>() ==> r@ == self@,
    {
        proof {
            use_type_invariant(self);
        }
        let mut out: Vec<(State, Option<Action>)> = Vec::new();
        let mut i: usize = 0;
        while i < self.0.len()
            invariant
                self@.len() > 0,
                i <= self@.len(),
                out@.len() == i,
                forall|k: int|
                    0 <= k < i ==> cloned(self@[k].0, #[trigger] out@[k].0) && (self@[k].1 is None
                        <==> out@[k].1 is None),
                forall|k: int|
                    0 <= k < i && self@[k].1 is Some ==> cloned(
                        self@[k].1->0,
                        #[trigger] out@[k].1->0,
                    ),
                exact_clone::<State>() && exact_clone::<Action>() ==> forall|k: int|
                    0 <= k < i ==> #[trigger] out@[k] == self@[k],
            decreases self@.len() - i,
        {
            let s = self.0[i].0.clone();
            proof {
                assert(vstd::pervasive::strictly_cloned(self@[i as int].0, s));
            }
            let a = match &self.0[i].1 {
                Some(x) => {
                    let y = x.clone();
                    proof {
                        assert(vstd::pervasive::strictly_cloned(*x, y));
                    }
                    Some(y)
                },
                None => None,
            };
            let ghost before = out@;
            out.push((s, a));
            proof {
                assert(forall|k: int| 0 <= k < i ==> out@[k] == before[k]);
            }
            i = i + 1;
        }
        proof {
            if exact_clone::<State>() && exact_clone::<Action>() {
                assert(out@ =~= self@);
            }
        }
        Path(out)
    }
}

impl<State, Action> FromSpecImpl<Path<State, Action>> for Vec<(State, Option<Action>)> {
    open spec fn obeys_from_spec() -> bool {
        true
    }

    open spec fn from_spec(p: Path<State, Action>) -> Self {
        p.into_vec_spec()
    }
}

impl<State, Action> From<Path<State, Action>> for Vec<(State, Option<Action>)> {
    /// The states in order, each with the action taken from it.
    fn from(source: Path<State, Action>) -> (r: Self) {
        source.0
    }
}

impl<State, Action> Path<State, Action> {
    /// The pairs of states and actions that the path holds.
    pub closed spec fn into_vec_spec(self) -> Vec<(State, Option<Action>)> {
        self.0
    }
}

} // verus!
