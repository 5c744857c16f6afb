//! What a step of an actor system does, and the marks of a sequence diagram of a path: the data
//! that a viewer of paths renders.

use crate::actor::model::{index_of, replaced, ActorModel, ActorModelAction};
use crate::actor::model_state::ActorModelState;
use crate::actor::{current_state, Actor, Command, Envelope, Id, Out};
use crate::checker::Path;
use crate::semantics::{clone_exact, exact_clone, exact_eq};
use std::borrow::Cow;
use vstd::prelude::*;

verus! {

/// The actor that takes `action`, if any (a dropped message is taken by none).
pub open spec fn actor_of<M, T, R>(action: ActorModelAction<M, T, R>) -> Option<Id> {
    match action {
        ActorModelAction::Deliver { dst, .. } => Some(dst),
        ActorModelAction::Drop(_) => None,
        ActorModelAction::Timeout(id, _) => Some(id),
        ActorModelAction::Crash(id) => Some(id),
        ActorModelAction::Recover(id) => Some(id),
        ActorModelAction::SelectRandom { actor, .. } => Some(actor),
    }
}

/// What a step does: a message dropped, or an actor's state before the step, its new state if it
/// replaced it, and the commands it output.
pub enum StepView<'a, A: Actor> {
    /// A message is dropped.
    Drop(Envelope<A::Msg>),
    /// An actor takes the step.
    Actor { last_state: &'a A::State, next_state: Option<A::State>, out: Out<A> },
}

/// A mark of the sequence diagram of a path, at the time of a step (its position plus one).
pub enum DiagramMark<Msg, Timer, Random> {
    /// The delivery of `msg` to `dst` at `time`, sent by `src` at `sent`: the last time before at
    /// which a step of `src` sent that message to `dst`, or 0 if none did.
    Delivery { src: Id, sent: usize, dst: Id, time: usize, msg: Msg },
    /// Another event of `actor` at `time`: a timeout, a crash, a random choice or a recovery.
    Event { actor: Id, time: usize, action: ActorModelAction<Msg, Timer, Random> },
}

/// The step at `time` (one past its position) in `steps` is one at which `src` may send: a
/// delivery to it, one of its timeouts or one of its random choices.
pub open spec fn sends_at<S, M, T, R>(steps: Seq<(S, Option<ActorModelAction<M, T, R>>)>, src: Id, time: int) -> bool {
    &&& 1 <= time <= steps.len()
    &&& steps[time - 1].1 matches Some(a) && actor_of(a) == Some(src) && (a is Deliver || a is Timeout
        || a is SelectRandom)
}

/// The mark drawn for the step `step` at `time`, given the mark `mark` made for it: none for a
/// dropped message or no action; for a delivery, an arrow from the time the message was sent;
/// for another action, an event at the actor it designates.
pub open spec fn marks_step<S, M: Clone, T: Clone, R: Clone>(
    steps: Seq<(S, Option<ActorModelAction<M, T, R>>)>,
    time: int,
    mark: Option<DiagramMark<M, T, R>>,
) -> bool {
    match steps[time - 1].1 {
        None => mark is None,
        Some(ActorModelAction::Drop(_)) => mark is None,
        Some(ActorModelAction::Deliver { src, dst, msg }) => mark matches Some(
            DiagramMark::Delivery { src: s, sent, dst: d, time: t, msg: m },
        ) && s == src && d == dst && t == time && sent < time && (sent > 0 ==> sends_at(steps, src, sent as int))
            && (exact_clone::<M>() ==> m == msg),
        Some(a) => mark matches Some(DiagramMark::Event { actor, time: t, action }) && Some(actor)
            == actor_of(a) && t == time && action == a,
    }
}

impl<A: Actor, C, H: Clone> ActorModel<A, C, H> {
    /// What taking `action` from `last_state` does, for display: a dropped message; or the
    /// state of the actor the action designates, the new state its handler gives (none for a
    /// crash; the state it restarts with for a recovery) and its commands. `None` where the
    /// actor does not exist.
    pub fn step_view<'a>(
        &self,
        last_state: &'a ActorModelState<A, H>,
        action: ActorModelAction<A::Msg, A::Timer, A::Random>,
    ) -> (r: Option<StepView<'a, A>>)
        requires
            self.sized(last_state),
        ensures
            action matches ActorModelAction::Drop(env) ==> r == Some(StepView::<A>::Drop(env)),
            !(action is Drop) ==> (r is None <==> index_of(actor_of(action)->0)
                >= last_state.actor_states@.len()),
            !(action is Drop) && r is Some ==> (r->0 matches StepView::Actor { last_state: ls, .. }
                && *ls == *last_state.actor_states@[index_of(actor_of(action)->0)]),
            action is Crash && r is Some ==> (r->0 matches StepView::Actor { next_state, out, .. }
                && next_state is None && out@.len() == 0),
            action is Recover && r is Some ==> (r->0 matches StepView::Actor { next_state, .. }
                && next_state is Some),
            action is Deliver && r is Some ==> exists|st: &mut Cow<A::State>, o: &mut Out<A>|
                #![trigger call_ensures(A::on_msg, (&self.actors@[index_of(action->Deliver_dst)], action->Deliver_dst, st, action->Deliver_src, action->Deliver_msg, o), ())]
                {
                    &&& mut_ref_current(st) is Borrowed
                    &&& current_state(mut_ref_current(st)) == *last_state.actor_states@[index_of(action->Deliver_dst)]
                    &&& mut_ref_current(o).0@ == Seq::<Command<A::Msg, A::Timer, A::Random, A::Storage>>::empty()
                    &&& call_ensures(A::on_msg, (&self.actors@[index_of(action->Deliver_dst)], action->Deliver_dst, st, action->Deliver_src, action->Deliver_msg, o), ())
                    &&& r->0 matches StepView::Actor { next_state, out, .. }
                    &&& next_state == replaced(mut_ref_future(st))
                    &&& out == mut_ref_future(o)
                },
            action is Timeout && r is Some ==> exists|st: &mut Cow<A::State>, o: &mut Out<A>|
                #![trigger call_ensures(A::on_timeout, (&self.actors@[index_of(action->Timeout_0)], action->Timeout_0, st, &action->Timeout_1, o), ())]
                {
                    &&& mut_ref_current(st) is Borrowed
                    &&& current_state(mut_ref_current(st)) == *last_state.actor_states@[index_of(action->Timeout_0)]
                    &&& mut_ref_current(o).0@ == Seq::<Command<A::Msg, A::Timer, A::Random, A::Storage>>::empty()
                    &&& call_ensures(A::on_timeout, (&self.actors@[index_of(action->Timeout_0)], action->Timeout_0, st, &action->Timeout_1, o), ())
                    &&& r->0 matches StepView::Actor { next_state, out, .. }
                    &&& next_state == replaced(mut_ref_future(st))
                    &&& out == mut_ref_future(o)
                },
            action is SelectRandom && r is Some ==> exists|st: &mut Cow<A::State>, o: &mut Out<A>|
                #![trigger call_ensures(A::on_random, (&self.actors@[index_of(action->actor)], action->actor, st, &action->random, o), ())]
                {
                    &&& mut_ref_current(st) is Borrowed
                    &&& current_state(mut_ref_current(st)) == *last_state.actor_states@[index_of(action->actor)]
                    &&& mut_ref_current(o).0@ == Seq::<Command<A::Msg, A::Timer, A::Random, A::Storage>>::empty()
                    &&& call_ensures(A::on_random, (&self.actors@[index_of(action->actor)], action->actor, st, &action->random, o), ())
                    &&& r->0 matches StepView::Actor { next_state, out, .. }
                    &&& next_state == replaced(mut_ref_future(st))
                    &&& out == mut_ref_future(o)
                },
            action is Recover && r is Some ==> exists|o: &mut Out<A>, st: A::State|
                #![trigger call_ensures(A::on_start, (&self.actors@[index_of(action->Recover_0)], action->Recover_0, &last_state.actor_storages@[index_of(action->Recover_0)], o), st)]
                {
                    &&& mut_ref_current(o).0@ == Seq::<Command<A::Msg, A::Timer, A::Random, A::Storage>>::empty()
                    &&& call_ensures(A::on_start, (&self.actors@[index_of(action->Recover_0)], action->Recover_0, &last_state.actor_storages@[index_of(action->Recover_0)], o), st)
                    &&& r->0 matches StepView::Actor { next_state, out, .. }
                    &&& next_state == Some(st)
                    &&& out == mut_ref_future(o)
                },
    {
        match action {
            ActorModelAction::Drop(env) => Some(StepView::Drop(env)),
            ActorModelAction::Deliver { src, dst: id, msg } => {
                let index = usize::from(id);
                if index >= last_state.actor_states.len() {
                    return None;
                }
                let last_actor_state: &A::State = &*last_state.actor_states[index];
                let mut state = Cow::Borrowed(last_actor_state);
                let mut out = Out::new();
                self.actors[index].on_msg(id, &mut state, src, msg, &mut out);
                let next_state = match state {
                    Cow::Borrowed(_) => None,
                    Cow::Owned(s) => Some(s),
                };
                Some(StepView::Actor { last_state: last_actor_state, next_state, out })
            },
            ActorModelAction::Timeout(id, timer) => {
                let index = usize::from(id);
                if index >= last_state.actor_states.len() {
                    return None;
                }
                let last_actor_state: &A::State = &*last_state.actor_states[index];
                let mut state = Cow::Borrowed(last_actor_state);
                let mut out = Out::new();
                self.actors[index].on_timeout(id, &mut state, &timer, &mut out);
                let next_state = match state {
                    Cow::Borrowed(_) => None,
                    Cow::Owned(s) => Some(s),
                };
                Some(StepView::Actor { last_state: last_actor_state, next_state, out })
            },
            ActorModelAction::Crash(id) => {
                let index = usize::from(id);
                if index >= last_state.actor_states.len() {
                    return None;
                }
                let last_actor_state: &A::State = &*last_state.actor_states[index];
                Some(StepView::Actor { last_state: last_actor_state, next_state: None, out: Out::new() })
            },
            ActorModelAction::Recover(id) => {
                let index = usize::from(id);
                if index >= last_state.actor_states.len() {
                    return None;
                }
                let last_actor_state: &A::State = &*last_state.actor_states[index];
                let mut out = Out::new();
                let state = self.actors[index].on_start(id, &last_state.actor_storages[index], &mut out);
                Some(StepView::Actor { last_state: last_actor_state, next_state: Some(state), out })
            },
            ActorModelAction::SelectRandom { actor, key: _, random } => {
                let index = usize::from(actor);
                if index >= last_state.actor_states.len() {
                    return None;
                }
                let last_actor_state: &A::State = &*last_state.actor_states[index];
                let mut state = Cow::Borrowed(last_actor_state);
                let mut out = Out::new();
                self.actors[index].on_random(actor, &mut state, &random, &mut out);
                let next_state = match state {
                    Cow::Borrowed(_) => None,
                    Cow::Owned(s) => Some(s),
                };
                Some(StepView::Actor { last_state: last_actor_state, next_state, out })
            },
        }
    }
}


/// The entry `e` of a log of sends records that `src` sent `msg` to `dst`.
pub open spec fn logs_send<M>(e: (Id, Id, M, usize), src: Id, dst: Id, msg: M) -> bool {
    e.0 == src && e.1 == dst && e.2 == msg
}

/// The time recorded in `log` at which `src` sent `msg` to `dst` (in its first entry for them),
/// or 0 if none is.
fn last_sent<M: PartialEq>(log: &Vec<(Id, Id, M, usize)>, src: Id, dst: Id, msg: &M) -> (r: usize)
    ensures
        r == 0 || exists|k: int| 0 <= k < log@.len() && (#[trigger] log@[k]).0 == src && log@[k].3 == r,
        exact_eq::<M>() ==> (r == 0 && forall|k: int| 0 <= k < log@.len() ==> !logs_send(#[trigger] log@[k], src, dst, *msg))
            || exists|k: int| 0 <= k < log@.len() && logs_send(#[trigger] log@[k], src, dst, *msg) && r == log@[k].3
                && forall|j: int| 0 <= j < k ==> !logs_send(#[trigger] log@[j], src, dst, *msg),
{
    let mut i: usize = 0;
    while i < log.len()
        invariant
            i <= log@.len(),
            exact_eq::<M>() ==> forall|j: int| 0 <= j < i ==> !logs_send(#[trigger] log@[j], src, dst, *msg),
        decreases log@.len() - i,
    {
        if log[i].0 == src && log[i].1 == dst && log[i].2 == *msg {
            return log[i].3;
        }
        i = i + 1;
    }
    0
}

/// Records in `log` that `id` sent, at `time`, each message that `cmds` send (a later send of
/// the same message to the same destination replaces the time of an earlier one).
fn record_sends<M: PartialEq + Clone, T, R, S>(
    log: &mut Vec<(Id, Id, M, usize)>,
    id: Id,
    cmds: &Vec<Command<M, T, R, S>>,
    time: usize,
)
    ensures
        forall|k: int|
            0 <= k < final(log)@.len() ==> ((#[trigger] final(log)@[k]).0 == id && final(log)@[k].3 == time)
                || exists|j: int| 0 <= j < old(log)@.len() && (#[trigger] old(log)@[j]).0 == final(log)@[k].0
                && old(log)@[j].3 == final(log)@[k].3,
        final(log)@.len() >= old(log)@.len(),
        forall|k: int|
            0 <= k < old(log)@.len() ==> #[trigger] final(log)@[k] == old(log)@[k] || (final(log)@[k].0 == id
                && final(log)@[k].1 == old(log)@[k].1 && final(log)@[k].3 == time),
        forall|i: int|
            0 <= i < cmds@.len() && (#[trigger] cmds@[i]) is Send ==> exists|k: int|
                0 <= k < final(log)@.len() && (#[trigger] final(log)@[k]).0 == id && final(log)@[k].1 == cmds@[i]->Send_0
                    && final(log)@[k].3 == time,
{
    let ghost start = log@;
    let mut i: usize = 0;
    while i < cmds.len()
        invariant
            i <= cmds@.len(),
            forall|k: int|
                0 <= k < log@.len() ==> ((#[trigger] log@[k]).0 == id && log@[k].3 == time) || exists|j: int|
                    0 <= j < start.len() && (#[trigger] start[j]).0 == log@[k].0 && start[j].3 == log@[k].3,
            log@.len() >= start.len(),
            forall|k: int|
                0 <= k < start.len() ==> #[trigger] log@[k] == start[k] || (log@[k].0 == id
                    && log@[k].1 == start[k].1 && log@[k].3 == time),
            forall|q: int|
                0 <= q < i && (#[trigger] cmds@[q]) is Send ==> exists|k: int|
                    0 <= k < log@.len() && (#[trigger] log@[k]).0 == id && log@[k].1 == cmds@[q]->Send_0
                        && log@[k].3 == time,
        decreases cmds@.len() - i,
    {
        match &cmds[i] {
            Command::Send(dst, msg) => {
                let mut k: usize = 0;
                while k < log.len() && !(log[k].0 == id && log[k].1 == *dst && log[k].2 == *msg)
                    invariant
                        k <= log@.len(),
                    decreases log@.len() - k,
                {
                    k = k + 1;
                }
                let ghost before = log@;
                if k < log.len() {
                    let entry = (id, *dst, msg.clone(), time);
                    log.set(k, entry);
                    proof {
                        assert(log@[k as int].0 == id && log@[k as int].1 == *dst && log@[k as int].3 == time);
                        assert forall|q: int|
                            0 <= q <= i && (#[trigger] cmds@[q]) is Send implies exists|kk: int|
                                0 <= kk < log@.len() && (#[trigger] log@[kk]).0 == id && log@[kk].1 == cmds@[q]->Send_0
                                    && log@[kk].3 == time by {
                            if q < i {
                                let kk = choose|kk: int| 0 <= kk < before.len() && (#[trigger] before[kk]).0 == id
                                    && before[kk].1 == cmds@[q]->Send_0 && before[kk].3 == time;
                                if kk != k {
                                    assert(log@[kk] == before[kk]);
                                } else {
                                    assert(log@[kk].1 == before[kk].1);
                                }
                            } else {
                                assert(log@[k as int].1 == cmds@[q]->Send_0);
                            }
                        }
                        assert forall|q: int|
                            0 <= q < start.len() implies #[trigger] log@[q] == start[q] || (log@[q].0 == id
                                && log@[q].1 == start[q].1 && log@[q].3 == time) by {
                            if q == k {
                                assert(before[q] == start[q] || before[q].1 == start[q].1);
                            }
                        }
                        assert forall|q: int|
                            0 <= q < log@.len() implies ((#[trigger] log@[q]).0 == id && log@[q].3 == time) || exists|j: int|
                                0 <= j < start.len() && (#[trigger] start[j]).0 == log@[q].0 && start[j].3 == log@[q].3 by {
                            if q != k {
                                assert(log@[q] == before[q]);
                            }
                        }
                    }
                } else {
                    log.push((id, *dst, msg.clone(), time));
                    proof {
                        assert forall|q: int|
                            0 <= q <= i && (#[trigger] cmds@[q]) is Send implies exists|kk: int|
                                0 <= kk < log@.len() && (#[trigger] log@[kk]).0 == id && log@[kk].1 == cmds@[q]->Send_0
                                    && log@[kk].3 == time by {
                            if q < i {
                                let kk = choose|kk: int| 0 <= kk < before.len() && (#[trigger] before[kk]).0 == id
                                    && before[kk].1 == cmds@[q]->Send_0 && before[kk].3 == time;
                                assert(log@[kk] == before[kk]);
                            } else {
                                assert(log@[before.len() as int].1 == cmds@[q]->Send_0);
                            }
                        }
                        assert forall|q: int|
                            0 <= q < start.len() implies #[trigger] log@[q] == start[q] || (log@[q].0 == id
                                && log@[q].1 == start[q].1 && log@[q].3 == time) by {
                            assert(log@[q] == before[q]);
                        }
                        assert forall|q: int|
                            0 <= q < log@.len() implies ((#[trigger] log@[q]).0 == id && log@[q].3 == time) || exists|j: int|
                                0 <= j < start.len() && (#[trigger] start[j]).0 == log@[q].0 && start[j].3 == log@[q].3 by {
                            if q < before.len() {
                                assert(log@[q] == before[q]);
                            }
                        }
                    }
                }
            },
            _ => {},
        }
        i = i + 1;
    }
}

impl<A: Actor, C, H: Clone> ActorModel<A, C, H> {
    /// The marks of a sequence diagram of `path`, one per step: none for a step that drops a
    /// message or takes no action; for a delivery, an arrow from the last time before at which
    /// the sender sent that message to the receiver (found by replaying the sender's handlers),
    /// or from time 0; for another action, an event at the actor it designates.
    pub fn diagram_marks(
        &self,
        path: Path<ActorModelState<A, H>, ActorModelAction<A::Msg, A::Timer, A::Random>>,
    ) -> (r: Vec<Option<DiagramMark<A::Msg, A::Timer, A::Random>>>)
        ensures
            r@.len() == path@.len(),
            forall|j: int| 0 <= j < r@.len() ==> marks_step(path@, j + 1, #[trigger] r@[j]),
    {
        let ghost steps = path@;
        let mut rest = path.into_vec();
        let mut rev: Vec<(ActorModelState<A, H>, Option<ActorModelAction<A::Msg, A::Timer, A::Random>>)> = Vec::new();
        while rest.len() > 0
            invariant
                rev@.len() + rest@.len() == steps.len(),
                forall|k: int| 0 <= k < rest@.len() ==> rest@[k] == steps[k],
                forall|k: int| 0 <= k < rev@.len() ==> #[trigger] rev@[k] == steps[steps.len() - 1 - k],
            decreases rest@.len(),
        {
            let step = rest.pop().unwrap();
            rev.push(step);
        }
        let total: usize = rev.len();
        let mut log: Vec<(Id, Id, A::Msg, usize)> = Vec::new();
        let mut marks: Vec<Option<DiagramMark<A::Msg, A::Timer, A::Random>>> = Vec::new();
        let mut time: usize = 0;
        while rev.len() > 0
            invariant
                rev@.len() + time == steps.len(),
                steps.len() == total,
                marks@.len() == time,
                forall|k: int| 0 <= k < log@.len() ==> (#[trigger] log@[k]).3 <= time,
                forall|k: int| 0 <= k < rev@.len() ==> #[trigger] rev@[k] == steps[steps.len() - 1 - k],
                forall|k: int| 0 <= k < log@.len() ==> sends_at(steps, (#[trigger] log@[k]).0, log@[k].3 as int),
                forall|j: int| 0 <= j < marks@.len() ==> marks_step(steps, j + 1, #[trigger] marks@[j]),
            decreases rev@.len(),
        {
            let (state, action) = rev.pop().unwrap();
            proof {
                assert(state == steps[time as int].0 && action == steps[time as int].1);
            }
            time = time + 1;
            let ghost log0 = log@;
            let mark = match action {
                None => None,
                Some(ActorModelAction::Drop(_)) => None,
                Some(ActorModelAction::Deliver { src, dst, msg }) => {
                    let sent = last_sent(&log, src, dst, &msg);
                    let index = usize::from(dst);
                    if index < state.actor_states.len() && index < self.actors.len() {
                        let mut actor_state = Cow::Borrowed(&*state.actor_states[index]);
                        let mut out = Out::new();
                        self.actors[index].on_msg(dst, &mut actor_state, src, clone_exact(&msg), &mut out);
                        record_sends(&mut log, dst, &out.0, time);
                    }
                    Some(DiagramMark::Delivery { src, sent, dst, time, msg })
                },
                Some(ActorModelAction::Timeout(id, timer)) => {
                    let index = usize::from(id);
                    if index < state.actor_states.len() && index < self.actors.len() {
                        let mut actor_state = Cow::Borrowed(&*state.actor_states[index]);
                        let mut out = Out::new();
                        self.actors[index].on_timeout(id, &mut actor_state, &timer, &mut out);
                        record_sends(&mut log, id, &out.0, time);
                    }
                    Some(DiagramMark::Event { actor: id, time, action: ActorModelAction::Timeout(id, timer) })
                },
                Some(ActorModelAction::Crash(id)) => {
                    Some(DiagramMark::Event { actor: id, time, action: ActorModelAction::Crash(id) })
                },
                Some(ActorModelAction::Recover(id)) => {
                    Some(DiagramMark::Event { actor: id, time, action: ActorModelAction::Recover(id) })
                },
                Some(ActorModelAction::SelectRandom { actor, key, random }) => {
                    let index = usize::from(actor);
                    if index < state.actor_states.len() && index < self.actors.len() {
                        let mut actor_state = Cow::Borrowed(&*state.actor_states[index]);
                        let mut out = Out::new();
                        self.actors[index].on_random(actor, &mut actor_state, &random, &mut out);
                        record_sends(&mut log, actor, &out.0, time);
                    }
                    Some(DiagramMark::Event { actor, time, action: ActorModelAction::SelectRandom { actor, key, random } })
                },
            };
            proof {
                assert forall|k: int| 0 <= k < log@.len() implies sends_at(steps, (#[trigger] log@[k]).0, log@[k].3 as int) by {
                    if exists|j: int| 0 <= j < log0.len() && (#[trigger] log0[j]).0 == log@[k].0 && log0[j].3 == log@[k].3 {
                        let j = choose|j: int| 0 <= j < log0.len() && (#[trigger] log0[j]).0 == log@[k].0 && log0[j].3 == log@[k].3;
                        assert(sends_at(steps, log0[j].0, log0[j].3 as int));
                    } else if log@ == log0 {
                        assert(log0[k].0 == log@[k].0);
                    }
                }
                assert forall|k: int| 0 <= k < log@.len() implies (#[trigger] log@[k]).3 <= time by {
                    if exists|j: int| 0 <= j < log0.len() && (#[trigger] log0[j]).0 == log@[k].0 && log0[j].3 == log@[k].3 {
                        let j = choose|j: int| 0 <= j < log0.len() && (#[trigger] log0[j]).0 == log@[k].0 && log0[j].3 == log@[k].3;
                        assert(log0[j].3 <= time - 1);
                    } else if log@ == log0 {
                        assert(log0[k].3 == log@[k].3);
                    }
                }
                if action is Some && action->0 is Deliver && mark->0->Delivery_sent > 0 {
                    let src = action->0->Deliver_src;
                    let k = choose|k: int| 0 <= k < log0.len() && (#[trigger] log0[k]).0 == src && log0[k].3 == mark->0->Delivery_sent;
                    assert(sends_at(steps, log0[k].0, log0[k].3 as int));
                    assert(log0[k].3 <= time - 1);
                }
                assert(marks_step(steps, time as int, mark));
            }
            marks.push(mark);
        }
        marks
    }
}

} // verus!
