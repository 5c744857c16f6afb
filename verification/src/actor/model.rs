//! The actions of a model-checked system of actors, and helpers for configuring one.

use crate::actor::model_state::{clones_exactly, same_snapshot, ActorModelState, RandomChoices};
use crate::actor::network::{deliverable, other_than, owned_all, removed_first, Network, NetworkKind};
use crate::actor::timers::Timers;
use crate::actor::{current_state, id_of, is_no_op, is_no_op_with_timer, Actor, Command, Envelope, Id, Out};
use std::borrow::Cow;
use crate::semantics::{clone_exact, exact_clone, exact_eq};
use core::hash::Hash;
use std::ops::Range;
use std::sync::Arc;
use std::time::Duration;
use vstd::prelude::*;
use vstd::std_specs::convert::FromSpec;

verus! {

/// Indicates possible steps that an actor system can take as it evolves.
#[derive(Debug, Eq, Hash, Ord, PartialEq, PartialOrd)]
pub enum ActorModelAction<Msg, Timer, Random> {
    /// A message can be delivered to an actor.
    Deliver { src: Id, dst: Id, msg: Msg },
    /// A message can be dropped if the network is lossy.
    Drop(Envelope<Msg>),
    /// An actor can be notified after a timeout.
    Timeout(Id, Timer),
    /// An actor can crash, i.e. losing all its volatile state.
    Crash(Id),
    /// An actor can recover, i.e. restoring all its non-volatile state in `Storage`.
    Recover(Id),
    /// A random selection by an actor.
    SelectRandom { actor: Id, key: String, random: Random },
}

impl<Msg: Clone, Timer: Clone, Random: Clone> Clone for ActorModelAction<Msg, Timer, Random> {
    /// Clones the action and the message, timer or random choice it carries.
    fn clone(&self) -> (r: Self)
        ensures
            exact_clone::<Msg>() && exact_clone::<Timer>() && exact_clone::<Random>() ==> r == *self,
    {
        match self {
            ActorModelAction::Deliver { src, dst, msg } => ActorModelAction::Deliver {
                src: *src,
                dst: *dst,
                msg: clone_exact(msg),
            },
            ActorModelAction::Drop(env) => ActorModelAction::Drop(env.clone()),
            ActorModelAction::Timeout(id, timer) => ActorModelAction::Timeout(*id, clone_exact(timer)),
            ActorModelAction::Crash(id) => ActorModelAction::Crash(*id),
            ActorModelAction::Recover(id) => ActorModelAction::Recover(*id),
            ActorModelAction::SelectRandom { actor, key, random } => ActorModelAction::SelectRandom {
                actor: *actor,
                key: key.clone(),
                random: clone_exact(random),
            },
        }
    }
}

/// Indicates whether the network loses messages. Note that as long as invariants do not check
/// the network state, losing a message is indistinguishable from an unlimited delay, so in
/// many cases you can improve model checking performance by not modeling message loss.
#[derive(Copy, Clone, Debug, PartialEq, Eq, Structural)]
pub enum LossyNetwork {
    Yes,
    No,
}

/// The duration of `n` microseconds, as std's `Duration::from_micros` builds it.
pub uninterp spec fn micros(n: u64) -> Duration;

/// std's `Duration::from_micros`: the duration of `n` microseconds, which depends on `n` alone.
#[verifier::external_body]
fn duration_from_micros(n: u64) -> (r: Duration)
    ensures
        r == micros(n),
{
    Duration::from_micros(n)
}

/// The specific timeout value is not relevant for model checking, so this helper can be used to
/// generate an arbitrary timeout range: the empty range at zero. The specific value is subject
/// to change, so this helper must only be used for model checking.
pub fn model_timeout() -> (r: Range<Duration>)
    ensures
        r.start == micros(0),
        r.end == micros(0),
{
    duration_from_micros(0)..duration_from_micros(0)
}

/// The index of the `k`-th peer of the actor with index `self_ix`: the indices in order,
/// skipping `self_ix`.
pub open spec fn peer_index(self_ix: usize, k: int) -> int {
    if k < self_ix {
        k
    } else {
        k + 1
    }
}

/// A helper to generate a list of peer [`Id`]s given an actor count and the index of a particular
/// actor: the identifiers of `0..count` other than `self_ix`, in order.
pub fn model_peers(self_ix: usize, count: usize) -> (r: Vec<Id>)
    ensures
        r@.len() == if self_ix < count { count - 1 } else { count as int },
        forall|k: int| 0 <= k < r@.len() ==> #[trigger] r@[k] == id_of(peer_index(self_ix, k) as usize),
{
    let mut out: Vec<Id> = Vec::new();
    let mut j: usize = 0;
    while j < count
        invariant
            j <= count,
            out@.len() == if self_ix < j { j - 1 } else { j as int },
            forall|k: int| 0 <= k < out@.len() ==> #[trigger] out@[k] == id_of(peer_index(self_ix, k) as usize),
        decreases count - j,
    {
        if j != self_ix {
            out.push(Id::from(j));
        }
        j = j + 1;
    }
    out
}


/// The index of the actor that an identifier designates.
pub open spec fn index_of(id: Id) -> int {
    <usize as FromSpec<Id>>::from_spec(id) as int
}

/// The envelopes in flight on a network of kind `kind` holding `s`, after actor `id` sends the
/// messages of `cmds` in order.
pub open spec fn sent_after<M, T, R, S>(
    kind: NetworkKind,
    s: Seq<Envelope<M>>,
    id: Id,
    cmds: Seq<Command<M, T, R, S>>,
) -> Seq<Envelope<M>>
    decreases cmds.len(),
{
    if cmds.len() == 0 {
        s
    } else {
        let prev = sent_after(kind, s, id, cmds.drop_last());
        match cmds.last() {
            Command::Send(dst, msg) => {
                let e = Envelope { src: id, dst, msg };
                if kind == NetworkKind::UnorderedDuplicating && prev.contains(e) {
                    prev
                } else {
                    prev.push(e)
                }
            },
            _ => prev,
        }
    }
}

/// The timers set after the commands `cmds`, starting from `t`.
pub open spec fn timers_after<M, T, R, S>(t: Set<T>, cmds: Seq<Command<M, T, R, S>>) -> Set<T>
    decreases cmds.len(),
{
    if cmds.len() == 0 {
        t
    } else {
        let prev = timers_after(t, cmds.drop_last());
        match cmds.last() {
            Command::SetTimer(timer, _) => prev.insert(timer),
            Command::CancelTimer(timer) => prev.remove(timer),
            _ => prev,
        }
    }
}

/// The random choices pending after the commands `cmds`, starting from `m`: an empty list of
/// choices removes the key.
pub open spec fn choices_after<M, T, R, S>(
    m: Map<Seq<char>, Seq<R>>,
    cmds: Seq<Command<M, T, R, S>>,
) -> Map<Seq<char>, Seq<R>>
    decreases cmds.len(),
{
    if cmds.len() == 0 {
        m
    } else {
        let prev = choices_after(m, cmds.drop_last());
        match cmds.last() {
            Command::ChooseRandom(key, random) => if random@.len() == 0 {
                prev.remove(key@)
            } else {
                prev.insert(key@, random@)
            },
            _ => prev,
        }
    }
}

/// The storage saved after the commands `cmds`, starting from `o`.
pub open spec fn storage_after<M, T, R, S>(o: Option<S>, cmds: Seq<Command<M, T, R, S>>) -> Option<S>
    decreases cmds.len(),
{
    if cmds.len() == 0 {
        o
    } else {
        match cmds.last() {
            Command::Save(storage) => Some(storage),
            _ => storage_after(o, cmds.drop_last()),
        }
    }
}

/// `h1` is a history that recording envelope `e` with `record` can give from `h0`: the history
/// returned, or `h0` when nothing is returned.
pub open spec fn records<C, H, M, F: Fn(&C, &H, Envelope<&M>) -> Option<H>>(
    record: F,
    cfg: C,
    h0: H,
    e: Envelope<M>,
    h1: H,
) -> bool {
    exists|r: Option<H>|
        #[trigger] call_ensures(record, (&cfg, &h0, Envelope { src: e.src, dst: e.dst, msg: &e.msg }), r)
            && h1 == match r {
            Some(h) => h,
            None => h0,
        }
}

/// `h1` is a history that recording, in order, the messages that actor `id` sends with `cmds`
/// can give from `h0`.
pub open spec fn records_sends<C, H, M, T, R, S, F: Fn(&C, &H, Envelope<&M>) -> Option<H>>(
    record: F,
    cfg: C,
    id: Id,
    h0: H,
    cmds: Seq<Command<M, T, R, S>>,
    h1: H,
) -> bool
    decreases cmds.len(),
{
    if cmds.len() == 0 {
        h1 == h0
    } else {
        match cmds.last() {
            Command::Send(dst, msg) => exists|hm: H|
                records_sends(record, cfg, id, h0, cmds.drop_last(), hm) && #[trigger] records(
                    record,
                    cfg,
                    hm,
                    Envelope { src: id, dst, msg },
                    h1,
                ),
            _ => records_sends(record, cfg, id, h0, cmds.drop_last(), h1),
        }
    }
}

/// `after` is `before` once actor `i` (with identifier `id`) has carried out the commands `cmds`,
/// recording the messages it sends with `record`.
pub open spec fn carried_out<A: Actor, C, H, F: Fn(&C, &H, Envelope<&A::Msg>) -> Option<H>>(
    before: &ActorModelState<A, H>,
    after: &ActorModelState<A, H>,
    i: int,
    id: Id,
    cmds: Seq<Command<A::Msg, A::Timer, A::Random, A::Storage>>,
    record: F,
    cfg: C,
) -> bool {
    &&& after.actor_states@ == before.actor_states@
    &&& after.crashed@ == before.crashed@
    &&& after.network.kind_of() == before.network.kind_of()
    &&& (exact_eq::<A::Msg>() || before.network.kind_of() != NetworkKind::UnorderedDuplicating)
        ==> after.network.sent() == sent_after(
        before.network.kind_of(),
        before.network.sent(),
        id,
        cmds,
    )
    &&& after.timers_set@.len() == before.timers_set@.len()
    &&& forall|j: int| 0 <= j < before.timers_set@.len() && j != i ==> #[trigger] after.timers_set@[j] == before.timers_set@[j]
    &&& exact_eq::<A::Timer>() ==> after.timers_set@[i]@ == timers_after(before.timers_set@[i]@, cmds)
    &&& after.random_choices@.len() == before.random_choices@.len()
    &&& forall|j: int| 0 <= j < before.random_choices@.len() && j != i ==> #[trigger] after.random_choices@[j] == before.random_choices@[j]
    &&& after.random_choices@[i]@ == choices_after(before.random_choices@[i]@, cmds)
    &&& after.actor_storages@ == before.actor_storages@.update(i, storage_after(before.actor_storages@[i], cmds))
    &&& records_sends(record, cfg, id, before.history, cmds, after.history)
}

/// `c` is a copy of `a`: it shares the actor states and holds the same flags, and holds the same
/// values throughout when the values clone exactly.
pub open spec fn copied<A: Actor, H: Clone>(a: &ActorModelState<A, H>, c: &ActorModelState<A, H>) -> bool {
    &&& c.actor_states@ == a.actor_states@
    &&& c.crashed@ == a.crashed@
    &&& c.network.kind_of() == a.network.kind_of()
    &&& c.timers_set@.len() == a.timers_set@.len()
    &&& c.random_choices@.len() == a.random_choices@.len()
    &&& c.actor_storages@.len() == a.actor_storages@.len()
    &&& clones_exactly::<A, H>() ==> same_snapshot(c, a)
}

/// `b` holds the timers, random choices, crash flags and storages of `a`.
pub open spec fn keeps_records<A: Actor, H>(a: &ActorModelState<A, H>, b: &ActorModelState<A, H>) -> bool {
    &&& b.timers_set@ == a.timers_set@
    &&& b.random_choices@ == a.random_choices@
    &&& b.crashed@ == a.crashed@
    &&& b.actor_storages@ == a.actor_storages@
}

/// The actor states `b` are `a`, with the state of actor `i` replaced by the one that `changed`
/// holds, if any.
pub open spec fn states_after<S>(a: Seq<Arc<S>>, b: Seq<Arc<S>>, i: int, changed: Option<S>) -> bool {
    match changed {
        Some(x) => b.len() == a.len() && *b[i] == x && forall|j: int| 0 <= j < a.len() && j != i ==> #[trigger] b[j] == a[j],
        None => b == a,
    }
}

/// The state a handler replaced the actor's state by, if it did.
pub open spec fn replaced<S: Clone>(state: Cow<S>) -> Option<S> {
    match state {
        Cow::Owned(x) => Some(x),
        Cow::Borrowed(_) => None,
    }
}

/// Network `b` is network `a` once `e` is delivered.
pub open spec fn delivers<Msg: Eq + Hash>(a: &Network<Msg>, e: Envelope<Msg>, b: &Network<Msg>) -> bool {
    &&& b.kind_of() == a.kind_of()
    &&& a.kind_of() == NetworkKind::UnorderedDuplicating ==> b.sent() == a.sent()
    &&& exact_eq::<Msg>() && a.kind_of() != NetworkKind::UnorderedDuplicating ==> if a.sent().contains(e) {
        removed_first(a.sent(), e, b.sent())
    } else {
        b.sent() == a.sent()
    }
}

/// Network `b` is network `a` once `e` is dropped.
pub open spec fn drops<Msg: Eq + Hash>(a: &Network<Msg>, e: Envelope<Msg>, b: &Network<Msg>) -> bool {
    &&& b.kind_of() == a.kind_of()
    &&& exact_eq::<Msg>() && a.kind_of() == NetworkKind::UnorderedDuplicating ==> b.sent() == a.sent().filter(other_than(e))
    &&& exact_eq::<Msg>() && a.kind_of() != NetworkKind::UnorderedDuplicating ==> if a.sent().contains(e) {
        removed_first(a.sent(), e, b.sent())
    } else {
        b.sent() == a.sent()
    }
}

/// `b` is `a` but perhaps at position `i`.
pub open spec fn same_but<T>(a: Seq<T>, b: Seq<T>, i: int) -> bool {
    &&& b.len() == a.len()
    &&& forall|j: int| 0 <= j < a.len() && j != i ==> #[trigger] b[j] == a[j]
}

/// The number of crashed actors.
pub open spec fn count_crashed(crashed: Seq<bool>) -> nat
    decreases crashed.len(),
{
    if crashed.len() == 0 {
        0
    } else {
        count_crashed(crashed.drop_last()) + if crashed.last() {
            1nat
        } else {
            0nat
        }
    }
}

/// A timeout of each set timer, actor by actor, each actor's timers in the order set.
pub open spec fn timeout_actions<M, T: Hash + Eq, R>(ts: Seq<Timers<T>>) -> Seq<ActorModelAction<M, T, R>>
    decreases ts.len(),
{
    if ts.len() == 0 {
        Seq::empty()
    } else {
        let i = ts.len() - 1;
        timeout_actions(ts.drop_last()) + ts.last().order().map_values(
            |t: T| ActorModelAction::<M, T, R>::Timeout(id_of(i as usize), t),
        )
    }
}

/// A crash of each actor not crashed, in order.
pub open spec fn crash_actions<M, T, R>(crashed: Seq<bool>) -> Seq<ActorModelAction<M, T, R>>
    decreases crashed.len(),
{
    if crashed.len() == 0 {
        Seq::empty()
    } else {
        let i = crashed.len() - 1;
        crash_actions(crashed.drop_last()) + if crashed.last() {
            Seq::empty()
        } else {
            seq![ActorModelAction::<M, T, R>::Crash(id_of(i as usize))]
        }
    }
}

/// A recovery of each crashed actor, in order.
pub open spec fn recover_actions<M, T, R>(crashed: Seq<bool>) -> Seq<ActorModelAction<M, T, R>>
    decreases crashed.len(),
{
    if crashed.len() == 0 {
        Seq::empty()
    } else {
        let i = crashed.len() - 1;
        recover_actions(crashed.drop_last()) + if crashed.last() {
            seq![ActorModelAction::<M, T, R>::Recover(id_of(i as usize))]
        } else {
            Seq::empty()
        }
    }
}

/// A selection of each choice of each key of actor `id`, keys in order, choices in order.
pub open spec fn choice_actions<M, T, R>(id: Id, es: Seq<(String, Vec<R>)>) -> Seq<ActorModelAction<M, T, R>>
    decreases es.len(),
{
    if es.len() == 0 {
        Seq::empty()
    } else {
        let k = es.last().0;
        choice_actions(id, es.drop_last()) + es.last().1@.map_values(
            |r: R| ActorModelAction::<M, T, R>::SelectRandom { actor: id, key: k, random: r },
        )
    }
}

/// A selection of each pending random choice, actor by actor.
pub open spec fn select_actions<M, T, R>(rcs: Seq<RandomChoices<R>>) -> Seq<ActorModelAction<M, T, R>>
    decreases rcs.len(),
{
    if rcs.len() == 0 {
        Seq::empty()
    } else {
        let i = rcs.len() - 1;
        select_actions(rcs.drop_last()) + choice_actions(id_of(i as usize), rcs.last().entry_list())
    }
}

/// Represents a system of [`Actor`]s that communicate over a network. `H` indicates the type of
/// history to maintain as auxiliary state, if any. Use `()` if history is not needed to define
/// the relevant properties of this system.
///
/// How messages are recorded in the history is given to [`ActorModel::init_states`] and
/// [`ActorModel::next_state`] as functions of the configuration, the history and the envelope.
pub struct ActorModel<A: Actor, C = (), H = ()> {
    pub actors: Vec<A>,
    pub cfg: C,
    pub init_history: H,
    pub init_network: Network<A::Msg>,
    pub lossy_network: LossyNetwork,
    /// Maximum number of actors that can be contemporarily crashed
    pub max_crashes: usize,
}

impl<A: Actor, C, H: Clone> ActorModel<A, C, H> {
    /// Initializes an [`ActorModel`] with a specified configuration and history: no actors, an
    /// empty unordered duplicating network that does not lose messages, and no crashes.
    pub fn new(cfg: C, init_history: H) -> (r: Self)
        ensures
            r.actors@ == Seq::<A>::empty(),
            r.cfg == cfg,
            r.init_history == init_history,
            r.init_network.kind_of() == NetworkKind::UnorderedDuplicating,
            r.init_network.sent() == Seq::<Envelope<A::Msg>>::empty(),
            r.lossy_network == LossyNetwork::No,
            r.max_crashes == 0,
    {
        let init_network = Network::empty(NetworkKind::UnorderedDuplicating);
        ActorModel {
            actors: Vec::new(),
            cfg,
            init_history,
            init_network,
            lossy_network: LossyNetwork::No,
            max_crashes: 0,
        }
    }

    /// Adds another [`Actor`] to this model.
    pub fn actor(self, actor: A) -> (r: Self)
        ensures
            r.actors@ == self.actors@.push(actor),
            r.cfg == self.cfg,
            r.init_history == self.init_history,
            r.init_network == self.init_network,
            r.lossy_network == self.lossy_network,
            r.max_crashes == self.max_crashes,
    {
        let mut this = self;
        this.actors.push(actor);
        this
    }

    /// Adds multiple [`Actor`]s to this model, in order.
    pub fn actors(self, actors: Vec<A>) -> (r: Self)
        ensures
            r.actors@ == self.actors@ + actors@,
            r.cfg == self.cfg,
            r.init_history == self.init_history,
            r.init_network == self.init_network,
            r.lossy_network == self.lossy_network,
            r.max_crashes == self.max_crashes,
    {
        let mut this = self;
        let mut more = actors;
        this.actors.append(&mut more);
        this
    }

    /// Defines the initial network.
    pub fn init_network(self, init_network: Network<A::Msg>) -> (r: Self)
        ensures
            r.actors == self.actors,
            r.cfg == self.cfg,
            r.init_history == self.init_history,
            r.init_network == init_network,
            r.lossy_network == self.lossy_network,
            r.max_crashes == self.max_crashes,
    {
        let mut this = self;
        this.init_network = init_network;
        this
    }

    /// Defines whether the network loses messages or not.
    pub fn lossy_network(self, lossy_network: LossyNetwork) -> (r: Self)
        ensures
            r.actors == self.actors,
            r.cfg == self.cfg,
            r.init_history == self.init_history,
            r.init_network == self.init_network,
            r.lossy_network == lossy_network,
            r.max_crashes == self.max_crashes,
    {
        let mut this = self;
        this.lossy_network = lossy_network;
        this
    }

    /// Specifies the maximum number of actors that can be contemporarily crashed.
    pub fn max_crashes(self, max_crashes: usize) -> (r: Self)
        ensures
            r.actors == self.actors,
            r.cfg == self.cfg,
            r.init_history == self.init_history,
            r.init_network == self.init_network,
            r.lossy_network == self.lossy_network,
            r.max_crashes == max_crashes,
    {
        let mut this = self;
        this.max_crashes = max_crashes;
        this
    }
}

impl<A: Actor, C, H: Clone> ActorModel<A, C, H> {
    /// `s` is the system before any actor started: no actor states; no timers, random choices
    /// or storage for any of the actors; none crashed; the initial network and history.
    pub open spec fn unstarted(&self, s: &ActorModelState<A, H>) -> bool {
        let n = self.actors@.len();
        &&& s.actor_states@.len() == 0
        &&& s.timers_set@.len() == n
        &&& forall|i: int| 0 <= i < n ==> #[trigger] s.timers_set@[i]@ == Set::<A::Timer>::empty()
        &&& s.random_choices@.len() == n
        &&& forall|i: int| 0 <= i < n ==> #[trigger] s.random_choices@[i]@ == Map::<Seq<char>, Seq<A::Random>>::empty()
        &&& s.crashed@ == Seq::new(n, |i: int| false)
        &&& s.actor_storages@ == Seq::new(n, |i: int| None::<A::Storage>)
        &&& s.network.kind_of() == self.init_network.kind_of()
        &&& clones_exactly::<A, H>() ==> s.network.sent() == self.init_network.sent() && s.history
            == self.init_history
    }

    /// `b` is `a` once actor `i` started in state `st` (giving `m`) and its commands `cmds` were
    /// carried out.
    pub open spec fn started<FO>(
        &self,
        a: &ActorModelState<A, H>,
        i: int,
        st: A::State,
        m: &ActorModelState<A, H>,
        cmds: Seq<Command<A::Msg, A::Timer, A::Random, A::Storage>>,
        b: &ActorModelState<A, H>,
        record_out: FO,
    ) -> bool
        where
            FO: Fn(&C, &H, Envelope<&A::Msg>) -> Option<H>,
    {
        &&& a.actor_states@.len() == i
        &&& m.actor_states@.len() == i + 1
        &&& m.actor_states@.take(i) == a.actor_states@
        &&& *m.actor_states@[i] == st
        &&& m.network == a.network
        &&& m.history == a.history
        &&& keeps_records(a, m)
        &&& carried_out(m, b, i, id_of(i as usize), cmds, record_out, self.cfg)
    }

    /// The actors were started in order: `trace[k + 1]` is `trace[k]` once actor `k` started in
    /// state `sts[k]` (giving `mids[k]`) and its commands `cmdss[k]` were carried out.
    pub open spec fn starts<FO>(
        &self,
        trace: Seq<ActorModelState<A, H>>,
        mids: Seq<ActorModelState<A, H>>,
        sts: Seq<A::State>,
        cmdss: Seq<Seq<Command<A::Msg, A::Timer, A::Random, A::Storage>>>,
        record_out: FO,
    ) -> bool
        where
            FO: Fn(&C, &H, Envelope<&A::Msg>) -> Option<H>,
    {
        let n = self.actors@.len();
        &&& trace.len() == n + 1
        &&& mids.len() == n
        &&& sts.len() == n
        &&& cmdss.len() == n
        &&& self.unstarted(&trace[0])
        &&& forall|k: int| 0 <= k < n ==> #[trigger] self.started(&trace[k], k, sts[k], &mids[k], cmdss[k], &trace[k + 1], record_out)
    }

    /// The initial states: the one in which each actor, in order, started with no storage and
    /// its commands were carried out.
    pub fn init_states<FO>(&self, record_msg_out: &FO) -> (r: Vec<ActorModelState<A, H>>)
        where
            FO: Fn(&C, &H, Envelope<&A::Msg>) -> Option<H>,
        requires
            forall|c: &C, h: &H, e: Envelope<&A::Msg>| call_requires(*record_msg_out, (c, h, e)),
        ensures
            r@.len() == 1,
            self.sized(&r@[0]),
            exists|trace: Seq<ActorModelState<A, H>>, mids: Seq<ActorModelState<A, H>>, sts: Seq<A::State>, cmdss: Seq<Seq<Command<A::Msg, A::Timer, A::Random, A::Storage>>>|
                #[trigger] self.starts(trace, mids, sts, cmdss, *record_msg_out) && trace.last() == r@[0],
    {
        let n = self.actors.len();
        let mut timers_set: Vec<Timers<A::Timer>> = Vec::new();
        let mut random_choices: Vec<RandomChoices<A::Random>> = Vec::new();
        let mut crashed: Vec<bool> = Vec::new();
        let mut actor_storages: Vec<Option<A::Storage>> = Vec::new();
        let mut k: usize = 0;
        while k < n
            invariant
                k <= n,
                timers_set@.len() == k,
                forall|i: int| 0 <= i < k ==> #[trigger] timers_set@[i]@ == Set::<A::Timer>::empty(),
                random_choices@.len() == k,
                forall|i: int| 0 <= i < k ==> #[trigger] random_choices@[i]@ == Map::<Seq<char>, Seq<A::Random>>::empty(),
                crashed@ == Seq::new(k as nat, |i: int| false),
                actor_storages@ == Seq::new(k as nat, |i: int| None::<A::Storage>),
            decreases n - k,
        {
            timers_set.push(Timers::new());
            random_choices.push(RandomChoices::new());
            crashed.push(false);
            actor_storages.push(None);
            proof {
                assert(crashed@ =~= Seq::new((k + 1) as nat, |i: int| false));
                assert(actor_storages@ =~= Seq::new((k + 1) as nat, |i: int| None::<A::Storage>));
            }
            k = k + 1;
        }
        let mut init_sys_state = ActorModelState {
            actor_states: Vec::new(),
            network: self.init_network.clone(),
            timers_set,
            random_choices,
            crashed,
            history: clone_exact(&self.init_history),
            actor_storages,
        };
        let ghost mut trace: Seq<ActorModelState<A, H>> = seq![init_sys_state];
        let ghost mut mids: Seq<ActorModelState<A, H>> = Seq::empty();
        let ghost mut sts: Seq<A::State> = Seq::empty();
        let ghost mut cmdss: Seq<Seq<Command<A::Msg, A::Timer, A::Random, A::Storage>>> = Seq::empty();
        let mut index: usize = 0;
        while index < n
            invariant
                n == self.actors@.len(),
                index <= n,
                forall|c: &C, h: &H, e: Envelope<&A::Msg>| call_requires(*record_msg_out, (c, h, e)),
                trace.len() == index + 1,
                mids.len() == index,
                sts.len() == index,
                cmdss.len() == index,
                self.unstarted(&trace[0]),
                forall|k: int| 0 <= k < index ==> #[trigger] self.started(&trace[k], k, sts[k], &mids[k], cmdss[k], &trace[k + 1], *record_msg_out),
                trace.last() == init_sys_state,
                init_sys_state.actor_states@.len() == index,
                init_sys_state.timers_set@.len() == n,
                init_sys_state.random_choices@.len() == n,
                init_sys_state.crashed@.len() == n,
                init_sys_state.actor_storages@.len() == n,
            decreases n - index,
        {
            let id = Id::from(index);
            let mut out = Out::new();
            let state = self.actors[index].on_start(id, &init_sys_state.actor_storages[index], &mut out);
            let ghost st = state;
            let ghost before = init_sys_state;
            init_sys_state.actor_states.push(Arc::new(state));
            let ghost m = init_sys_state;
            let ghost cmds = out@;
            self.process_commands(id, out, &mut init_sys_state, record_msg_out);
            proof {
                assert(m.actor_states@.take(index as int) == before.actor_states@);
                assert(self.started(&before, index as int, st, &m, cmds, &init_sys_state, *record_msg_out));
                let t0 = trace;
                trace = trace.push(init_sys_state);
                mids = mids.push(m);
                sts = sts.push(st);
                cmdss = cmdss.push(cmds);
                assert forall|k: int| 0 <= k < index + 1 implies #[trigger] self.started(&trace[k], k, sts[k], &mids[k], cmdss[k], &trace[k + 1], *record_msg_out) by {
                    if k < index {
                        assert(trace[k] == t0[k] && trace[k + 1] == t0[k + 1]);
                    } else {
                        assert(trace[k] == before);
                    }
                }
            }
            index = index + 1;
        }
        proof {
            assert(self.starts(trace, mids, sts, cmdss, *record_msg_out));
        }
        let mut r = Vec::new();
        r.push(init_sys_state);
        r
    }

    /// For each envelope of `d` in order: its loss, if the network is lossy, then its delivery,
    /// if its destination exists.
    pub open spec fn delivery_actions(&self, d: Seq<Envelope<A::Msg>>) -> Seq<ActorModelAction<A::Msg, A::Timer, A::Random>>
        decreases d.len(),
    {
        if d.len() == 0 {
            Seq::empty()
        } else {
            let e = d.last();
            self.delivery_actions(d.drop_last()) + (if self.lossy_network == LossyNetwork::Yes {
                seq![ActorModelAction::<A::Msg, A::Timer, A::Random>::Drop(e)]
            } else {
                Seq::empty()
            }) + (if index_of(e.dst) < self.actors@.len() {
                seq![ActorModelAction::<A::Msg, A::Timer, A::Random>::Deliver { src: e.src, dst: e.dst, msg: e.msg }]
            } else {
                Seq::empty()
            })
        }
    }

    /// The actions possible from `s`, whose network has the deliverable envelopes `d`: losses
    /// and deliveries, then timeouts, crashes (while fewer than the maximum are crashed),
    /// recoveries and random selections.
    pub open spec fn actions_from(&self, s: &ActorModelState<A, H>, d: Seq<Envelope<A::Msg>>) -> Seq<ActorModelAction<A::Msg, A::Timer, A::Random>> {
        self.delivery_actions(d) + timeout_actions(s.timers_set@) + (if count_crashed(s.crashed@) < self.max_crashes {
            crash_actions(s.crashed@)
        } else {
            Seq::empty()
        }) + recover_actions(s.crashed@) + select_actions(s.random_choices@)
    }

    /// Appends the actions possible from `state` to `actions`.
    pub fn actions(&self, state: &ActorModelState<A, H>, actions: &mut Vec<ActorModelAction<A::Msg, A::Timer, A::Random>>)
        ensures
            clones_exactly::<A, H>() ==> exists|d: Seq<Envelope<A::Msg>>|
                deliverable(&state.network, d) && #[trigger] self.actions_from(state, d) == final(actions)@.skip(old(actions)@.len() as int)
                    && final(actions)@.take(old(actions)@.len() as int) == old(actions)@,
    {
        let ghost start = actions@;
        let ghost acts = clones_exactly::<A, H>();
        let deliverable_envs = state.network.iter_deliverable();
        let ghost d = owned_all(deliverable_envs@);
        let mut k: usize = 0;
        while k < deliverable_envs.len()
            invariant
                k <= deliverable_envs@.len(),
                d == owned_all(deliverable_envs@),
                acts == clones_exactly::<A, H>(),
                acts ==> actions@ == start + self.delivery_actions(d.take(k as int)),
            decreases deliverable_envs@.len() - k,
        {
            let env = &deliverable_envs[k];
            proof {
                assert(d.take(k + 1).drop_last() == d.take(k as int));
                assert(d.take(k + 1).last() == d[k as int]);
            }
            if self.lossy_network == LossyNetwork::Yes {
                actions.push(ActorModelAction::Drop(Envelope { src: env.src, dst: env.dst, msg: clone_exact(env.msg) }));
            }
            if usize::from(env.dst) < self.actors.len() {
                actions.push(ActorModelAction::Deliver { src: env.src, dst: env.dst, msg: clone_exact(env.msg) });
            }
            proof {
                if acts {
                    assert(actions@ =~= start + self.delivery_actions(d.take(k + 1)));
                }
            }
            k = k + 1;
        }
        proof {
            assert(d.take(d.len() as int) == d);
        }
        let ghost after_net = actions@;
        let mut i: usize = 0;
        while i < state.timers_set.len()
            invariant
                i <= state.timers_set@.len(),
                acts == clones_exactly::<A, H>(),
                acts ==> actions@ == after_net + timeout_actions::<A::Msg, A::Timer, A::Random>(state.timers_set@.take(i as int)),
            decreases state.timers_set@.len() - i,
        {
            let timers = state.timers_set[i].iter();
            let ghost base = actions@;
            let mut j: usize = 0;
            while j < timers.len()
                invariant
                    j <= timers@.len(),
                    i < state.timers_set@.len(),
                    timers@ == state.timers_set@[i as int].order(),
                    acts == clones_exactly::<A, H>(),
                    acts ==> actions@ == base + timers@.take(j as int).map_values(
                        |t: A::Timer| ActorModelAction::<A::Msg, A::Timer, A::Random>::Timeout(id_of(i), t),
                    ),
                decreases timers@.len() - j,
            {
                actions.push(ActorModelAction::Timeout(Id::from(i), clone_exact(&timers[j])));
                proof {
                    if acts {
                        assert(timers@.take(j + 1) == timers@.take(j as int).push(timers@[j as int]));
                        assert(actions@ =~= base + timers@.take(j + 1).map_values(
                            |t: A::Timer| ActorModelAction::<A::Msg, A::Timer, A::Random>::Timeout(id_of(i), t),
                        ));
                    }
                }
                j = j + 1;
            }
            proof {
                assert(timers@.take(timers@.len() as int) == timers@);
                assert(state.timers_set@.take(i + 1).drop_last() == state.timers_set@.take(i as int));
                assert(state.timers_set@.take(i + 1).last() == state.timers_set@[i as int]);
            }
            i = i + 1;
        }
        proof {
            assert(state.timers_set@.take(state.timers_set@.len() as int) == state.timers_set@);
        }
        let ghost after_timers = actions@;
        let mut n_crashed: usize = 0;
        let mut i: usize = 0;
        while i < state.crashed.len()
            invariant
                i <= state.crashed@.len(),
                n_crashed == count_crashed(state.crashed@.take(i as int)),
                n_crashed <= i,
            decreases state.crashed@.len() - i,
        {
            proof {
                assert(state.crashed@.take(i + 1).drop_last() == state.crashed@.take(i as int));
            }
            if state.crashed[i] {
                n_crashed = n_crashed + 1;
            }
            i = i + 1;
        }
        proof {
            assert(state.crashed@.take(state.crashed@.len() as int) == state.crashed@);
        }
        if n_crashed < self.max_crashes {
            let mut i: usize = 0;
            while i < state.crashed.len()
                invariant
                    i <= state.crashed@.len(),
                    acts == clones_exactly::<A, H>(),
                    acts ==> actions@ == after_timers + crash_actions::<A::Msg, A::Timer, A::Random>(state.crashed@.take(i as int)),
                decreases state.crashed@.len() - i,
            {
                proof {
                    assert(state.crashed@.take(i + 1).drop_last() == state.crashed@.take(i as int));
                }
                if !state.crashed[i] {
                    actions.push(ActorModelAction::Crash(Id::from(i)));
                }
                proof {
                    if acts {
                        assert(actions@ =~= after_timers + crash_actions::<A::Msg, A::Timer, A::Random>(state.crashed@.take(i + 1)));
                    }
                }
                i = i + 1;
            }
            proof {
                assert(state.crashed@.take(state.crashed@.len() as int) == state.crashed@);
            }
        }
        let ghost after_crashes = actions@;
        let mut i: usize = 0;
        while i < state.crashed.len()
            invariant
                i <= state.crashed@.len(),
                acts == clones_exactly::<A, H>(),
                acts ==> actions@ == after_crashes + recover_actions::<A::Msg, A::Timer, A::Random>(state.crashed@.take(i as int)),
            decreases state.crashed@.len() - i,
        {
            proof {
                assert(state.crashed@.take(i + 1).drop_last() == state.crashed@.take(i as int));
            }
            if state.crashed[i] {
                actions.push(ActorModelAction::Recover(Id::from(i)));
            }
            proof {
                if acts {
                    assert(actions@ =~= after_crashes + recover_actions::<A::Msg, A::Timer, A::Random>(state.crashed@.take(i + 1)));
                }
            }
            i = i + 1;
        }
        proof {
            assert(state.crashed@.take(state.crashed@.len() as int) == state.crashed@);
        }
        let ghost after_recovers = actions@;
        let mut i: usize = 0;
        while i < state.random_choices.len()
            invariant
                i <= state.random_choices@.len(),
                acts == clones_exactly::<A, H>(),
                acts ==> actions@ == after_recovers + select_actions::<A::Msg, A::Timer, A::Random>(state.random_choices@.take(i as int)),
            decreases state.random_choices@.len() - i,
        {
            let entries = state.random_choices[i].entries();
            let ghost base = actions@;
            let id = Id::from(i);
            let mut e: usize = 0;
            while e < entries.len()
                invariant
                    e <= entries@.len(),
                    i < state.random_choices@.len(),
                    id == id_of(i),
                    entries@ == state.random_choices@[i as int].entry_list(),
                    acts == clones_exactly::<A, H>(),
                    acts ==> actions@ == base + choice_actions::<A::Msg, A::Timer, A::Random>(id, entries@.take(e as int)),
                decreases entries@.len() - e,
            {
                let key = &entries[e].0;
                let decision = &entries[e].1;
                let ghost base2 = actions@;
                let mut c: usize = 0;
                while c < decision.len()
                    invariant
                        c <= decision@.len(),
                        e < entries@.len(),
                        *key == entries@[e as int].0,
                        decision@ == entries@[e as int].1@,
                        acts == clones_exactly::<A, H>(),
                        acts ==> actions@ == base2 + decision@.take(c as int).map_values(
                            |r: A::Random| ActorModelAction::<A::Msg, A::Timer, A::Random>::SelectRandom { actor: id, key: *key, random: r },
                        ),
                    decreases decision@.len() - c,
                {
                    actions.push(ActorModelAction::SelectRandom { actor: id, key: key.clone(), random: clone_exact(&decision[c]) });
                    proof {
                        if acts {
                            assert(decision@.take(c + 1) == decision@.take(c as int).push(decision@[c as int]));
                            assert(actions@ =~= base2 + decision@.take(c + 1).map_values(
                                |r: A::Random| ActorModelAction::<A::Msg, A::Timer, A::Random>::SelectRandom { actor: id, key: *key, random: r },
                            ));
                        }
                    }
                    c = c + 1;
                }
                proof {
                    assert(decision@.take(decision@.len() as int) == decision@);
                    assert(entries@.take(e + 1).drop_last() == entries@.take(e as int));
                    assert(entries@.take(e + 1).last() == entries@[e as int]);
                }
                e = e + 1;
            }
            proof {
                assert(entries@.take(entries@.len() as int) == entries@);
                assert(state.random_choices@.take(i + 1).drop_last() == state.random_choices@.take(i as int));
                assert(state.random_choices@.take(i + 1).last() == state.random_choices@[i as int]);
            }
            i = i + 1;
        }
        proof {
            assert(state.random_choices@.take(state.random_choices@.len() as int) == state.random_choices@);
            if acts {
                assert(actions@.take(start.len() as int) =~= start);
                assert(actions@.skip(start.len() as int) =~= self.actions_from(state, d));
            }
        }
    }

    /// Whether each per-actor record of `s` has an entry for each actor.
    pub open spec fn sized(&self, s: &ActorModelState<A, H>) -> bool {
        &&& s.actor_states@.len() == self.actors@.len()
        &&& s.timers_set@.len() == self.actors@.len()
        &&& s.random_choices@.len() == self.actors@.len()
        &&& s.crashed@.len() == self.actors@.len()
        &&& s.actor_storages@.len() == self.actors@.len()
    }

    /// Whether `action` designates an existing actor where it has to (a timeout, a crash, a
    /// recovery of a crashed actor, a random selection).
    pub open spec fn applicable(&self, s: &ActorModelState<A, H>, action: ActorModelAction<A::Msg, A::Timer, A::Random>) -> bool {
        match action {
            ActorModelAction::Timeout(id, _) => 0 <= index_of(id) < self.actors@.len(),
            ActorModelAction::Crash(id) => 0 <= index_of(id) < self.actors@.len(),
            ActorModelAction::Recover(id) => 0 <= index_of(id) < self.actors@.len() && s.crashed@[index_of(id)],
            ActorModelAction::SelectRandom { actor, .. } => 0 <= index_of(actor) < self.actors@.len(),
            _ => true,
        }
    }

    /// `s` is `c`, a copy of `last`, once envelope `e` is dropped.
    pub open spec fn dropped(&self, last: &ActorModelState<A, H>, e: Envelope<A::Msg>, c: &ActorModelState<A, H>, s: &ActorModelState<A, H>) -> bool {
        &&& copied(last, c)
        &&& s.actor_states@ == c.actor_states@
        &&& keeps_records(c, s)
        &&& s.history == c.history
        &&& drops(&c.network, e, &s.network)
    }

    /// `s` is `c`, a copy of `last`, once envelope `e` is delivered to its destination `i`: the
    /// actor replaced its state by `changed` (if any) and output `cmds`, which were carried out.
    pub open spec fn delivered<FI, FO>(
        &self,
        last: &ActorModelState<A, H>,
        e: Envelope<A::Msg>,
        c: &ActorModelState<A, H>,
        m: &ActorModelState<A, H>,
        changed: Option<A::State>,
        cmds: Seq<Command<A::Msg, A::Timer, A::Random, A::Storage>>,
        s: &ActorModelState<A, H>,
        record_in: FI,
        record_out: FO,
    ) -> bool
        where
            FI: Fn(&C, &H, Envelope<&A::Msg>) -> Option<H>,
            FO: Fn(&C, &H, Envelope<&A::Msg>) -> Option<H>,
    {
        let i = index_of(e.dst);
        &&& copied(last, c)
        &&& keeps_records(c, m)
        &&& states_after(c.actor_states@, m.actor_states@, i, changed)
        &&& delivers(&c.network, e, &m.network)
        &&& records(record_in, self.cfg, c.history, e, m.history)
        &&& carried_out(m, s, i, e.dst, cmds, record_out, self.cfg)
    }

    /// `s` is `c`, a copy of `last`, once timer `timer` of actor `id` fired: the timer was
    /// cancelled, the actor replaced its state by `changed` (if any) and output `cmds`, which
    /// were carried out.
    pub open spec fn timed_out<FO>(
        &self,
        last: &ActorModelState<A, H>,
        id: Id,
        timer: A::Timer,
        c: &ActorModelState<A, H>,
        m: &ActorModelState<A, H>,
        changed: Option<A::State>,
        cmds: Seq<Command<A::Msg, A::Timer, A::Random, A::Storage>>,
        s: &ActorModelState<A, H>,
        record_out: FO,
    ) -> bool
        where
            FO: Fn(&C, &H, Envelope<&A::Msg>) -> Option<H>,
    {
        let i = index_of(id);
        &&& copied(last, c)
        &&& m.network == c.network
        &&& m.history == c.history
        &&& m.random_choices@ == c.random_choices@
        &&& m.crashed@ == c.crashed@
        &&& m.actor_storages@ == c.actor_storages@
        &&& same_but(c.timers_set@, m.timers_set@, i)
        &&& exact_eq::<A::Timer>() ==> m.timers_set@[i]@ == c.timers_set@[i]@.remove(timer)
        &&& states_after(c.actor_states@, m.actor_states@, i, changed)
        &&& carried_out(m, s, i, id, cmds, record_out, self.cfg)
    }

    /// `s` is `c`, a copy of `last`, once actor `id` crashed: its timers and random choices are
    /// gone and it is marked crashed.
    pub open spec fn crashed_at(&self, last: &ActorModelState<A, H>, id: Id, c: &ActorModelState<A, H>, s: &ActorModelState<A, H>) -> bool {
        let i = index_of(id);
        &&& copied(last, c)
        &&& s.actor_states@ == c.actor_states@
        &&& s.network == c.network
        &&& s.history == c.history
        &&& s.actor_storages@ == c.actor_storages@
        &&& same_but(c.timers_set@, s.timers_set@, i)
        &&& s.timers_set@[i]@ == Set::<A::Timer>::empty()
        &&& same_but(c.random_choices@, s.random_choices@, i)
        &&& s.random_choices@[i]@ == Map::<Seq<char>, Seq<A::Random>>::empty()
        &&& s.crashed@ == c.crashed@.update(i, true)
    }

    /// `s` is `c`, a copy of `last`, once actor `id` recovered: it restarted with state `st`
    /// from its storage, is no longer marked crashed, and output `cmds`, which were carried out.
    pub open spec fn recovered<FO>(
        &self,
        last: &ActorModelState<A, H>,
        id: Id,
        c: &ActorModelState<A, H>,
        m: &ActorModelState<A, H>,
        st: A::State,
        cmds: Seq<Command<A::Msg, A::Timer, A::Random, A::Storage>>,
        s: &ActorModelState<A, H>,
        record_out: FO,
    ) -> bool
        where
            FO: Fn(&C, &H, Envelope<&A::Msg>) -> Option<H>,
    {
        let i = index_of(id);
        &&& copied(last, c)
        &&& m.network == c.network
        &&& m.history == c.history
        &&& m.timers_set@ == c.timers_set@
        &&& m.random_choices@ == c.random_choices@
        &&& m.actor_storages@ == c.actor_storages@
        &&& states_after(c.actor_states@, m.actor_states@, i, Some(st))
        &&& m.crashed@ == c.crashed@.update(i, false)
        &&& carried_out(m, s, i, id, cmds, record_out, self.cfg)
    }

    /// `s` is `c`, a copy of `last`, once actor `actor` selected a random choice for `key`: the
    /// choices for the key are gone, the actor replaced its state by `changed` (if any) and
    /// output `cmds`, which were carried out.
    pub open spec fn selected<FO>(
        &self,
        last: &ActorModelState<A, H>,
        actor: Id,
        key: Seq<char>,
        c: &ActorModelState<A, H>,
        m: &ActorModelState<A, H>,
        changed: Option<A::State>,
        cmds: Seq<Command<A::Msg, A::Timer, A::Random, A::Storage>>,
        s: &ActorModelState<A, H>,
        record_out: FO,
    ) -> bool
        where
            FO: Fn(&C, &H, Envelope<&A::Msg>) -> Option<H>,
    {
        let i = index_of(actor);
        &&& copied(last, c)
        &&& m.network == c.network
        &&& m.history == c.history
        &&& m.timers_set@ == c.timers_set@
        &&& m.crashed@ == c.crashed@
        &&& m.actor_storages@ == c.actor_storages@
        &&& same_but(c.random_choices@, m.random_choices@, i)
        &&& m.random_choices@[i]@ == c.random_choices@[i]@.remove(key)
        &&& states_after(c.actor_states@, m.actor_states@, i, changed)
        &&& carried_out(m, s, i, actor, cmds, record_out, self.cfg)
    }

    /// What holds of the outcome `r` of taking `action` from `last`: the parts of the step that
    /// the model carries out, whatever the actors' handlers return.
    pub open spec fn steps_to<FI, FO>(
        &self,
        last: &ActorModelState<A, H>,
        action: ActorModelAction<A::Msg, A::Timer, A::Random>,
        r: Option<ActorModelState<A, H>>,
        record_in: FI,
        record_out: FO,
    ) -> bool
        where
            FI: Fn(&C, &H, Envelope<&A::Msg>) -> Option<H>,
            FO: Fn(&C, &H, Envelope<&A::Msg>) -> Option<H>,
    {
        match action {
            ActorModelAction::Drop(e) => r is Some && exists|c: ActorModelState<A, H>|
                #[trigger] self.dropped(last, e, &c, &r->0),
            ActorModelAction::Deliver { src, dst, msg } => {
                let i = index_of(dst);
                &&& (i >= last.actor_states@.len() || last.crashed@[i]) ==> r is None
                &&& r is None ==> i >= last.actor_states@.len() || last.crashed@[i]
                    || self.init_network.kind_of() != NetworkKind::Ordered
                &&& r is Some ==> exists|c: ActorModelState<A, H>, m: ActorModelState<A, H>, changed: Option<A::State>, cmds: Seq<Command<A::Msg, A::Timer, A::Random, A::Storage>>|
                    #[trigger] self.delivered(last, Envelope { src, dst, msg }, &c, &m, changed, cmds, &r->0, record_in, record_out)
            },
            ActorModelAction::Timeout(id, timer) => r is Some ==> exists|c: ActorModelState<A, H>, m: ActorModelState<A, H>, changed: Option<A::State>, cmds: Seq<Command<A::Msg, A::Timer, A::Random, A::Storage>>|
                #[trigger] self.timed_out(last, id, timer, &c, &m, changed, cmds, &r->0, record_out),
            ActorModelAction::Crash(id) => r is Some && exists|c: ActorModelState<A, H>|
                #[trigger] self.crashed_at(last, id, &c, &r->0),
            ActorModelAction::Recover(id) => r is Some && exists|c: ActorModelState<A, H>, m: ActorModelState<A, H>, st: A::State, cmds: Seq<Command<A::Msg, A::Timer, A::Random, A::Storage>>|
                #[trigger] self.recovered(last, id, &c, &m, st, cmds, &r->0, record_out),
            ActorModelAction::SelectRandom { actor, key, random } => r is Some && exists|c: ActorModelState<A, H>, m: ActorModelState<A, H>, changed: Option<A::State>, cmds: Seq<Command<A::Msg, A::Timer, A::Random, A::Storage>>|
                #[trigger] self.selected(last, actor, key@, &c, &m, changed, cmds, &r->0, record_out),
        }
    }

    /// Takes `action` from `last_sys_state`, returning `None` where the action changes nothing
    /// that matters: delivering to a missing or crashed actor, and (but on an ordered network) a
    /// delivery or timeout that changes neither the actor nor sends anything.
    pub fn next_state<FI, FO>(
        &self,
        last_sys_state: &ActorModelState<A, H>,
        action: ActorModelAction<A::Msg, A::Timer, A::Random>,
        record_msg_in: &FI,
        record_msg_out: &FO,
    ) -> (r: Option<ActorModelState<A, H>>)
        where
            FI: Fn(&C, &H, Envelope<&A::Msg>) -> Option<H>,
            FO: Fn(&C, &H, Envelope<&A::Msg>) -> Option<H>,
        requires
            self.sized(last_sys_state),
            self.applicable(last_sys_state, action),
            forall|c: &C, h: &H, e: Envelope<&A::Msg>| call_requires(*record_msg_in, (c, h, e)),
            forall|c: &C, h: &H, e: Envelope<&A::Msg>| call_requires(*record_msg_out, (c, h, e)),
        ensures
            self.steps_to(last_sys_state, action, r, *record_msg_in, *record_msg_out),
            r matches Some(s) ==> self.sized(&s),
            action is Deliver && r is Some ==> exists|
                st: &mut Cow<A::State>,
                o: &mut Out<A>,
                mc: A::Msg,
                c: ActorModelState<A, H>,
                m: ActorModelState<A, H>,
            |
                #![trigger call_ensures(A::on_msg, (&self.actors@[index_of(action->Deliver_dst)], action->Deliver_dst, st, action->Deliver_src, mc, o), ()), c.crashed, m.crashed]
                {
                    &&& mut_ref_current(st) is Borrowed
                    &&& current_state(mut_ref_current(st)) == *last_sys_state.actor_states@[index_of(action->Deliver_dst)]
                    &&& mut_ref_current(o).0@ == Seq::<Command<A::Msg, A::Timer, A::Random, A::Storage>>::empty()
                    &&& vstd::pervasive::cloned(action->Deliver_msg, mc)
                    &&& call_ensures(A::on_msg, (&self.actors@[index_of(action->Deliver_dst)], action->Deliver_dst, st, action->Deliver_src, mc, o), ())
                    &&& self.delivered(
                        last_sys_state,
                        Envelope { src: action->Deliver_src, dst: action->Deliver_dst, msg: action->Deliver_msg },
                        &c,
                        &m,
                        replaced(mut_ref_future(st)),
                        mut_ref_future(o).0@,
                        &r->0,
                        *record_msg_in,
                        *record_msg_out,
                    )
                },
            action is Deliver && r is None && index_of(action->Deliver_dst)
                < last_sys_state.actor_states@.len() && !last_sys_state.crashed@[index_of(
                action->Deliver_dst,
            )] ==> self.init_network.kind_of() != NetworkKind::Ordered && exists|
                st: &mut Cow<A::State>,
                o: &mut Out<A>,
                mc: A::Msg,
            |
                #![trigger call_ensures(A::on_msg, (&self.actors@[index_of(action->Deliver_dst)], action->Deliver_dst, st, action->Deliver_src, mc, o), ())]
                {
                    &&& mut_ref_current(st) is Borrowed
                    &&& current_state(mut_ref_current(st)) == *last_sys_state.actor_states@[index_of(action->Deliver_dst)]
                    &&& mut_ref_current(o).0@ == Seq::<Command<A::Msg, A::Timer, A::Random, A::Storage>>::empty()
                    &&& vstd::pervasive::cloned(action->Deliver_msg, mc)
                    &&& call_ensures(A::on_msg, (&self.actors@[index_of(action->Deliver_dst)], action->Deliver_dst, st, action->Deliver_src, mc, o), ())
                    &&& mut_ref_future(st) is Borrowed
                    &&& mut_ref_future(o).0@.len() == 0
                },
            action is Timeout && r is None ==> exists|st: &mut Cow<A::State>, o: &mut Out<A>|
                #![trigger call_ensures(A::on_timeout, (&self.actors@[index_of(action->Timeout_0)], action->Timeout_0, st, &action->Timeout_1, o), ())]
                {
                    &&& mut_ref_current(st) is Borrowed
                    &&& current_state(mut_ref_current(st)) == *last_sys_state.actor_states@[index_of(action->Timeout_0)]
                    &&& mut_ref_current(o).0@ == Seq::<Command<A::Msg, A::Timer, A::Random, A::Storage>>::empty()
                    &&& call_ensures(A::on_timeout, (&self.actors@[index_of(action->Timeout_0)], action->Timeout_0, st, &action->Timeout_1, o), ())
                    &&& mut_ref_future(st) is Borrowed
                    &&& mut_ref_future(o).0@.len() == 1
                    &&& mut_ref_future(o).0@[0] is SetTimer
                    &&& exact_eq::<A::Timer>() ==> crate::actor::sets_timer(mut_ref_future(o).0@[0], action->Timeout_1)
                },
            action is Timeout && r is Some ==> exists|
                st: &mut Cow<A::State>,
                o: &mut Out<A>,
                c: ActorModelState<A, H>,
                m: ActorModelState<A, H>,
            |
                #![trigger call_ensures(A::on_timeout, (&self.actors@[index_of(action->Timeout_0)], action->Timeout_0, st, &action->Timeout_1, o), ()), c.crashed, m.crashed]
                {
                    &&& mut_ref_current(st) is Borrowed
                    &&& current_state(mut_ref_current(st)) == *last_sys_state.actor_states@[index_of(action->Timeout_0)]
                    &&& mut_ref_current(o).0@ == Seq::<Command<A::Msg, A::Timer, A::Random, A::Storage>>::empty()
                    &&& call_ensures(A::on_timeout, (&self.actors@[index_of(action->Timeout_0)], action->Timeout_0, st, &action->Timeout_1, o), ())
                    &&& self.timed_out(
                        last_sys_state,
                        action->Timeout_0,
                        action->Timeout_1,
                        &c,
                        &m,
                        replaced(mut_ref_future(st)),
                        mut_ref_future(o).0@,
                        &r->0,
                        *record_msg_out,
                    )
                },
            action is SelectRandom ==> exists|
                st: &mut Cow<A::State>,
                o: &mut Out<A>,
                c: ActorModelState<A, H>,
                m: ActorModelState<A, H>,
            |
                #![trigger call_ensures(A::on_random, (&self.actors@[index_of(action->actor)], action->actor, st, &action->random, o), ()), c.crashed, m.crashed]
                {
                    &&& mut_ref_current(st) is Borrowed
                    &&& current_state(mut_ref_current(st)) == *last_sys_state.actor_states@[index_of(action->actor)]
                    &&& mut_ref_current(o).0@ == Seq::<Command<A::Msg, A::Timer, A::Random, A::Storage>>::empty()
                    &&& call_ensures(A::on_random, (&self.actors@[index_of(action->actor)], action->actor, st, &action->random, o), ())
                    &&& self.selected(
                        last_sys_state,
                        action->actor,
                        action->key@,
                        &c,
                        &m,
                        replaced(mut_ref_future(st)),
                        mut_ref_future(o).0@,
                        &r->0,
                        *record_msg_out,
                    )
                },
            action is Recover ==> exists|
                o: &mut Out<A>,
                st: A::State,
                c: ActorModelState<A, H>,
                m: ActorModelState<A, H>,
            |
                #![trigger call_ensures(A::on_start, (&self.actors@[index_of(action->Recover_0)], action->Recover_0, &last_sys_state.actor_storages@[index_of(action->Recover_0)], o), st), c.crashed, m.crashed]
                {
                    &&& mut_ref_current(o).0@ == Seq::<Command<A::Msg, A::Timer, A::Random, A::Storage>>::empty()
                    &&& call_ensures(A::on_start, (&self.actors@[index_of(action->Recover_0)], action->Recover_0, &last_sys_state.actor_storages@[index_of(action->Recover_0)], o), st)
                    &&& self.recovered(
                        last_sys_state,
                        action->Recover_0,
                        &c,
                        &m,
                        st,
                        mut_ref_future(o).0@,
                        &r->0,
                        *record_msg_out,
                    )
                },
    {
        let ghost act = action;
        match action {
            ActorModelAction::Drop(env) => {
                let mut next_state = last_sys_state.clone();
                let ghost c = next_state;
                next_state.network.on_drop(env);
                proof {
                    assert(self.dropped(last_sys_state, env, &c, &next_state));
                    assert(act->Drop_0 == env);
                    let r = Some(next_state);
                    assert(self.dropped(last_sys_state, act->Drop_0, &c, &r->0));
                }
                Some(next_state)
            },
            ActorModelAction::Deliver { src, dst: id, msg } => {
                let index = usize::from(id);
                if index >= last_sys_state.actor_states.len() {
                    return None;
                }
                if last_sys_state.crashed[index] {
                    return None;
                }
                let last_actor_state: &A::State = &*last_sys_state.actor_states[index];
                let mut state = Cow::Borrowed(last_actor_state);
                let mut out = Out::new();
                self.actors[index].on_msg(id, &mut state, src, msg.clone(), &mut out);
                if is_no_op(&state, &out) && self.init_network.kind() != NetworkKind::Ordered {
                    return None;
                }
                let mut next_sys_state = last_sys_state.clone();
                let ghost c = next_sys_state;
                let history = record_msg_in(&self.cfg, &next_sys_state.history, Envelope { src, dst: id, msg: &msg });
                next_sys_state.network.on_deliver(Envelope { src, dst: id, msg });
                let ghost mut changed: Option<A::State> = None;
                match state {
                    Cow::Owned(next_actor_state) => {
                        proof {
                            changed = Some(next_actor_state);
                        }
                        next_sys_state.actor_states.set(index, Arc::new(next_actor_state));
                    },
                    Cow::Borrowed(_) => {},
                }
                match history {
                    Some(history) => {
                        next_sys_state.history = history;
                    },
                    None => {},
                }
                let ghost m = next_sys_state;
                let ghost cmds = out@;
                self.process_commands(id, out, &mut next_sys_state, record_msg_out);
                proof {
                    let e = Envelope { src, dst: id, msg };
                    assert(copied(last_sys_state, &c));
                    assert(carried_out(&m, &next_sys_state, index as int, id, cmds, *record_msg_out, self.cfg));
                    assert(self.delivered(last_sys_state, e, &c, &m, changed, cmds, &next_sys_state, *record_msg_in, *record_msg_out));
                    assert(act->src == src && act->dst == id && act->msg == msg);
                    let r = Some(next_sys_state);
                    assert(self.delivered(last_sys_state, Envelope { src: act->src, dst: act->dst, msg: act->msg }, &c, &m, changed, cmds, &r->0, *record_msg_in, *record_msg_out));
                }
                Some(next_sys_state)
            },
            ActorModelAction::Timeout(id, timer) => {
                let index = usize::from(id);
                let last_actor_state: &A::State = &*last_sys_state.actor_states[index];
                let mut state = Cow::Borrowed(last_actor_state);
                let mut out = Out::new();
                self.actors[index].on_timeout(id, &mut state, &timer, &mut out);
                if is_no_op_with_timer(&state, &out, &timer) {
                    return None;
                }
                let mut next_sys_state = last_sys_state.clone();
                let ghost c = next_sys_state;
                next_sys_state.timers_set[index].cancel(&timer);
                let ghost mut changed: Option<A::State> = None;
                match state {
                    Cow::Owned(next_actor_state) => {
                        proof {
                            changed = Some(next_actor_state);
                        }
                        next_sys_state.actor_states.set(index, Arc::new(next_actor_state));
                    },
                    Cow::Borrowed(_) => {},
                }
                let ghost m = next_sys_state;
                let ghost cmds = out@;
                self.process_commands(id, out, &mut next_sys_state, record_msg_out);
                proof {
                    assert(copied(last_sys_state, &c));
                    assert(carried_out(&m, &next_sys_state, index as int, id, cmds, *record_msg_out, self.cfg));
                    assert(self.timed_out(last_sys_state, id, timer, &c, &m, changed, cmds, &next_sys_state, *record_msg_out));
                    assert(act->Timeout_0 == id && act->Timeout_1 == timer);
                    let r = Some(next_sys_state);
                    assert(self.timed_out(last_sys_state, act->Timeout_0, act->Timeout_1, &c, &m, changed, cmds, &r->0, *record_msg_out));
                }
                Some(next_sys_state)
            },
            ActorModelAction::Crash(id) => {
                let index = usize::from(id);
                let mut next_sys_state = last_sys_state.clone();
                let ghost c = next_sys_state;
                next_sys_state.timers_set[index].cancel_all();
                next_sys_state.random_choices[index].clear();
                next_sys_state.crashed.set(index, true);
                proof {
                    assert(self.crashed_at(last_sys_state, id, &c, &next_sys_state));
                    assert(act->Crash_0 == id);
                    let r = Some(next_sys_state);
                    assert(self.crashed_at(last_sys_state, act->Crash_0, &c, &r->0));
                }
                Some(next_sys_state)
            },
            ActorModelAction::Recover(id) => {
                let index = usize::from(id);
                let mut out = Out::new();
                let state = self.actors[index].on_start(id, &last_sys_state.actor_storages[index], &mut out);
                let ghost st = state;
                let mut next_sys_state = last_sys_state.clone();
                let ghost c = next_sys_state;
                next_sys_state.actor_states.set(index, Arc::new(state));
                next_sys_state.crashed.set(index, false);
                let ghost m = next_sys_state;
                let ghost cmds = out@;
                self.process_commands(id, out, &mut next_sys_state, record_msg_out);
                proof {
                    assert(copied(last_sys_state, &c));
                    assert(carried_out(&m, &next_sys_state, index as int, id, cmds, *record_msg_out, self.cfg));
                    assert(self.recovered(last_sys_state, id, &c, &m, st, cmds, &next_sys_state, *record_msg_out));
                    assert(act->Recover_0 == id);
                    let r = Some(next_sys_state);
                    assert(self.recovered(last_sys_state, act->Recover_0, &c, &m, st, cmds, &r->0, *record_msg_out));
                }
                Some(next_sys_state)
            },
            ActorModelAction::SelectRandom { actor, key, random } => {
                let actor_index = usize::from(actor);
                let last_actor_state: &A::State = &*last_sys_state.actor_states[actor_index];
                let mut state = Cow::Borrowed(last_actor_state);
                let mut out = Out::new();
                self.actors[actor_index].on_random(actor, &mut state, &random, &mut out);
                let mut next_sys_state = last_sys_state.clone();
                let ghost c = next_sys_state;
                next_sys_state.random_choices[actor_index].remove(&key);
                let ghost mut changed: Option<A::State> = None;
                match state {
                    Cow::Owned(next_actor_state) => {
                        proof {
                            changed = Some(next_actor_state);
                        }
                        next_sys_state.actor_states.set(actor_index, Arc::new(next_actor_state));
                    },
                    Cow::Borrowed(_) => {},
                }
                let ghost m = next_sys_state;
                let ghost cmds = out@;
                self.process_commands(actor, out, &mut next_sys_state, record_msg_out);
                proof {
                    assert(copied(last_sys_state, &c));
                    assert(carried_out(&m, &next_sys_state, actor_index as int, actor, cmds, *record_msg_out, self.cfg));
                    assert(self.selected(last_sys_state, actor, key@, &c, &m, changed, cmds, &next_sys_state, *record_msg_out));
                    assert(act->actor == actor && act->key == key);
                    let r = Some(next_sys_state);
                    assert(self.selected(last_sys_state, act->actor, act->key@, &c, &m, changed, cmds, &r->0, *record_msg_out));
                }
                Some(next_sys_state)
            },
        }
    }

    /// Updates the actor state, sends messages, and configures the timers.
    fn process_commands<F>(&self, id: Id, commands: Out<A>, state: &mut ActorModelState<A, H>, record_out: &F)
        where F: Fn(&C, &H, Envelope<&A::Msg>) -> Option<H>,
        requires
            0 <= index_of(id) < old(state).timers_set@.len(),
            index_of(id) < old(state).random_choices@.len(),
            index_of(id) < old(state).actor_storages@.len(),
            forall|c: &C, h: &H, e: Envelope<&A::Msg>| call_requires(*record_out, (c, h, e)),
        ensures
            carried_out(&*old(state), &*final(state), index_of(id), id, commands@, *record_out, self.cfg),
    {
        let index = usize::from(id);
        let ghost all = commands@;
        let ghost start = *state;
        let mut rest = commands.into_commands();
        let mut rev: Vec<Command<A::Msg, A::Timer, A::Random, A::Storage>> = Vec::new();
        while rest.len() > 0
            invariant
                rev@.len() + rest@.len() == all.len(),
                forall|j: int| 0 <= j < rest@.len() ==> rest@[j] == all[j],
                forall|j: int|
                    0 <= j < rev@.len() ==> #[trigger] rev@[j] == all[all.len() - 1 - j],
            decreases rest@.len(),
        {
            let x = rest.pop().unwrap();
            rev.push(x);
        }
        let mut k: usize = 0;
        let n = rev.len();
        proof {
            assert(all.take(0) == Seq::<Command<A::Msg, A::Timer, A::Random, A::Storage>>::empty());
            assert(state.actor_storages@.update(index as int, state.actor_storages@[index as int]) == state.actor_storages@);
        }
        while rev.len() > 0
            invariant
                n == all.len(),
                k + rev@.len() == n,
                index == index_of(id),
                forall|j: int|
                    0 <= j < rev@.len() ==> #[trigger] rev@[j] == all[all.len() - 1 - j],
                0 <= index < start.timers_set@.len(),
                index < start.random_choices@.len(),
                index < start.actor_storages@.len(),
                forall|c: &C, h: &H, e: Envelope<&A::Msg>| call_requires(*record_out, (c, h, e)),
                carried_out(&start, &*state, index as int, id, all.take(k as int), *record_out, self.cfg),
            decreases rev@.len(),
        {
            let c = rev.pop().unwrap();
            let ghost prev = *state;
            proof {
                assert(c == all[k as int]);
                assert(all.take(k + 1).drop_last() == all.take(k as int));
                assert(all.take(k + 1).last() == c);
            }
            match c {
                Command::Send(dst, msg) => {
                    let h = record_out(&self.cfg, &state.history, Envelope { src: id, dst, msg: &msg });
                    match h {
                        Some(h) => {
                            state.history = h;
                        },
                        None => {},
                    }
                    state.network.send(Envelope { src: id, dst, msg });
                    proof {
                        let t = all.take(k + 1);
                        assert(records(*record_out, self.cfg, prev.history, Envelope { src: id, dst, msg }, state.history));
                        assert(t.drop_last() == all.take(k as int));
                        assert(records_sends(*record_out, self.cfg, id, start.history, t.drop_last(), prev.history));
                    }
                },
                Command::SetTimer(timer, _) => {
                    state.timers_set[index].set(timer);
                },
                Command::CancelTimer(timer) => {
                    state.timers_set[index].cancel(&timer);
                },
                Command::ChooseRandom(key, random) => {
                    if random.len() == 0 {
                        state.random_choices[index].remove(&key);
                    } else {
                        state.random_choices[index].insert(key, random);
                    }
                },
                Command::Save(storage) => {
                    state.actor_storages.set(index, Some(storage));
                },
            }
            proof {
                let t = all.take(k + 1);
                assert(t.drop_last() == all.take(k as int));
                assert(records_sends(*record_out, self.cfg, id, start.history, t.drop_last(), prev.history));
                assert(forall|j: int| 0 <= j < start.timers_set@.len() && j != index ==> #[trigger] state.timers_set@[j] == start.timers_set@[j]);
                assert(forall|j: int| 0 <= j < start.random_choices@.len() && j != index ==> #[trigger] state.random_choices@[j] == start.random_choices@[j]);
                assert(state.actor_storages@ == start.actor_storages@.update(index as int, storage_after(start.actor_storages@[index as int], t)));
                assert(records_sends(*record_out, self.cfg, id, start.history, t, state.history));
            }
            k = k + 1;
        }
        proof {
            assert(all.take(n as int) == all);
        }
    }
}

} // verus!
