//! An ordered reliable link (ORL) based loosely on the "perfect link" described in "Introduction
//! to Reliable and Secure Distributed Programming" by Cachin, Guerraoui, and Rodrigues (with
//! enhancements to provide ordering).
//!
//! Order is maintained for messages between a source/destination pair. Order is not maintained
//! between different destinations or different sources.

use crate::actor::{current, current_state, is_no_op, Actor, Command, Id, Out};
use crate::semantics::assoc_list::{
    assoc_map, distinct_keys, has_key, lemma_assoc_index, lemma_assoc_insert, lemma_assoc_remove,
    lemma_assoc_update,
};
use crate::semantics::{clone_exact, exact_clone, exact_eq};
use vstd::std_specs::cmp::{PartialEqSpec, PartialEqSpecImpl};
use core::fmt::Debug;
use core::hash::Hash;
use std::borrow::Cow;
use std::ops::Range;
use std::time::Duration;
use vstd::prelude::*;

verus! {

/// Wraps an actor with logic to:
/// 1. Maintain message order.
/// 2. Resend lost messages.
/// 3. Avoid message redelivery.
pub struct ActorWrapper<A: Actor> {
    pub resend_interval: Range<Duration>,
    pub wrapped_actor: A,
}

impl<A: Actor + Clone> Clone for ActorWrapper<A> {
    /// The same resend interval, and a clone of the wrapped actor.
    fn clone(&self) -> (r: Self)
        ensures
            r.resend_interval == self.resend_interval,
            cloned(self.wrapped_actor, r.wrapped_actor),
    {
        ActorWrapper {
            resend_interval: self.resend_interval.start..self.resend_interval.end,
            wrapped_actor: self.wrapped_actor.clone(),
        }
    }
}

/// Message sequencer.
pub type Sequencer = u64;

/// An envelope for ORL messages.
#[derive(Clone, Debug, Eq, Hash, Ord, PartialEq, PartialOrd)]
pub enum MsgWrapper<Msg> {
    Deliver(Sequencer, Msg),
    Ack(Sequencer),
}

/// Maintains state for the ORL: the sequencer for the next message sent, the messages sent and
/// not yet acknowledged (by sequencer, in increasing order), the last sequencer delivered from each
/// sender (in increasing order of sender), and the state and storage of the wrapped actor.
#[derive(Clone, Debug, Eq, Hash, PartialEq)]
pub struct StateWrapper<Msg, State, Storage> {
    // send side
    next_send_seq: Sequencer,
    msgs_pending_ack: Vec<(Sequencer, (Id, Msg))>,
    // receive (ack'ing) side
    last_delivered_seqs: Vec<(Id, Sequencer)>,
    wrapped_state: State,
    wrapped_storage: Option<Storage>,
}

/// Maintains storage for the ORL: what the link must remember across a restart.
#[derive(Clone, Debug, Eq, Hash, PartialEq)]
pub struct StorageWrapper<Msg, Storage> {
    // send side
    next_send_seq: Sequencer,
    msgs_pending_ack: Vec<(Sequencer, (Id, Msg))>,
    // receive (ack'ing) side
    last_delivered_seqs: Vec<(Id, Sequencer)>,
    wrapped_storage: Option<Storage>,
}

/// Pairs keyed by sequencer, in strictly increasing order of sequencer.
pub open spec fn sorted_by_sequencer<X>(s: Seq<(Sequencer, X)>) -> bool {
    forall|i: int, j: int| 0 <= i < j < s.len() ==> (#[trigger] s[i]).0 < (#[trigger] s[j]).0
}

/// Pairs keyed by actor, in strictly increasing order of the identifiers' numbers.
pub open spec fn sorted_by_id<X>(s: Seq<(Id, X)>) -> bool {
    forall|i: int, j: int| 0 <= i < j < s.len() ==> (#[trigger] s[i]).0@ < (#[trigger] s[j]).0@
}

impl<Msg, State, Storage> StateWrapper<Msg, State, Storage> {
    /// The sequencer for the next message sent.
    pub closed spec fn next_seq(&self) -> Sequencer {
        self.next_send_seq
    }

    /// The messages sent and not yet acknowledged: each sequencer to its destination and
    /// message.
    pub closed spec fn pending(&self) -> Map<Sequencer, (Id, Msg)> {
        assoc_map(self.msgs_pending_ack@)
    }

    /// The messages sent and not yet acknowledged, in increasing order of sequencer.
    pub closed spec fn pending_list(&self) -> Seq<(Sequencer, (Id, Msg))> {
        self.msgs_pending_ack@
    }

    /// The last sequencer delivered from each sender.
    pub closed spec fn delivered(&self) -> Map<Id, Sequencer> {
        assoc_map(self.last_delivered_seqs@)
    }

    /// The state of the wrapped actor.
    pub closed spec fn wrapped(&self) -> State {
        self.wrapped_state
    }

    /// The storage of the wrapped actor, if it saved any.
    pub closed spec fn saved(&self) -> Option<Storage> {
        self.wrapped_storage
    }

    /// Both lists are kept in increasing order of their keys, so that equal maps are held alike.
    pub closed spec fn well_formed(&self) -> bool {
        &&& sorted_by_sequencer(self.msgs_pending_ack@)
        &&& sorted_by_id(self.last_delivered_seqs@)
    }

    /// The last sequencer delivered from `src`, or 0 if none was.
    pub open spec fn delivered_from(&self, src: Id) -> Sequencer {
        if self.delivered().contains_key(src) {
            self.delivered()[src]
        } else {
            0
        }
    }

    /// The state of the wrapped actor.
    pub fn wrapped_state(&self) -> (r: &State)
        ensures
            *r == self.wrapped(),
    {
        &self.wrapped_state
    }
}

impl<Msg, Storage> StorageWrapper<Msg, Storage> {
    /// The sequencer for the next message sent.
    pub closed spec fn next_seq(&self) -> Sequencer {
        self.next_send_seq
    }

    /// The messages sent and not yet acknowledged.
    pub closed spec fn pending(&self) -> Map<Sequencer, (Id, Msg)> {
        assoc_map(self.msgs_pending_ack@)
    }

    /// The last sequencer delivered from each sender.
    pub closed spec fn delivered(&self) -> Map<Id, Sequencer> {
        assoc_map(self.last_delivered_seqs@)
    }

    /// The storage of the wrapped actor, if it saved any.
    pub closed spec fn saved(&self) -> Option<Storage> {
        self.wrapped_storage
    }

    /// Both lists are kept in increasing order of their keys.
    pub closed spec fn well_formed(&self) -> bool {
        &&& sorted_by_sequencer(self.msgs_pending_ack@)
        &&& sorted_by_id(self.last_delivered_seqs@)
    }

    /// This storage holds what `state` must remember: its sequencers, its unacknowledged
    /// messages and the storage of the wrapped actor.
    pub closed spec fn stores<State>(&self, state: StateWrapper<Msg, State, Storage>) -> bool {
        &&& self.next_send_seq == state.next_send_seq
        &&& self.msgs_pending_ack@ == state.msgs_pending_ack@
        &&& self.last_delivered_seqs@ == state.last_delivered_seqs@
        &&& self.wrapped_storage == state.wrapped_storage
    }
}

/// The sequencer that follows `s`, wrapping past the largest.
pub open spec fn next_sequencer(s: Sequencer) -> Sequencer {
    if s == u64::MAX {
        0
    } else {
        (s + 1) as u64
    }
}

/// The sequencer after the link numbers, from `s` on, the messages that `cmds` send.
pub open spec fn sequencer_after<M, T, R, S>(cmds: Seq<Command<M, T, R, S>>, s: Sequencer) -> Sequencer
    decreases cmds.len(),
{
    if cmds.len() == 0 {
        s
    } else {
        let before = sequencer_after(cmds.drop_last(), s);
        if cmds.last() is Send {
            next_sequencer(before)
        } else {
            before
        }
    }
}

/// What the link emits for a command `c` of the wrapped actor, numbered `s` if it sends: a
/// timer is tagged as the user's, a message is sent for delivery under `s`, and a save or a
/// random choice (which the link does not support) emits nothing.
pub open spec fn link_commands_for<M, T, R, S, SW>(c: Command<M, T, R, S>, s: Sequencer) -> Seq<
    Command<MsgWrapper<M>, TimerWrapper<T>, R, SW>,
> {
    match c {
        Command::CancelTimer(t) => seq![Command::CancelTimer(TimerWrapper::User(t))],
        Command::SetTimer(t, d) => seq![Command::SetTimer(TimerWrapper::User(t), d)],
        Command::Send(dst, m) => seq![Command::Send(dst, MsgWrapper::Deliver(s, m))],
        Command::ChooseRandom(_, _) => seq![],
        Command::Save(_) => seq![],
    }
}

/// What the link emits, in order, for the commands `cmds` of the wrapped actor, numbering the
/// messages sent from `s` on.
pub open spec fn link_output<M, T, R, S, SW>(cmds: Seq<Command<M, T, R, S>>, s: Sequencer) -> Seq<
    Command<MsgWrapper<M>, TimerWrapper<T>, R, SW>,
>
    decreases cmds.len(),
{
    if cmds.len() == 0 {
        seq![]
    } else {
        link_output(cmds.drop_last(), s) + link_commands_for(
            cmds.last(),
            sequencer_after(cmds.drop_last(), s),
        )
    }
}

/// The unacknowledged messages after the link sends those of `cmds`, numbered from `s` on.
pub open spec fn pending_after<M, T, R, S>(
    cmds: Seq<Command<M, T, R, S>>,
    s: Sequencer,
    pending: Map<Sequencer, (Id, M)>,
) -> Map<Sequencer, (Id, M)>
    decreases cmds.len(),
{
    if cmds.len() == 0 {
        pending
    } else {
        let before = pending_after(cmds.drop_last(), s, pending);
        match cmds.last() {
            Command::Send(dst, m) => before.insert(sequencer_after(cmds.drop_last(), s), (dst, m)),
            _ => before,
        }
    }
}

/// The storage of the wrapped actor after it saves what `cmds` save: the last one saved.
pub open spec fn saved_after<M, T, R, S>(cmds: Seq<Command<M, T, R, S>>, saved: Option<S>) -> Option<S>
    decreases cmds.len(),
{
    if cmds.len() == 0 {
        saved
    } else {
        match cmds.last() {
            Command::Save(x) => Some(x),
            _ => saved_after(cmds.drop_last(), saved),
        }
    }
}

/// Some command of `cmds` sends or saves, so that what the link must remember changes.
pub open spec fn persists<M, T, R, S>(cmds: Seq<Command<M, T, R, S>>) -> bool
    decreases cmds.len(),
{
    if cmds.len() == 0 {
        false
    } else {
        persists(cmds.drop_last()) || cmds.last() is Send || cmds.last() is Save
    }
}

/// The last sequencer delivered from `src` according to `list`, or 0 if none was.
fn last_delivered(list: &Vec<(Id, Sequencer)>, src: Id) -> (r: Sequencer)
    ensures
        distinct_keys(list@) ==> r == (if assoc_map(list@).contains_key(src) {
            assoc_map(list@)[src]
        } else {
            0
        }),
{
    let mut i: usize = 0;
    while i < list.len()
        invariant
            i <= list@.len(),
            forall|j: int| 0 <= j < i ==> (#[trigger] list@[j]).0 != src,
        decreases list@.len() - i,
    {
        if list[i].0 == src {
            proof {
                if distinct_keys(list@) {
                    lemma_assoc_index(list@, i as int);
                }
            }
            return list[i].1;
        }
        i = i + 1;
    }
    0
}

/// Records `seq` as the last sequencer delivered from `src`, keeping the order by sender.
fn set_delivered(list: &mut Vec<(Id, Sequencer)>, src: Id, seq: Sequencer)
    ensures
        sorted_by_id(old(list)@) ==> sorted_by_id(final(list)@) && assoc_map(final(list)@)
            == assoc_map(old(list)@).insert(src, seq),
{
    let mut i: usize = 0;
    while i < list.len() && list[i].0.value() < src.value()
        invariant
            i <= list@.len(),
            forall|j: int| 0 <= j < i ==> (#[trigger] list@[j]).0@ < src@,
        decreases list@.len() - i,
    {
        i = i + 1;
    }
    let ghost s = list@;
    if i < list.len() && list[i].0.value() == src.value() {
        proof {
            crate::actor::id_view_injective(s[i as int].0, src);
        }
        list.set(i, (src, seq));
        proof {
            if sorted_by_id(s) {
                assert(distinct_keys(s));
                lemma_assoc_update(s, i as int, seq);
                assert(list@ =~= s.update(i as int, (s[i as int].0, seq)));
            }
        }
    } else {
        list.insert(i, (src, seq));
        proof {
            if sorted_by_id(s) {
                assert(distinct_keys(s));
                assert forall|j: int| i <= j < s.len() implies src@ < (#[trigger] s[j]).0@ by {
                    if j > i {
                        assert(s[i as int].0@ < s[j].0@);
                    }
                }
                assert(!has_key(s, src));
                lemma_assoc_insert(s, i as int, src, seq);
                let t = s.insert(i as int, (src, seq));
                assert forall|a: int, b: int| 0 <= a < b < t.len() implies (#[trigger] t[a]).0@ < (
                #[trigger] t[b]).0@ by {
                    if a < i && b == i {
                    } else if a == i {
                        assert(t[b] == s[b - 1]);
                    } else {
                        let sa = if a < i { a } else { a - 1 };
                        let sb = if b < i { b } else { b - 1 };
                        assert(t[a] == s[sa] && t[b] == s[sb]);
                    }
                }
            }
        }
    }
}

/// Records `entry` as the unacknowledged message with sequencer `seq`, keeping the order by
/// sequencer.
fn put_pending<M>(list: &mut Vec<(Sequencer, (Id, M))>, seq: Sequencer, entry: (Id, M))
    ensures
        sorted_by_sequencer(old(list)@) ==> sorted_by_sequencer(final(list)@) && assoc_map(
            final(list)@,
        ) == assoc_map(old(list)@).insert(seq, entry),
{
    let mut i: usize = 0;
    while i < list.len() && list[i].0 < seq
        invariant
            i <= list@.len(),
            forall|j: int| 0 <= j < i ==> (#[trigger] list@[j]).0 < seq,
        decreases list@.len() - i,
    {
        i = i + 1;
    }
    let ghost s = list@;
    if i < list.len() && list[i].0 == seq {
        list.set(i, (seq, entry));
        proof {
            if sorted_by_sequencer(s) {
                assert(distinct_keys(s));
                lemma_assoc_update(s, i as int, entry);
                assert(list@ =~= s.update(i as int, (s[i as int].0, entry)));
            }
        }
    } else {
        list.insert(i, (seq, entry));
        proof {
            if sorted_by_sequencer(s) {
                assert(distinct_keys(s));
                assert forall|j: int| i <= j < s.len() implies seq < (#[trigger] s[j]).0 by {
                    if j > i {
                        assert(s[i as int].0 < s[j].0);
                    }
                }
                assert(!has_key(s, seq));
                lemma_assoc_insert(s, i as int, seq, entry);
                let t = s.insert(i as int, (seq, entry));
                assert forall|a: int, b: int| 0 <= a < b < t.len() implies (#[trigger] t[a]).0 < (
                #[trigger] t[b]).0 by {
                    if a < i && b == i {
                    } else if a == i {
                        assert(t[b] == s[b - 1]);
                    } else {
                        let sa = if a < i { a } else { a - 1 };
                        let sb = if b < i { b } else { b - 1 };
                        assert(t[a] == s[sa] && t[b] == s[sb]);
                    }
                }
            }
        }
    }
}

/// Forgets the unacknowledged message with sequencer `seq`, if any.
fn drop_pending<M>(list: &mut Vec<(Sequencer, (Id, M))>, seq: Sequencer)
    ensures
        sorted_by_sequencer(old(list)@) ==> sorted_by_sequencer(final(list)@) && assoc_map(
            final(list)@,
        ) == assoc_map(old(list)@).remove(seq),
{
    let mut i: usize = 0;
    while i < list.len() && list[i].0 != seq
        invariant
            i <= list@.len(),
            forall|j: int| 0 <= j < i ==> (#[trigger] list@[j]).0 != seq,
        decreases list@.len() - i,
    {
        i = i + 1;
    }
    let ghost s = list@;
    if i < list.len() {
        list.remove(i);
        proof {
            if sorted_by_sequencer(s) {
                assert(distinct_keys(s));
                lemma_assoc_remove(s, i as int);
                let t = s.remove(i as int);
                assert forall|a: int, b: int| 0 <= a < b < t.len() implies (#[trigger] t[a]).0 < (
                #[trigger] t[b]).0 by {
                    let sa = if a < i { a } else { a + 1 };
                    let sb = if b < i { b } else { b + 1 };
                    assert(t[a] == s[sa] && t[b] == s[sb]);
                }
            }
        }
    } else {
        proof {
            assert(!has_key(s, seq));
            assert(assoc_map(s).remove(seq) =~= assoc_map(s));
        }
    }
}

/// A copy of the unacknowledged messages, each message cloned.
fn copy_pending<M: Clone>(list: &Vec<(Sequencer, (Id, M))>) -> (r: Vec<(Sequencer, (Id, M))>)
    ensures
        r@.len() == list@.len(),
        forall|j: int| 0 <= j < list@.len() ==> (#[trigger] r@[j]).0 == list@[j].0 && r@[j].1.0 == list@[j].1.0,
        exact_clone::<M>() ==> r@ == list@,
{
    let mut r: Vec<(Sequencer, (Id, M))> = Vec::new();
    let mut i: usize = 0;
    while i < list.len()
        invariant
            i <= list@.len(),
            r@.len() == i,
            forall|j: int| 0 <= j < i ==> (#[trigger] r@[j]).0 == list@[j].0 && r@[j].1.0 == list@[j].1.0,
            exact_clone::<M>() ==> forall|j: int| 0 <= j < i ==> #[trigger] r@[j] == list@[j],
        decreases list@.len() - i,
    {
        r.push((list[i].0, (list[i].1.0, clone_exact(&list[i].1.1))));
        i = i + 1;
    }
    proof {
        if exact_clone::<M>() {
            assert(r@ =~= list@);
        }
    }
    r
}

/// A copy of the delivered sequencers.
fn copy_delivered(list: &Vec<(Id, Sequencer)>) -> (r: Vec<(Id, Sequencer)>)
    ensures
        r@ == list@,
{
    let mut r: Vec<(Id, Sequencer)> = Vec::new();
    let mut i: usize = 0;
    while i < list.len()
        invariant
            i <= list@.len(),
            r@ == list@.take(i as int),
        decreases list@.len() - i,
    {
        r.push((list[i].0, list[i].1));
        proof {
            assert(list@.take(i + 1) =~= list@.take(i as int).push(list@[i as int]));
        }
        i = i + 1;
    }
    proof {
        assert(list@.take(i as int) =~= list@);
    }
    r
}

/// A clone of the wrapped actor's storage, if any.
fn copy_saved<S: Clone>(saved: &Option<S>) -> (r: Option<S>)
    ensures
        r is Some == saved is Some,
        exact_clone::<S>() ==> r == *saved,
{
    match saved {
        Some(x) => Some(clone_exact(x)),
        None => None,
    }
}

/// What `state` must remember across a restart.
fn storage_of<Msg: Clone, State, Storage: Clone>(state: &StateWrapper<Msg, State, Storage>) -> (r:
    StorageWrapper<Msg, Storage>)
    ensures
        r.next_seq() == state.next_seq(),
        r.delivered() == state.delivered(),
        state.well_formed() ==> r.well_formed(),
        exact_clone::<Msg>() && exact_clone::<Storage>() ==> r.stores(*state),
{
    let r = StorageWrapper {
        next_send_seq: state.next_send_seq,
        msgs_pending_ack: copy_pending(&state.msgs_pending_ack),
        last_delivered_seqs: copy_delivered(&state.last_delivered_seqs),
        wrapped_storage: copy_saved(&state.wrapped_storage),
    };
    proof {
        assert(sorted_by_sequencer(state.msgs_pending_ack@) ==> sorted_by_sequencer(r.msgs_pending_ack@));
    }
    r
}

/// Wrapper for timers.
#[derive(Debug, Eq, Hash)]
pub enum TimerWrapper<Timer> {
    Network,
    User(Timer),
}

impl<Timer: PartialEq> PartialEq for TimerWrapper<Timer> {
    fn eq(&self, other: &Self) -> (r: bool) {
        match (self, other) {
            (TimerWrapper::Network, TimerWrapper::Network) => true,
            (TimerWrapper::User(a), TimerWrapper::User(b)) => a == b,
            _ => false,
        }
    }
}

impl<Timer: PartialEq> PartialEqSpecImpl for TimerWrapper<Timer> {
    open spec fn obeys_eq_spec() -> bool {
        <Timer as PartialEqSpec>::obeys_eq_spec()
    }

    open spec fn eq_spec(&self, other: &Self) -> bool {
        match (self, other) {
            (TimerWrapper::Network, TimerWrapper::Network) => true,
            (TimerWrapper::User(a), TimerWrapper::User(b)) => <Timer as PartialEqSpec>::eq_spec(a, b),
            _ => false,
        }
    }
}

impl<Timer: Clone> Clone for TimerWrapper<Timer> {
    fn clone(&self) -> (r: Self)
        ensures
            exact_clone::<Timer>() ==> r == *self,
    {
        match self {
            TimerWrapper::Network => TimerWrapper::Network,
            TimerWrapper::User(t) => TimerWrapper::User(clone_exact(t)),
        }
    }
}

/// Wrapped timers compare and clone exactly when the wrapped actor's timers do.
pub proof fn timer_wrapper_is_exact<Timer: PartialEq + Clone>()
    requires
        exact_eq::<Timer>(),
        exact_clone::<Timer>(),
    ensures
        exact_eq::<TimerWrapper<Timer>>(),
        exact_clone::<TimerWrapper<Timer>>(),
{
}

/// The duration of `n` seconds, as std's `Duration::from_secs` builds it.
pub uninterp spec fn secs(n: u64) -> Duration;

/// std's `Duration::from_secs`: the duration of `n` seconds, which depends on `n` alone.
#[verifier::external_body]
fn duration_from_secs(n: u64) -> (r: Duration)
    ensures
        r == secs(n),
{
    Duration::from_secs(n)
}

impl<A: Actor> ActorWrapper<A> {
    /// Wraps an actor, resending unacknowledged messages every one to two seconds.
    pub fn with_default_timeout(wrapped_actor: A) -> (r: Self)
        ensures
            r.wrapped_actor == wrapped_actor,
            r.resend_interval.start == secs(1),
            r.resend_interval.end == secs(2),
    {
        ActorWrapper { resend_interval: duration_from_secs(1)..duration_from_secs(2), wrapped_actor }
    }
}


/// The command `c` delivers the unacknowledged message `entry` again: to its destination, under
/// its sequencer, the message a clone.
pub open spec fn redelivers<M: Clone, T, R, SW>(
    c: Command<MsgWrapper<M>, T, R, SW>,
    entry: (Sequencer, (Id, M)),
) -> bool {
    c matches Command::Send(dst, MsgWrapper::Deliver(s, m)) && dst == entry.1.0 && s == entry.0
        && cloned(entry.1.1, m)
}

/// The commands `after` are `before` followed by `cmds` and then, if `save`, by one save of a
/// storage that holds what `state` must remember (when messages and storages clone exactly).
pub open spec fn then_saves<A: Actor>(
    before: Seq<Command<MsgWrapper<A::Msg>, TimerWrapper<A::Timer>, A::Random, StorageWrapper<A::Msg, A::Storage>>>,
    after: Seq<Command<MsgWrapper<A::Msg>, TimerWrapper<A::Timer>, A::Random, StorageWrapper<A::Msg, A::Storage>>>,
    cmds: Seq<Command<MsgWrapper<A::Msg>, TimerWrapper<A::Timer>, A::Random, StorageWrapper<A::Msg, A::Storage>>>,
    save: bool,
    state: StateWrapper<A::Msg, A::State, A::Storage>,
) -> bool {
    &&& after.len() == before.len() + cmds.len() + if save { 1int } else { 0int }
    &&& after.take((before.len() + cmds.len()) as int) == before + cmds
    &&& save ==> (after.last() matches Command::Save(sw) && (exact_clone::<A::Msg>()
        && exact_clone::<A::Storage>() ==> sw.stores(state)))
}

/// Passes the commands of the wrapped actor on through the link: its timers tagged as its own,
/// each message it sends numbered with the next sequencer and remembered until acknowledged, and
/// what it saves kept as its storage; a random choice, which the link does not support, is
/// dropped. If anything was sent or saved, the link then saves what it must remember.
fn process_output<A: Actor>(
    state: &mut StateWrapper<A::Msg, A::State, A::Storage>,
    wrapped_out: Out<A>,
    o: &mut Vec<Command<MsgWrapper<A::Msg>, TimerWrapper<A::Timer>, A::Random, StorageWrapper<A::Msg, A::Storage>>>,
)
    ensures
        final(state).wrapped() == old(state).wrapped(),
        final(state).delivered() == old(state).delivered(),
        final(state).next_seq() == sequencer_after(wrapped_out@, old(state).next_seq()),
        final(state).saved() == saved_after(wrapped_out@, old(state).saved()),
        old(state).well_formed() ==> final(state).well_formed(),
        old(state).well_formed() && exact_clone::<A::Msg>() ==> final(state).pending()
            == pending_after(wrapped_out@, old(state).next_seq(), old(state).pending()),
        then_saves::<A>(
            old(o)@,
            final(o)@,
            link_output(wrapped_out@, old(state).next_seq()),
            persists(wrapped_out@),
            *final(state),
        ),
        final(o)@.len() >= old(o)@.len(),
        final(o)@.take(old(o)@.len() as int) == old(o)@,
{
    let ghost all = wrapped_out@;
    let ghost s0 = state.next_send_seq;
    let ghost p0 = assoc_map(state.msgs_pending_ack@);
    let ghost st0 = state.wrapped_storage;
    let ghost o0 = o@;
    let ghost wf0 = sorted_by_sequencer(state.msgs_pending_ack@);
    let ghost w0 = state.wrapped_state;
    let ghost d0 = state.last_delivered_seqs@;
    let mut cmds = wrapped_out.into_commands();
    let mut should_save = false;
    proof {
        assert(all.skip(0) =~= all);
        assert(all.take(0) =~= Seq::<Command<A::Msg, A::Timer, A::Random, A::Storage>>::empty());
    }
    while cmds.len() > 0
        invariant
            cmds@.len() <= all.len(),
            cmds@ == all.skip(all.len() - cmds@.len()),
            state.wrapped_state == w0,
            state.last_delivered_seqs@ == d0,
            state.next_send_seq == sequencer_after(all.take(all.len() - cmds@.len()), s0),
            state.wrapped_storage == saved_after(all.take(all.len() - cmds@.len()), st0),
            wf0 ==> sorted_by_sequencer(state.msgs_pending_ack@),
            wf0 && exact_clone::<A::Msg>() ==> assoc_map(state.msgs_pending_ack@) == pending_after(
                all.take(all.len() - cmds@.len()),
                s0,
                p0,
            ),
            o@ == o0 + link_output::<A::Msg, A::Timer, A::Random, A::Storage, StorageWrapper<A::Msg, A::Storage>>(all.take(all.len() - cmds@.len()), s0),
            should_save == persists(all.take(all.len() - cmds@.len())),
        decreases cmds@.len(),
    {
        let ghost n = all.len() - cmds@.len();
        let ghost done = all.take(n);
        let c = cmds.remove(0);
        proof {
            assert(all.take(n + 1).drop_last() =~= done);
            assert(cmds@ =~= all.skip(n + 1));
            assert(c == all[n]);
        }
        let ghost next = all.take(n + 1);
        match c {
            Command::CancelTimer(timer) => {
                o.push(Command::CancelTimer(TimerWrapper::User(timer)));
            },
            Command::SetTimer(timer, duration) => {
                o.push(Command::SetTimer(TimerWrapper::User(timer), duration));
            },
            Command::Send(dst, inner_msg) => {
                let seq = state.next_send_seq;
                let copy = clone_exact(&inner_msg);
                o.push(Command::Send(dst, MsgWrapper::Deliver(seq, inner_msg)));
                put_pending(&mut state.msgs_pending_ack, seq, (dst, copy));
                state.next_send_seq = if seq == u64::MAX {
                    0
                } else {
                    seq + 1
                };
                should_save = true;
            },
            Command::ChooseRandom(_, _) => {},
            Command::Save(storage) => {
                should_save = true;
                state.wrapped_storage = Some(storage);
            },
        }
        proof {
            assert(next.last() == all[n]);
            assert(o@ =~= o0 + link_output::<A::Msg, A::Timer, A::Random, A::Storage, StorageWrapper<A::Msg, A::Storage>>(next, s0));
        }
    }
    proof {
        assert(all.take(all.len() as int) =~= all);
    }
    if should_save {
        let sw = storage_of(state);
        let ghost before_save = o@;
        o.push(Command::Save(sw));
        proof {
            assert(o@.take(before_save.len() as int) =~= before_save);
            assert(o@.take(o0.len() as int) =~= o0);
        }
    } else {
        proof {
            assert(o@.take(o@.len() as int) =~= o@);
            assert(o@.take(o0.len() as int) =~= o0);
        }
    }
}

impl<A: Actor> ActorWrapper<A> {
    /// `state` and the commands `after` are what starting the link gives when the wrapped actor
    /// starts with the commands `cmds`: the resend timer is set, then the link starts from
    /// `storage` (or afresh: sequencer 1, nothing pending, nothing delivered) and passes `cmds`
    /// on.
    pub open spec fn started_with(
        &self,
        storage: Option<StorageWrapper<A::Msg, A::Storage>>,
        cmds: Seq<Command<A::Msg, A::Timer, A::Random, A::Storage>>,
        before: Seq<Command<MsgWrapper<A::Msg>, TimerWrapper<A::Timer>, A::Random, StorageWrapper<A::Msg, A::Storage>>>,
        after: Seq<Command<MsgWrapper<A::Msg>, TimerWrapper<A::Timer>, A::Random, StorageWrapper<A::Msg, A::Storage>>>,
        state: StateWrapper<A::Msg, A::State, A::Storage>,
    ) -> bool {
        let next = match storage {
            Some(sw) => sw.next_seq(),
            None => 1,
        };
        let pending = match storage {
            Some(sw) => sw.pending(),
            None => Map::empty(),
        };
        let delivered = match storage {
            Some(sw) => sw.delivered(),
            None => Map::empty(),
        };
        let saved = match storage {
            Some(sw) => sw.saved(),
            None => None,
        };
        &&& state.next_seq() == sequencer_after(cmds, next)
        &&& state.delivered() == delivered
        &&& exact_clone::<A::Storage>() ==> state.saved() == saved_after(cmds, saved)
        &&& exact_clone::<A::Msg>() && (storage matches Some(sw) ==> sw.well_formed())
            ==> state.pending() == pending_after(cmds, next, pending)
        &&& then_saves::<A>(
            before.push(Command::SetTimer(TimerWrapper::Network, self.resend_interval)),
            after,
            link_output(cmds, next),
            persists(cmds),
            state,
        )
    }

    /// `after` and the commands `out_after` are what the link gives when the wrapped actor,
    /// delivered the message that `src` sent under `seq` (above the last delivered from `src`),
    /// outputs `cmds`: the acknowledgement goes first, `seq` is recorded as delivered from `src`, `cmds` pass through the link, and
    /// the link saves what it must remember.
    pub open spec fn delivered_with(
        &self,
        before: StateWrapper<A::Msg, A::State, A::Storage>,
        after: StateWrapper<A::Msg, A::State, A::Storage>,
        src: Id,
        seq: Sequencer,
        cmds: Seq<Command<A::Msg, A::Timer, A::Random, A::Storage>>,
        out_before: Seq<Command<MsgWrapper<A::Msg>, TimerWrapper<A::Timer>, A::Random, StorageWrapper<A::Msg, A::Storage>>>,
        out_after: Seq<Command<MsgWrapper<A::Msg>, TimerWrapper<A::Timer>, A::Random, StorageWrapper<A::Msg, A::Storage>>>,
    ) -> bool {
        &&& seq > before.delivered_from(src)
        &&& after.well_formed()
        &&& after.next_seq() == sequencer_after(cmds, before.next_seq())
        &&& after.delivered() == before.delivered().insert(src, seq)
        &&& exact_clone::<A::Storage>() ==> after.saved() == saved_after(cmds, before.saved())
        &&& exact_clone::<A::Msg>() ==> after.pending() == pending_after(
            cmds,
            before.next_seq(),
            before.pending(),
        )
        &&& out_after.len() > 0
        &&& then_saves::<A>(
            out_before.push(Command::Send(src, MsgWrapper::Ack(seq))),
            out_after.drop_last(),
            link_output(cmds, before.next_seq()),
            persists(cmds),
            after,
        )
        &&& out_after.last() matches Command::Save(sw) && (exact_clone::<A::Msg>()
            && exact_clone::<A::Storage>() ==> sw.stores(after))
    }

    /// `after` and the commands `out_after` are what the link gives on the acknowledgement of
    /// the message it sent under `seq`: that message is no longer pending, and the link saves
    /// what it must remember.
    pub open spec fn acked(
        &self,
        before: StateWrapper<A::Msg, A::State, A::Storage>,
        after: StateWrapper<A::Msg, A::State, A::Storage>,
        seq: Sequencer,
        out_before: Seq<Command<MsgWrapper<A::Msg>, TimerWrapper<A::Timer>, A::Random, StorageWrapper<A::Msg, A::Storage>>>,
        out_after: Seq<Command<MsgWrapper<A::Msg>, TimerWrapper<A::Timer>, A::Random, StorageWrapper<A::Msg, A::Storage>>>,
    ) -> bool {
        &&& after.well_formed()
        &&& after.next_seq() == before.next_seq()
        &&& after.delivered() == before.delivered()
        &&& exact_clone::<A::Msg>() ==> after.pending() == before.pending().remove(seq)
        &&& exact_clone::<A::State>() ==> after.wrapped() == before.wrapped()
        &&& exact_clone::<A::Storage>() ==> after.saved() == before.saved()
        &&& out_after.len() == out_before.len() + 1
        &&& out_after.drop_last() == out_before
        &&& out_after.last() matches Command::Save(sw) && (exact_clone::<A::Msg>()
            && exact_clone::<A::Storage>() ==> sw.stores(after))
    }

    /// The commands `after` are `before` followed by the renewal of the resend timer and then, in
    /// increasing order of sequencer, one delivery of each message of `state` not yet
    /// acknowledged, to its destination under its sequencer (the message a clone).
    pub open spec fn resent(
        &self,
        state: StateWrapper<A::Msg, A::State, A::Storage>,
        before: Seq<Command<MsgWrapper<A::Msg>, TimerWrapper<A::Timer>, A::Random, StorageWrapper<A::Msg, A::Storage>>>,
        after: Seq<Command<MsgWrapper<A::Msg>, TimerWrapper<A::Timer>, A::Random, StorageWrapper<A::Msg, A::Storage>>>,
    ) -> bool {
        let pending = state.pending_list();
        let base = before.len() + 1int;
        &&& after.len() == base + pending.len()
        &&& after.take(base) == before.push(
            Command::SetTimer(TimerWrapper::Network, self.resend_interval),
        )
        &&& forall|k: int| base <= k < after.len() ==> redelivers(#[trigger] after[k], pending[k - base])
    }

    /// `after` and the commands `out_after` are what the link gives when the wrapped actor, on
    /// one of its own timers, outputs `cmds`: `cmds` pass through the link, while the wrapped
    /// actor's state is kept as it was.
    pub open spec fn timed_out_with(
        &self,
        before: StateWrapper<A::Msg, A::State, A::Storage>,
        after: StateWrapper<A::Msg, A::State, A::Storage>,
        cmds: Seq<Command<A::Msg, A::Timer, A::Random, A::Storage>>,
        out_before: Seq<Command<MsgWrapper<A::Msg>, TimerWrapper<A::Timer>, A::Random, StorageWrapper<A::Msg, A::Storage>>>,
        out_after: Seq<Command<MsgWrapper<A::Msg>, TimerWrapper<A::Timer>, A::Random, StorageWrapper<A::Msg, A::Storage>>>,
    ) -> bool {
        &&& after.well_formed()
        &&& after.next_seq() == sequencer_after(cmds, before.next_seq())
        &&& after.delivered() == before.delivered()
        &&& exact_clone::<A::State>() ==> after.wrapped() == before.wrapped()
        &&& exact_clone::<A::Storage>() ==> after.saved() == saved_after(cmds, before.saved())
        &&& exact_clone::<A::Msg>() ==> after.pending() == pending_after(
            cmds,
            before.next_seq(),
            before.pending(),
        )
        &&& then_saves::<A>(
            out_before,
            out_after,
            link_output(cmds, before.next_seq()),
            persists(cmds),
            after,
        )
    }
}

/// A message that the link hands to the wrapped actor raises the last sequencer delivered from
/// its sender to its own, which was above the last before: messages from a sender reach the
/// wrapped actor in increasing order of sequencer, and a message is never handed over twice (a
/// second delivery of it is only acknowledged, as [`ActorWrapper::on_msg`] states).
pub proof fn delivery_raises_last_delivered<A: Actor>(
    link: ActorWrapper<A>,
    before: StateWrapper<A::Msg, A::State, A::Storage>,
    after: StateWrapper<A::Msg, A::State, A::Storage>,
    src: Id,
    seq: Sequencer,
    cmds: Seq<Command<A::Msg, A::Timer, A::Random, A::Storage>>,
    out_before: Seq<Command<MsgWrapper<A::Msg>, TimerWrapper<A::Timer>, A::Random, StorageWrapper<A::Msg, A::Storage>>>,
    out_after: Seq<Command<MsgWrapper<A::Msg>, TimerWrapper<A::Timer>, A::Random, StorageWrapper<A::Msg, A::Storage>>>,
)
    requires
        link.delivered_with(before, after, src, seq, cmds, out_before, out_after),
    ensures
        after.delivered_from(src) == seq,
        after.delivered_from(src) > before.delivered_from(src),
        forall|other: Id| other != src ==> #[trigger] after.delivered_from(other) == before.delivered_from(other),
{
}

impl<A: Actor> Actor for ActorWrapper<A> {
    type Msg = MsgWrapper<A::Msg>;

    type State = StateWrapper<A::Msg, A::State, A::Storage>;

    type Timer = TimerWrapper<A::Timer>;

    type Random = A::Random;

    type Storage = StorageWrapper<A::Msg, A::Storage>;

    /// Sets the resend timer, then starts from `storage` (or afresh) and starts the wrapped actor,
    /// passing its commands on through the link.
    fn on_start(&self, id: Id, storage: &Option<Self::Storage>, o: &mut Out<Self>) -> (r:
        Self::State)
        ensures
            (*storage matches Some(sw) ==> sw.well_formed()) ==> r.well_formed(),
            exists|cmds: Seq<Command<A::Msg, A::Timer, A::Random, A::Storage>>|
                #[trigger] self.started_with(*storage, cmds, old(o).0@, final(o).0@, r),
    {
        o.0.push(Command::SetTimer(
            TimerWrapper::Network,
            self.resend_interval.start..self.resend_interval.end,
        ));
        let mut wrapped_out: Out<A> = Out::new();
        let (next_send_seq, msgs_pending_ack, last_delivered_seqs, wrapped_storage) = match storage {
            Some(sw) => (
                sw.next_send_seq,
                copy_pending(&sw.msgs_pending_ack),
                copy_delivered(&sw.last_delivered_seqs),
                copy_saved(&sw.wrapped_storage),
            ),
            None => (1, Vec::new(), Vec::new(), None),
        };
        let wrapped_state = self.wrapped_actor.on_start(id, &wrapped_storage, &mut wrapped_out);
        let mut state = StateWrapper {
            next_send_seq,
            msgs_pending_ack,
            last_delivered_seqs,
            wrapped_state,
            wrapped_storage,
        };
        let ghost cmds = wrapped_out@;
        proof {
            if storage is None {
                assert(assoc_map(state.last_delivered_seqs@) =~= Map::<Id, Sequencer>::empty());
                assert(assoc_map(state.msgs_pending_ack@) =~= Map::<Sequencer, (Id, A::Msg)>::empty());
            }
        }
        process_output(&mut state, wrapped_out, &mut o.0);
        proof {
            assert(self.started_with(*storage, cmds, old(o).0@, o.0@, state));
        }
        state
    }

    /// Acknowledges a delivery, then hands the message to the wrapped actor unless it was
    /// delivered before (its sequencer is not above the last delivered from its sender) or the
    /// wrapped actor ignores it; otherwise records it as delivered, passes the wrapped actor's
    /// commands on and saves. An acknowledgement forgets the message acknowledged, and saves.
    fn on_msg(
        &self,
        id: Id,
        state: &mut Cow<Self::State>,
        src: Id,
        msg: Self::Msg,
        o: &mut Out<Self>,
    )
        ensures
            match msg {
                MsgWrapper::Deliver(seq, wm) => {
                    let before = current_state(*old(state));
                    let ack = Command::Send(src, MsgWrapper::Ack(seq));
                    let ignored = *final(state) == *old(state) && final(o).0@ == old(o).0@.push(ack);
                    &&& final(o).0@.len() > old(o).0@.len()
                    &&& final(o).0@[old(o).0@.len() as int] == ack
                    &&& before.well_formed() && seq <= before.delivered_from(src) ==> ignored
                    &&& before.well_formed() && seq > before.delivered_from(src) ==> ignored
                        || exists|cmds: Seq<Command<A::Msg, A::Timer, A::Random, A::Storage>>|
                        #[trigger] self.delivered_with(
                            before,
                            current_state(*final(state)),
                            src,
                            seq,
                            cmds,
                            old(o).0@,
                            final(o).0@,
                        )
                    &&& before.well_formed() && seq > before.delivered_from(src) ==> exists|
                        ws: &mut Cow<A::State>,
                        wo: &mut Out<A>,
                    |
                        #![trigger call_ensures(A::on_msg, (&self.wrapped_actor, id, ws, src, wm, wo), ())]
                        {
                            &&& mut_ref_current(ws) is Borrowed
                            &&& current_state(mut_ref_current(ws)) == before.wrapped()
                            &&& mut_ref_current(wo).0@ == Seq::<Command<A::Msg, A::Timer, A::Random, A::Storage>>::empty()
                            &&& call_ensures(A::on_msg, (&self.wrapped_actor, id, ws, src, wm, wo), ())
                            &&& if mut_ref_future(ws) is Borrowed && mut_ref_future(wo).0@.len() == 0 {
                                ignored
                            } else {
                                self.delivered_with(
                                    before,
                                    current_state(*final(state)),
                                    src,
                                    seq,
                                    mut_ref_future(wo).0@,
                                    old(o).0@,
                                    final(o).0@,
                                )
                            }
                        }
                },
                MsgWrapper::Ack(seq) => current_state(*old(state)).well_formed() ==> self.acked(
                    current_state(*old(state)),
                    current_state(*final(state)),
                    seq,
                    old(o).0@,
                    final(o).0@,
                ),
            },
    {
        match msg {
            MsgWrapper::Deliver(seq, wrapped_msg) => {
                o.0.push(Command::Send(src, MsgWrapper::Ack(seq)));
                let cur = current(state);
                let last = last_delivered(&cur.last_delivered_seqs, src);
                if seq <= last {
                    return;
                }
                let mut wrapped_state: Cow<A::State> = Cow::Borrowed(&cur.wrapped_state);
                let mut wrapped_out: Out<A> = Out::new();
                self.wrapped_actor.on_msg(id, &mut wrapped_state, src, wrapped_msg, &mut wrapped_out);
                if is_no_op(&wrapped_state, &wrapped_out) {
                    return;
                }
                let new_wrapped = match wrapped_state {
                    Cow::Owned(w) => w,
                    Cow::Borrowed(b) => clone_exact(b),
                };
                let mut next = StateWrapper {
                    next_send_seq: cur.next_send_seq,
                    msgs_pending_ack: copy_pending(&cur.msgs_pending_ack),
                    last_delivered_seqs: copy_delivered(&cur.last_delivered_seqs),
                    wrapped_state: new_wrapped,
                    wrapped_storage: copy_saved(&cur.wrapped_storage),
                };
                set_delivered(&mut next.last_delivered_seqs, src, seq);
                let ghost cmds = wrapped_out@;
                let ghost mid_before = o.0@;
                process_output(&mut next, wrapped_out, &mut o.0);
                let ghost mid = o.0@;
                let sw = storage_of(&next);
                o.0.push(Command::Save(sw));
                proof {
                    assert(o.0@.drop_last() =~= mid);
                    let k = old(o).0@.len() as int;
                    assert(mid_before[k] == Command::<MsgWrapper<A::Msg>, TimerWrapper<A::Timer>, A::Random, StorageWrapper<A::Msg, A::Storage>>::Send(src, MsgWrapper::Ack(seq)));
                    assert(mid.take(mid_before.len() as int)[k] == mid[k]);
                    assert(o.0@[k] == mid[k]);
                    if cur.well_formed() {
                        assert(sorted_by_sequencer(next.msgs_pending_ack@));
                        assert(self.delivered_with(*cur, next, src, seq, cmds, old(o).0@, o.0@));
                    }
                }
                *state = Cow::Owned(next);
            },
            MsgWrapper::Ack(seq) => {
                let cur = current(state);
                let mut next = StateWrapper {
                    next_send_seq: cur.next_send_seq,
                    msgs_pending_ack: copy_pending(&cur.msgs_pending_ack),
                    last_delivered_seqs: copy_delivered(&cur.last_delivered_seqs),
                    wrapped_state: clone_exact(&cur.wrapped_state),
                    wrapped_storage: copy_saved(&cur.wrapped_storage),
                };
                drop_pending(&mut next.msgs_pending_ack, seq);
                let sw = storage_of(&next);
                o.0.push(Command::Save(sw));
                proof {
                    assert(o.0@.drop_last() =~= old(o).0@);
                }
                *state = Cow::Owned(next);
            },
        }
    }

    /// On the resend timer: renews it and resends every message not yet acknowledged. On a timer
    /// of the wrapped actor: hands the timeout to it and, unless it ignores it, passes its
    /// commands on; the wrapped actor's state is kept as it was.
    fn on_timeout(&self, id: Id, state: &mut Cow<Self::State>, timer: &Self::Timer, o: &mut Out<Self>)
        ensures
            *timer is Network ==> *final(state) == *old(state) && self.resent(
                current_state(*old(state)),
                old(o).0@,
                final(o).0@,
            ),
            *timer is User && current_state(*old(state)).well_formed() ==> (*final(state)
                == *old(state) && final(o).0@ == old(o).0@) || exists|
                cmds: Seq<Command<A::Msg, A::Timer, A::Random, A::Storage>>,
            | #[trigger] self.timed_out_with(
                current_state(*old(state)),
                current_state(*final(state)),
                cmds,
                old(o).0@,
                final(o).0@,
            ),
            *timer is User && current_state(*old(state)).well_formed() ==> exists|
                ws: &mut Cow<A::State>,
                wo: &mut Out<A>,
            |
                #![trigger call_ensures(A::on_timeout, (&self.wrapped_actor, id, ws, &(*timer)->User_0, wo), ())]
                {
                    &&& mut_ref_current(ws) is Borrowed
                    &&& current_state(mut_ref_current(ws)) == current_state(*old(state)).wrapped()
                    &&& mut_ref_current(wo).0@ == Seq::<Command<A::Msg, A::Timer, A::Random, A::Storage>>::empty()
                    &&& call_ensures(A::on_timeout, (&self.wrapped_actor, id, ws, &(*timer)->User_0, wo), ())
                    &&& if mut_ref_future(ws) is Borrowed && mut_ref_future(wo).0@.len() == 0 {
                        *final(state) == *old(state) && final(o).0@ == old(o).0@
                    } else {
                        self.timed_out_with(
                            current_state(*old(state)),
                            current_state(*final(state)),
                            mut_ref_future(wo).0@,
                            old(o).0@,
                            final(o).0@,
                        )
                    }
                },
    {
        match timer {
            TimerWrapper::Network => {
                o.0.push(Command::SetTimer(
                    TimerWrapper::Network,
                    self.resend_interval.start..self.resend_interval.end,
                ));
                let cur = current(state);
                let ghost base = o.0@.len();
                let ghost pending = cur.msgs_pending_ack@;
                let mut i: usize = 0;
                while i < cur.msgs_pending_ack.len()
                    invariant
                        i <= pending.len(),
                        pending == cur.msgs_pending_ack@,
                        base == old(o).0@.len() + 1,
                        o.0@.len() == base + i,
                        o.0@.take(base as int) == old(o).0@.push(
                            Command::SetTimer(TimerWrapper::Network, self.resend_interval),
                        ),
                        forall|k: int| base <= k < o.0@.len() ==> redelivers(#[trigger] o.0@[k], pending[k - base]),
                    decreases pending.len() - i,
                {
                    let m = cur.msgs_pending_ack[i].1.1.clone();
                    proof {
                        assert(vstd::pervasive::strictly_cloned(pending[i as int].1.1, m));
                    }
                    let ghost prev = o.0@;
                    o.0.push(Command::Send(
                        cur.msgs_pending_ack[i].1.0,
                        MsgWrapper::Deliver(cur.msgs_pending_ack[i].0, m),
                    ));
                    proof {
                        assert(o.0@.take(base as int) =~= prev.take(base as int));
                        assert(o.0@[base + i] == Command::<MsgWrapper<A::Msg>, TimerWrapper<A::Timer>, A::Random, StorageWrapper<A::Msg, A::Storage>>::Send(
                            pending[i as int].1.0,
                            MsgWrapper::Deliver(pending[i as int].0, m),
                        ));
                        assert forall|k: int| base <= k < o.0@.len() implies redelivers(#[trigger] o.0@[k], pending[k - base]) by {
                            if k < base + i {
                                assert(o.0@[k] == prev[k]);
                            }
                        }
                    }
                    i = i + 1;
                }
            },
            TimerWrapper::User(t) => {
                let cur = current(state);
                let mut wrapped_state: Cow<A::State> = Cow::Borrowed(&cur.wrapped_state);
                let mut wrapped_out: Out<A> = Out::new();
                self.wrapped_actor.on_timeout(id, &mut wrapped_state, t, &mut wrapped_out);
                if is_no_op(&wrapped_state, &wrapped_out) {
                    return;
                }
                let mut next = StateWrapper {
                    next_send_seq: cur.next_send_seq,
                    msgs_pending_ack: copy_pending(&cur.msgs_pending_ack),
                    last_delivered_seqs: copy_delivered(&cur.last_delivered_seqs),
                    wrapped_state: clone_exact(&cur.wrapped_state),
                    wrapped_storage: copy_saved(&cur.wrapped_storage),
                };
                let ghost cmds = wrapped_out@;
                process_output(&mut next, wrapped_out, &mut o.0);
                let ghost before = *cur;
                proof {
                    if before.well_formed() {
                        assert(sorted_by_sequencer(next.msgs_pending_ack@));
                        assert(self.timed_out_with(before, next, cmds, old(o).0@, o.0@));
                    }
                }
                *state = Cow::Owned(next);
                proof {
                    if before.well_formed() {
                        assert(self.timed_out_with(
                            current_state(*old(state)),
                            current_state(*state),
                            cmds,
                            old(o).0@,
                            o.0@,
                        ));
                    }
                }
            },
        }
    }

    /// The name of the wrapped actor.
    fn name(&self) -> (r: String)
        ensures
            call_ensures(A::name, (&self.wrapped_actor,), r),
    {
        self.wrapped_actor.name()
    }
}

} // verus!
