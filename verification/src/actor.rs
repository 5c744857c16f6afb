//! Actors: an [`Actor`] initializes its state, then responds to messages, timeouts and random
//! choices by updating that state and emitting [`Command`]s into an [`Out`].
//!
//! Actors are identified by an [`Id`]. A model-checked actor's `Id` encodes its index; a
//! spawned actor's `Id` encodes its socket address (see [`Id::display_text`]).

use crate::util::text::{decimal, u64_decimal};
use crate::util::{Choice, Never};
use std::borrow::Cow;
use std::ops::Range;
use std::time::Duration;
use vstd::prelude::*;
use vstd::std_specs::cmp::PartialEqSpecImpl;
use vstd::std_specs::convert::{FromSpec, FromSpecImpl};

pub mod diagram;
pub mod model;
pub mod model_state;
pub mod network;
pub mod ordered_reliable_link;
pub mod register;
pub mod timers;

pub use model::{model_peers, model_timeout, ActorModel, ActorModelAction, LossyNetwork};
pub use model_state::{ActorModelState, RandomChoices};
pub use timers::Timers;
pub use network::{Envelope, Network, NetworkKind};
pub use ordered_reliable_link::ActorWrapper;

use crate::semantics::exact_eq;
use core::fmt::Debug;
use core::hash::Hash;

verus! {

/// Uniquely identifies an [`Actor`]. Encodes the socket address for spawned actors. Encodes an
/// index for model checked actors.
#[derive(Clone, Copy, Debug, Default, Eq, Hash, Ord, PartialOrd)]
pub struct Id(u64);

impl PartialEq for Id {
    fn eq(&self, other: &Id) -> (r: bool) {
        self.0 == other.0
    }
}

impl PartialEqSpecImpl for Id {
    open spec fn obeys_eq_spec() -> bool {
        true
    }

    open spec fn eq_spec(&self, other: &Id) -> bool {
        self@ == other@
    }
}

impl View for Id {
    type V = u64;

    /// The number that the identifier encodes.
    closed spec fn view(&self) -> u64 {
        self.0
    }
}

/// Two identifiers are the same exactly when they encode the same number.
pub proof fn id_view_injective(a: Id, b: Id)
    ensures
        a == b <==> a@ == b@,
{
}

/// `==` and clone on identifiers are exact: `==` is equality of values, and a clone equals the
/// original.
pub proof fn id_is_exact()
    ensures
        crate::semantics::exact_eq::<Id>(),
        crate::semantics::exact_clone::<Id>(),
{
}

/// The identifier of the actor with index `u`.
pub open spec fn id_of(u: usize) -> Id {
    <Id as FromSpec<usize>>::from_spec(u)
}

/// The text of an identifier read as a socket address: the bytes 2 to 5 of its big-endian
/// encoding form an IPv4 address, and the last two bytes the port.
pub open spec fn id_text(n: u64) -> Seq<char> {
    decimal(((n / 0x100_0000_0000) % 256) as nat) + seq!['.'] + decimal(
        ((n / 0x1_0000_0000) % 256) as nat,
    ) + seq!['.'] + decimal(((n / 0x100_0000) % 256) as nat) + seq!['.'] + decimal(
        ((n / 0x1_0000) % 256) as nat,
    ) + seq![':'] + decimal((n % 0x1_0000) as nat)
}

impl Id {
    /// The number that the identifier encodes.
    pub(crate) fn value(&self) -> (r: u64)
        ensures
            r == self@,
    {
        self.0
    }

    /// Generates a [`Vec`] of [`Id`]s from actor indices.
    pub fn vec_from(ids: Vec<usize>) -> (r: Vec<Id>)
        ensures
            r@.len() == ids@.len(),
            forall|i: int| 0 <= i < ids@.len() ==> #[trigger] r@[i] == id_of(ids@[i]),
    {
        let mut out: Vec<Id> = Vec::new();
        let mut i: usize = 0;
        while i < ids.len()
            invariant
                i <= ids@.len(),
                out@.len() == i,
                forall|j: int| 0 <= j < i ==> #[trigger] out@[j] == id_of(ids@[j]),
            decreases ids@.len() - i,
        {
            out.push(Id::from(ids[i]));
            i = i + 1;
        }
        out
    }

    /// Renders the identifier as the socket address it encodes, `a.b.c.d:port`.
    pub fn display_text(&self) -> (r: String)
        ensures
            r@ == id_text(self@),
    {
        let n = self.0;
        let mut text = u64_decimal((n / 0x100_0000_0000) % 256);
        text.append(".");
        text.append(u64_decimal((n / 0x1_0000_0000) % 256).as_str());
        text.append(".");
        text.append(u64_decimal((n / 0x100_0000) % 256).as_str());
        text.append(".");
        text.append(u64_decimal((n / 0x1_0000) % 256).as_str());
        text.append(":");
        text.append(u64_decimal(n % 0x1_0000).as_str());
        proof {
            reveal_strlit(".");
            reveal_strlit(":");
        }
        text
    }
}

impl FromSpecImpl<Id> for usize {
    open spec fn obeys_from_spec() -> bool {
        true
    }

    open spec fn from_spec(id: Id) -> usize {
        id@ as usize
    }
}

impl From<Id> for usize {
    /// The index that an identifier encodes.
    fn from(id: Id) -> (r: usize) {
        #[verifier::truncate] (id.0 as usize)
    }
}

impl FromSpecImpl<usize> for Id {
    open spec fn obeys_from_spec() -> bool {
        true
    }

    closed spec fn from_spec(u: usize) -> Id {
        Id(u as u64)
    }
}

impl From<usize> for Id {
    /// The identifier of the actor with index `u`.
    fn from(u: usize) -> (r: Id) {
        Id(u as u64)
    }
}

/// Converting an index to an identifier and back gives the index; an identifier made from an
/// index encodes that index.
pub proof fn id_index_round_trip(u: usize)
    ensures
        id_of(u)@ == u,
        <usize as FromSpec<Id>>::from_spec(id_of(u)) == u,
{
}

/// Converting an identifier whose number fits in a `usize` to an index and back gives the
/// identifier.
pub proof fn index_id_round_trip(id: Id)
    requires
        id@ <= usize::MAX,
    ensures
        id_of(<usize as FromSpec<Id>>::from_spec(id)) == id,
{
}

/// Commands with which an actor can respond.
#[derive(Debug)]
pub enum Command<Msg, Timer, Random, Storage> {
    /// Cancel the timer if one is set.
    CancelTimer(Timer),
    /// Set/reset the timer.
    SetTimer(Timer, Range<Duration>),
    /// Send a message to a destination.
    Send(Id, Msg),
    /// Choose a random.
    ChooseRandom(String, Vec<Random>),
    /// Save non-volatile state.
    Save(Storage),
}

/// Holds [`Command`]s output by an actor.
pub struct Out<A: Actor>(pub Vec<Command<A::Msg, A::Timer, A::Random, A::Storage>>);

impl<A: Actor> View for Out<A> {
    type V = Seq<Command<A::Msg, A::Timer, A::Random, A::Storage>>;

    /// The commands in the order they were output.
    open spec fn view(&self) -> Self::V {
        self.0@
    }
}

/// The text of a key given as a `&str`.
fn owned_key(key: &str) -> (r: String)
    ensures
        r@ == key@,
{
    key.to_owned()
}

impl<A: Actor> Out<A> {
    /// Constructs an empty `Out`.
    pub fn new() -> (r: Self)
        ensures
            r@ == Seq::<Command<A::Msg, A::Timer, A::Random, A::Storage>>::empty(),
    {
        Out(Vec::new())
    }

    /// Moves all [`Command`]s of `other` into `self`, leaving `other` empty.
    pub fn append<B>(&mut self, other: &mut Out<B>) where
        B: Actor<Msg = A::Msg, Timer = A::Timer, Random = A::Random, Storage = A::Storage>,

        ensures
            final(self)@ == old(self)@ + old(other)@,
            final(other)@ == Seq::<Command<A::Msg, A::Timer, A::Random, A::Storage>>::empty(),
    {
        self.0.append(&mut other.0);
    }

    /// Records the need to set the timer. See [`Actor::on_timeout`].
    pub fn set_timer(&mut self, timer: A::Timer, duration: Range<Duration>)
        ensures
            final(self)@ == old(self)@.push(Command::SetTimer(timer, duration)),
    {
        self.0.push(Command::SetTimer(timer, duration));
    }

    /// Records the need to cancel the timer.
    pub fn cancel_timer(&mut self, timer: A::Timer)
        ensures
            final(self)@ == old(self)@.push(Command::CancelTimer(timer)),
    {
        self.0.push(Command::CancelTimer(timer));
    }

    /// Records the need to send a message. See [`Actor::on_msg`].
    pub fn send(&mut self, recipient: Id, msg: A::Msg)
        ensures
            final(self)@ == old(self)@.push(Command::Send(recipient, msg)),
    {
        self.0.push(Command::Send(recipient, msg));
    }

    /// Records the need to send a message to multiple recipients, in order, each a clone of
    /// `msg`. See [`Actor::on_msg`].
    pub fn broadcast(&mut self, recipients: &[Id], msg: &A::Msg)
        ensures
            final(self)@.len() == old(self)@.len() + recipients@.len(),
            final(self)@.take(old(self)@.len() as int) == old(self)@,
            forall|i: int|
                0 <= i < recipients@.len() ==> {
                    let c = #[trigger] final(self)@[old(self)@.len() + i];
                    &&& c is Send
                    &&& c->Send_0 == recipients@[i]
                    &&& cloned(*msg, c->Send_1)
                },
    {
        let ghost start = self.0@;
        let mut i: usize = 0;
        while i < recipients.len()
            invariant
                i <= recipients@.len(),
                self.0@.len() == start.len() + i,
                self.0@.take(start.len() as int) == start,
                forall|j: int|
                    0 <= j < i ==> {
                        let c = #[trigger] self.0@[start.len() + j];
                        &&& c is Send
                        &&& c->Send_0 == recipients@[j]
                        &&& cloned(*msg, c->Send_1)
                    },
            decreases recipients@.len() - i,
        {
            let m = msg.clone();
            assert(vstd::pervasive::strictly_cloned(*msg, m));
            self.send(recipients[i], m);
            assert(self.0@.take(start.len() as int) =~= start);
            i = i + 1;
        }
    }

    /// Records a non-deterministic choice by the actor.
    ///
    /// Actors can use this method to record a `random` vec of possible choices, creating a branch
    /// in the search tree for the actor. The `key` is a unique identifier for the choice to be
    /// made; a later choice with the same key overwrites this one. See [`Actor::on_random`].
    pub fn choose_random(&mut self, key: &str, random: Vec<A::Random>)
        ensures
            final(self)@.len() == old(self)@.len() + 1,
            final(self)@.drop_last() == old(self)@,
            final(self)@.last() matches Command::ChooseRandom(k, r) && k@ == key@ && r == random,
    {
        self.0.push(Command::ChooseRandom(owned_key(key), random));
        assert(self.0@.drop_last() =~= old(self).0@);
    }

    /// Records the need to cancel a random choice: removes any previous `choose_random` calls
    /// with the same key. See [`Actor::on_random`].
    pub fn remove_random(&mut self, key: &str)
        ensures
            final(self)@.len() == old(self)@.len() + 1,
            final(self)@.drop_last() == old(self)@,
            final(self)@.last() matches Command::ChooseRandom(k, r) && k@ == key@ && r@.len() == 0,
    {
        self.0.push(Command::ChooseRandom(owned_key(key), Vec::new()));
        assert(self.0@.drop_last() =~= old(self).0@);
    }

    /// Records the need to save non-volatile state. See [`Actor::on_start`].
    pub fn save(&mut self, storage: A::Storage)
        ensures
            final(self)@ == old(self)@.push(Command::Save(storage)),
    {
        self.0.push(Command::Save(storage));
    }

    /// The number of commands output.
    pub fn len(&self) -> (r: usize)
        ensures
            r == self@.len(),
    {
        self.0.len()
    }

    /// The commands output, in order.
    pub fn commands(&self) -> (r: &[Command<A::Msg, A::Timer, A::Random, A::Storage>])
        ensures
            r@ == self@,
    {
        self.0.as_slice()
    }

    /// Moves the commands out, in order.
    pub fn into_commands(self) -> (r: Vec<Command<A::Msg, A::Timer, A::Random, A::Storage>>)
        ensures
            r@ == self@,
    {
        self.0
    }
}

impl<A: Actor> Default for Out<A> {
    /// An empty `Out`.
    fn default() -> (r: Self)
        ensures
            r@ == Seq::<Command<A::Msg, A::Timer, A::Random, A::Storage>>::empty(),
    {
        Self::new()
    }
}

/// Whether a state was left as it was (still borrowed, not replaced by an owned value).
pub open spec fn unchanged<S: Clone>(state: &Cow<S>) -> bool {
    state is Borrowed
}

/// If true, then the actor did not update its state or output commands.
pub fn is_no_op<A: Actor>(state: &Cow<A::State>, out: &Out<A>) -> (r: bool)
    ensures
        r == (unchanged(state) && out@.len() == 0),
{
    matches!(state, Cow::Borrowed(_)) && out.0.len() == 0
}

/// Whether a command sets (or resets) the given timer.
pub open spec fn sets_timer<M, T, R, S>(c: Command<M, T, R, S>, timer: T) -> bool {
    c matches Command::SetTimer(t, _) && t == timer
}

/// If true, then the actor did not update its state or output commands, besides renewing the
/// same timer.
pub fn is_no_op_with_timer<A: Actor>(state: &Cow<A::State>, out: &Out<A>, timer: &A::Timer) -> (r:
    bool)
    ensures
        exact_eq::<A::Timer>() ==> r == (unchanged(state) && out@.len() == 1 && sets_timer(
            out@[0],
            *timer,
        )),
        r ==> unchanged(state) && out@.len() == 1 && out@[0] is SetTimer,
{
    let mut keep_timer = false;
    let mut i: usize = 0;
    while i < out.0.len()
        invariant
            i <= out@.len(),
            exact_eq::<A::Timer>() ==> (keep_timer <==> exists|j: int|
                0 <= j < i && sets_timer(#[trigger] out@[j], *timer)),
            keep_timer ==> exists|j: int| 0 <= j < i && (#[trigger] out@[j]) is SetTimer,
        decreases out@.len() - i,
    {
        match &out.0[i] {
            Command::SetTimer(t, _) => {
                if *t == *timer {
                    keep_timer = true;
                }
            },
            _ => {},
        }
        i = i + 1;
    }
    let unmodified_out = out.0.len() == 1 && keep_timer;
    matches!(state, Cow::Borrowed(_)) && unmodified_out
}

/// An actor initializes internal state optionally emitting [outputs]; then it waits for incoming
/// events, responding by updating its internal state and optionally emitting [outputs].
///
/// [outputs]: Out
pub trait Actor: Sized {
    /// The type of messages sent and received by the actor.
    type Msg: Clone + Debug + Eq + Hash;

    /// The type for tagging timers.
    type Timer: Clone + Debug + Eq + Hash;

    /// The type of state maintained by the actor.
    type State: Clone + Debug + PartialEq + Hash;

    /// The type of non-volatile state maintained by the server. This should be a subset of the
    /// `State` field.
    type Storage: Clone + Debug + PartialEq + Hash;

    /// The type for tagging random choices by an actor.
    type Random: Clone + Debug + Eq + Hash;

    /// Indicates the initial state and commands.
    fn on_start(&self, id: Id, storage: &Option<Self::Storage>, o: &mut Out<Self>) -> Self::State;

    /// Indicates the next state and commands when a message is received. See [`Out::send`].
    /// Does nothing by default.
    fn on_msg(
        &self,
        id: Id,
        state: &mut Cow<Self::State>,
        src: Id,
        msg: Self::Msg,
        o: &mut Out<Self>,
    ) {
    }

    /// Indicates the next state and commands when a timeout is encountered. See
    /// [`Out::set_timer`]. Does nothing by default.
    fn on_timeout(&self, id: Id, state: &mut Cow<Self::State>, timer: &Self::Timer, o: &mut Out<Self>) {
    }

    /// Indicates the next state and commands when a random choice is selected. See
    /// [`Out::choose_random`]. Does nothing by default.
    fn on_random(
        &self,
        id: Id,
        state: &mut Cow<Self::State>,
        random: &Self::Random,
        o: &mut Out<Self>,
    ) {
    }

    /// A name for the actor; empty by default.
    fn name(&self) -> (r: String)
        default_ensures
            r@ == Seq::<char>::empty(),
    {
        String::new()
    }
}

/// The state that a possibly borrowed state holds.
pub open spec fn current_state<S: Clone>(state: Cow<S>) -> S {
    match state {
        Cow::Borrowed(b) => *b,
        Cow::Owned(o) => o,
    }
}

/// Borrows the state that a possibly borrowed state holds.
pub fn current<'a, 'b, S: Clone>(state: &'b Cow<'a, S>) -> (r: &'b S)
    ensures
        *r == current_state(*state),
{
    match state {
        Cow::Borrowed(b) => b,
        Cow::Owned(o) => o,
    }
}

impl<A: Actor> Actor for Choice<A, Never> {
    type Msg = A::Msg;

    type State = Choice<A::State, Never>;

    type Timer = A::Timer;

    type Random = A::Random;

    type Storage = A::Storage;

    /// Starts the actor held, keeping its commands; its state is held the same way.
    fn on_start(&self, id: Id, storage: &Option<Self::Storage>, o: &mut Out<Self>) -> (r:
        Self::State)
        ensures
            r is L,
    {
        let actor = self.get();
        let mut o_prime = Out::new();
        let state = actor.on_start(id, storage, &mut o_prime);
        o.0.append(&mut o_prime.0);
        Choice::new(state)
    }

    /// Delivers the message to the actor held; a state it replaces is held the same way.
    fn on_msg(
        &self,
        id: Id,
        state: &mut Cow<Self::State>,
        src: Id,
        msg: Self::Msg,
        o: &mut Out<Self>,
    )
        ensures
            old(o).0@.is_prefix_of(final(o).0@),
            *final(state) == *old(state) || *final(state) is Owned,
    {
        let actor = self.get();
        let mut state_prime = Cow::Borrowed(current(state).get());
        let mut o_prime = Out::new();
        actor.on_msg(id, &mut state_prime, src, msg, &mut o_prime);
        o.0.append(&mut o_prime.0);
        if let Cow::Owned(state_prime) = state_prime {
            *state = Cow::Owned(Choice::new(state_prime));
        }
    }

    /// Notifies the actor held of the timeout; a state it replaces is held the same way.
    fn on_timeout(&self, id: Id, state: &mut Cow<Self::State>, timer: &Self::Timer, o: &mut Out<Self>)
        ensures
            old(o).0@.is_prefix_of(final(o).0@),
            *final(state) == *old(state) || *final(state) is Owned,
    {
        let actor = self.get();
        let mut state_prime = Cow::Borrowed(current(state).get());
        let mut o_prime = Out::new();
        actor.on_timeout(id, &mut state_prime, timer, &mut o_prime);
        o.0.append(&mut o_prime.0);
        if let Cow::Owned(state_prime) = state_prime {
            *state = Cow::Owned(Choice::new(state_prime));
        }
    }

    /// The name of the actor held.
    fn name(&self) -> (r: String)
        ensures
            call_ensures(A::name, (&self->L_0,), r),
    {
        self.get().name()
    }
}

impl<A1, A2> Actor for Choice<A1, A2> where
    A1: Actor,
    A2: Actor<Msg = A1::Msg, Timer = A1::Timer, Storage = A1::Storage, Random = A1::Random>,
 {
    type Msg = A1::Msg;

    type State = Choice<A1::State, A2::State>;

    type Timer = A1::Timer;

    type Random = A1::Random;

    type Storage = A1::Storage;

    /// Starts the actor chosen; its state is held in the same position.
    fn on_start(&self, id: Id, storage: &Option<Self::Storage>, o: &mut Out<Self>) -> (r:
        Self::State)
        ensures
            (r is L) == (self is L),
    {
        match self {
            Choice::L(actor) => {
                let mut o_prime: Out<A1> = Out::new();
                let state = actor.on_start(id, storage, &mut o_prime);
                o.0.append(&mut o_prime.0);
                Choice::L(state)
            },
            Choice::R(actor) => {
                let mut o_prime: Out<A2> = Out::new();
                let state = actor.on_start(id, storage, &mut o_prime);
                o.0.append(&mut o_prime.0);
                Choice::R(state)
            },
        }
    }

    /// Delivers the message to the actor chosen, with the state in the same position; a state
    /// it replaces is held in that position. A state in the other position is left alone.
    fn on_msg(
        &self,
        id: Id,
        state: &mut Cow<Self::State>,
        src: Id,
        msg: Self::Msg,
        o: &mut Out<Self>,
    )
        ensures
            old(o).0@.is_prefix_of(final(o).0@),
            *final(state) == *old(state) || *final(state) is Owned,
            (current_state(*final(state)) is L) == (current_state(*old(state)) is L),
            (self is L) != (current_state(*old(state)) is L) ==> *final(state) == *old(state)
                && final(o).0@ == old(o).0@,
    {
        match self {
            Choice::L(actor) => match current(state) {
                Choice::L(inner) => {
                    let mut state_prime: Cow<A1::State> = Cow::Borrowed(inner);
                    let mut o_prime: Out<A1> = Out::new();
                    actor.on_msg(id, &mut state_prime, src, msg, &mut o_prime);
                    o.0.append(&mut o_prime.0);
                    if let Cow::Owned(state_prime) = state_prime {
                        *state = Cow::Owned(Choice::L(state_prime));
                    }
                },
                Choice::R(_) => {},
            },
            Choice::R(actor) => match current(state) {
                Choice::R(inner) => {
                    let mut state_prime: Cow<A2::State> = Cow::Borrowed(inner);
                    let mut o_prime: Out<A2> = Out::new();
                    actor.on_msg(id, &mut state_prime, src, msg, &mut o_prime);
                    o.0.append(&mut o_prime.0);
                    if let Cow::Owned(state_prime) = state_prime {
                        *state = Cow::Owned(Choice::R(state_prime));
                    }
                },
                Choice::L(_) => {},
            },
        }
    }

    /// Notifies the actor chosen of the timeout, with the state in the same position; a state
    /// it replaces is held in that position. A state in the other position is left alone.
    fn on_timeout(&self, id: Id, state: &mut Cow<Self::State>, timer: &Self::Timer, o: &mut Out<Self>)
        ensures
            old(o).0@.is_prefix_of(final(o).0@),
            *final(state) == *old(state) || *final(state) is Owned,
            (current_state(*final(state)) is L) == (current_state(*old(state)) is L),
            (self is L) != (current_state(*old(state)) is L) ==> *final(state) == *old(state)
                && final(o).0@ == old(o).0@,
    {
        match self {
            Choice::L(actor) => match current(state) {
                Choice::L(inner) => {
                    let mut state_prime: Cow<A1::State> = Cow::Borrowed(inner);
                    let mut o_prime: Out<A1> = Out::new();
                    actor.on_timeout(id, &mut state_prime, timer, &mut o_prime);
                    o.0.append(&mut o_prime.0);
                    if let Cow::Owned(state_prime) = state_prime {
                        *state = Cow::Owned(Choice::L(state_prime));
                    }
                },
                Choice::R(_) => {},
            },
            Choice::R(actor) => match current(state) {
                Choice::R(inner) => {
                    let mut state_prime: Cow<A2::State> = Cow::Borrowed(inner);
                    let mut o_prime: Out<A2> = Out::new();
                    actor.on_timeout(id, &mut state_prime, timer, &mut o_prime);
                    o.0.append(&mut o_prime.0);
                    if let Cow::Owned(state_prime) = state_prime {
                        *state = Cow::Owned(Choice::R(state_prime));
                    }
                },
                Choice::L(_) => {},
            },
        }
    }

    /// The name of the actor chosen.
    fn name(&self) -> (r: String)
        ensures
            self matches Choice::L(a) ==> call_ensures(A1::name, (&a,), r),
            self matches Choice::R(a) ==> call_ensures(A2::name, (&a,), r),
    {
        match self {
            Choice::L(a) => a.name(),
            Choice::R(a) => a.name(),
        }
    }
}

/// The type of timers, random choices or storage of an actor that has none of them.
#[derive(Clone, Copy, Debug, Default, Eq, Hash, Ord, PartialOrd)]
pub struct Unused;

impl PartialEq for Unused {
    fn eq(&self, other: &Unused) -> (r: bool) {
        true
    }
}

impl PartialEqSpecImpl for Unused {
    open spec fn obeys_eq_spec() -> bool {
        true
    }

    open spec fn eq_spec(&self, other: &Unused) -> bool {
        true
    }
}

/// `==` and clone on [`Unused`] are exact.
pub proof fn unused_is_exact()
    ensures
        crate::semantics::exact_eq::<Unused>(),
        crate::semantics::exact_clone::<Unused>(),
{
}

/// The actor that does nothing: it has no state and sends nothing.
impl Actor for Unused {
    type State = Unused;

    type Msg = Unused;

    type Timer = Unused;

    type Random = Unused;

    type Storage = Unused;

    /// Starts with the empty state and no command.
    fn on_start(&self, id: Id, storage: &Option<Self::Storage>, o: &mut Out<Self>) -> (r:
        Self::State)
        ensures
            *final(o) == *old(o),
    {
        Unused
    }

    fn name(&self) -> (r: String)
        ensures
            r@ == Seq::<char>::empty(),
    {
        String::new()
    }
}

/// Sends a series of messages in sequence to the associated actor [`Id`]s waiting for a message
/// delivery between each. This is useful for testing actor systems. The state is the number of
/// messages sent.
impl<Msg> Actor for Vec<(Id, Msg)> where Msg: Clone + Debug + Eq + Hash {
    type Msg = Msg;

    type State = usize;

    type Timer = Unused;

    type Random = Unused;

    type Storage = Unused;

    /// Sends the first message, if any.
    fn on_start(&self, id: Id, storage: &Option<Self::Storage>, o: &mut Out<Self>) -> (r:
        Self::State)
        ensures
            r == if self@.len() > 0 { 1usize } else { 0usize },
    {
        if self.len() > 0 {
            o.0.push(Command::Send(self[0].0, self[0].1.clone()));
            1
        } else {
            0
        }
    }

    /// Sends the next message, if any, counting it.
    fn on_msg(&self, id: Id, state: &mut Cow<Self::State>, src: Id, msg: Self::Msg, o: &mut Out<Self>)
        ensures
            current_state(*old(state)) < self@.len() ==> current_state(*final(state))
                == current_state(*old(state)) + 1,
            current_state(*old(state)) >= self@.len() ==> *final(state) == *old(state),
    {
        let sent = *current(state);
        if sent < self.len() {
            o.0.push(Command::Send(self[sent].0, self[sent].1.clone()));
            *state = Cow::Owned(sent + 1);
        }
    }

    fn name(&self) -> (r: String)
        ensures
            r@ == Seq::<char>::empty(),
    {
        String::new()
    }
}

/// Indicates the number of nodes that constitute a majority for a particular cluster size.
pub fn majority(cluster_size: usize) -> (r: usize)
    ensures
        r == cluster_size / 2 + 1,
        2 * r > cluster_size,
        2 * (r - 1) <= cluster_size,
{
    cluster_size / 2 + 1
}

/// The identifiers of `other_ids` other than `self_id`, in order.
pub fn peer_ids<'a, T: PartialEq>(self_id: T, other_ids: &'a [T]) -> (r: Vec<&'a T>)
    ensures
        exact_eq::<T>() ==> r@.map_values(|p: &T| *p) == other_ids@.filter(|o: T| o != self_id),
{
    let mut out: Vec<&'a T> = Vec::new();
    let mut i: usize = 0;
    while i < other_ids.len()
        invariant
            i <= other_ids@.len(),
            exact_eq::<T>() ==> out@.map_values(|p: &T| *p) == other_ids@.take(i as int).filter(
                |o: T| o != self_id,
            ),
        decreases other_ids@.len() - i,
    {
        proof {
            reveal(Seq::filter);
            assert(other_ids@.take(i + 1).drop_last() =~= other_ids@.take(i as int));
        }
        if !(other_ids[i] == self_id) {
            out.push(&other_ids[i]);
        }
        i = i + 1;
    }
    proof {
        assert(other_ids@.take(i as int) =~= other_ids@);
    }
    out
}

} // verus!
