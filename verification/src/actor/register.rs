//! Defines an interface for register-like actors (via [`RegisterMsg`]) and also provides
//! [`RegisterActor`] for model checking.

use crate::actor::{current, current_state, Actor, Envelope, Id, Out};
use crate::semantics::register::{Register, RegisterOp, RegisterRet};
use crate::semantics::{clone_exact, exact_clone, ConsistencyTester};
use core::fmt::Debug;
use core::hash::Hash;
use std::borrow::Cow;
use vstd::prelude::*;

verus! {

/// Defines an interface for a register-like actor.
#[derive(Debug, Eq, Hash, Ord, PartialEq, PartialOrd)]
pub enum RegisterMsg<RequestId, Value, InternalMsg> {
    /// A message specific to the register system's internal protocol.
    Internal(InternalMsg),
    /// Indicates that a value should be written.
    Put(RequestId, Value),
    /// Indicates that a value should be retrieved.
    Get(RequestId),
    /// Indicates a successful `Put`. Analogous to an HTTP 2XX.
    PutOk(RequestId),
    /// Indicates a successful `Get`. Analogous to an HTTP 2XX.
    GetOk(RequestId, Value),
}

impl<RequestId: Clone, Value: Clone, InternalMsg: Clone> Clone for RegisterMsg<
    RequestId,
    Value,
    InternalMsg,
> {
    /// Clones the message and what it carries.
    fn clone(&self) -> (r: Self)
        ensures
            exact_clone::<RequestId>() && exact_clone::<Value>() && exact_clone::<InternalMsg>()
                ==> r == *self,
    {
        match self {
            RegisterMsg::Internal(m) => RegisterMsg::Internal(clone_exact(m)),
            RegisterMsg::Put(id, v) => RegisterMsg::Put(clone_exact(id), clone_exact(v)),
            RegisterMsg::Get(id) => RegisterMsg::Get(clone_exact(id)),
            RegisterMsg::PutOk(id) => RegisterMsg::PutOk(clone_exact(id)),
            RegisterMsg::GetOk(id, v) => RegisterMsg::GetOk(clone_exact(id), clone_exact(v)),
        }
    }
}

impl<RequestId, Value, InternalMsg> RegisterMsg<RequestId, Value, InternalMsg> {
    /// A helper for a model whose history is a [`ConsistencyTester`]: records
    /// [`RegisterOp::Read`] upon [`RegisterMsg::Get`] and [`RegisterOp::Write`] upon
    /// [`RegisterMsg::Put`], invoked by the message's source, in a copy of the history. Other
    /// messages leave the history alone (`None`).
    pub fn record_invocations<C, H>(
        _cfg: &C,
        history: &H,
        env: Envelope<&RegisterMsg<RequestId, Value, InternalMsg>>,
    ) -> (r: Option<H>) where
        H: Clone + ConsistencyTester<Id, Register<Value>>,
        Value: Clone + Debug + PartialEq,

        ensures
            r is Some <==> (*env.msg is Get || *env.msg is Put),
            *env.msg is Get ==> exists|h: &mut H, res: Result<&mut H, String>|
                #![trigger call_ensures(H::on_invoke, (h, env.src, RegisterOp::<Value>::Read), res)]
                {
                    &&& vstd::pervasive::cloned(*history, mut_ref_current(h))
                    &&& call_ensures(H::on_invoke, (h, env.src, RegisterOp::<Value>::Read), res)
                    &&& r == Some(mut_ref_future(h))
                },
            *env.msg is Put ==> exists|h: &mut H, res: Result<&mut H, String>, v: Value|
                #![trigger call_ensures(H::on_invoke, (h, env.src, RegisterOp::<Value>::Write(v)), res)]
                {
                    &&& vstd::pervasive::cloned(*history, mut_ref_current(h))
                    &&& vstd::pervasive::cloned((*env.msg)->Put_1, v)
                    &&& call_ensures(H::on_invoke, (h, env.src, RegisterOp::<Value>::Write(v)), res)
                    &&& r == Some(mut_ref_future(h))
                },
    {
        // Currently throws away useful information about invalid histories. Ideally
        // checking would continue, but the property would be labeled with an error.
        match env.msg {
            RegisterMsg::Get(_) => {
                let mut history = history.clone();
                let _ = history.on_invoke(env.src, RegisterOp::Read);
                Some(history)
            },
            RegisterMsg::Put(_req_id, value) => {
                let mut history = history.clone();
                let _ = history.on_invoke(env.src, RegisterOp::Write(value.clone()));
                Some(history)
            },
            _ => None,
        }
    }

    /// A helper for a model whose history is a [`ConsistencyTester`]: records
    /// [`RegisterRet::ReadOk`] upon [`RegisterMsg::GetOk`] and [`RegisterRet::WriteOk`] upon
    /// [`RegisterMsg::PutOk`], returned to the message's destination, in a copy of the history.
    /// Other messages leave the history alone (`None`).
    pub fn record_returns<C, H>(
        _cfg: &C,
        history: &H,
        env: Envelope<&RegisterMsg<RequestId, Value, InternalMsg>>,
    ) -> (r: Option<H>) where
        H: Clone + ConsistencyTester<Id, Register<Value>>,
        Value: Clone + Debug + PartialEq,

        ensures
            r is Some <==> (*env.msg is GetOk || *env.msg is PutOk),
            *env.msg is GetOk ==> exists|h: &mut H, res: Result<&mut H, String>, v: Value|
                #![trigger call_ensures(H::on_return, (h, env.dst, RegisterRet::<Value>::ReadOk(v)), res)]
                {
                    &&& vstd::pervasive::cloned(*history, mut_ref_current(h))
                    &&& vstd::pervasive::cloned((*env.msg)->GetOk_1, v)
                    &&& call_ensures(H::on_return, (h, env.dst, RegisterRet::<Value>::ReadOk(v)), res)
                    &&& r == Some(mut_ref_future(h))
                },
            *env.msg is PutOk ==> exists|h: &mut H, res: Result<&mut H, String>|
                #![trigger call_ensures(H::on_return, (h, env.dst, RegisterRet::<Value>::WriteOk), res)]
                {
                    &&& vstd::pervasive::cloned(*history, mut_ref_current(h))
                    &&& call_ensures(H::on_return, (h, env.dst, RegisterRet::<Value>::WriteOk), res)
                    &&& r == Some(mut_ref_future(h))
                },
    {
        // Currently throws away useful information about invalid histories. Ideally
        // checking would continue, but the property would be labeled with an error.
        match env.msg {
            RegisterMsg::GetOk(_, v) => {
                let mut history = history.clone();
                let _ = history.on_return(env.dst, RegisterRet::ReadOk(v.clone()));
                Some(history)
            },
            RegisterMsg::PutOk(_) => {
                let mut history = history.clone();
                let _ = history.on_return(env.dst, RegisterRet::WriteOk);
                Some(history)
            },
            _ => None,
        }
    }
}

/// The messages of a register protocol as its clients see them: clients build writes and reads,
/// and recognize the acknowledgement of a write and the reply to a read.
pub trait RegisterClientMsg: Sized {
    /// The request that the message acknowledges (a write) or answers (a read, marked `true`),
    /// if it is such a reply.
    spec fn reply_spec(&self) -> Option<(u64, bool)>;

    /// Computes [`RegisterClientMsg::reply_spec`].
    fn reply(&self) -> (r: Option<(u64, bool)>)
        ensures
            r == self.reply_spec(),
    ;

    /// The request to write `value`.
    spec fn put_spec(request_id: u64, value: char) -> Self;

    /// The request to read.
    spec fn get_spec(request_id: u64) -> Self;

    /// A request to write `value`.
    fn put(request_id: u64, value: char) -> (r: Self)
        ensures
            r == Self::put_spec(request_id, value),
    ;

    /// A request to read.
    fn get(request_id: u64) -> (r: Self)
        ensures
            r == Self::get_spec(request_id),
    ;
}

impl<InternalMsg> RegisterClientMsg for RegisterMsg<u64, char, InternalMsg> {
    open spec fn reply_spec(&self) -> Option<(u64, bool)> {
        match self {
            RegisterMsg::PutOk(r) => Some((*r, false)),
            RegisterMsg::GetOk(r, _) => Some((*r, true)),
            _ => None,
        }
    }

    open spec fn put_spec(request_id: u64, value: char) -> Self {
        RegisterMsg::Put(request_id, value)
    }

    open spec fn get_spec(request_id: u64) -> Self {
        RegisterMsg::Get(request_id)
    }

    fn reply(&self) -> (r: Option<(u64, bool)>) {
        match self {
            RegisterMsg::PutOk(r) => Some((*r, false)),
            RegisterMsg::GetOk(r, _) => Some((*r, true)),
            _ => None,
        }
    }

    fn put(request_id: u64, value: char) -> (r: Self) {
        RegisterMsg::Put(request_id, value)
    }

    fn get(request_id: u64) -> (r: Self) {
        RegisterMsg::Get(request_id)
    }
}

/// An actor of a register system under test: a client, or the server being validated.
#[derive(Clone, Debug, Eq, PartialEq)]
pub enum RegisterActor<ServerActor> {
    /// A client that [`RegisterMsg::Put`]s a message and upon receiving a corresponding
    /// [`RegisterMsg::PutOk`] follows up with a [`RegisterMsg::Get`].
    Client { put_count: usize, server_count: usize },
    /// A server actor being validated.
    Server(ServerActor),
}

/// The state of a [`RegisterActor`].
#[derive(Clone, Debug, Eq, Hash, PartialEq)]
pub enum RegisterActorState<ServerState, RequestId> {
    /// A client that sends a sequence of [`RegisterMsg::Put`] messages before sending a
    /// [`RegisterMsg::Get`].
    Client { awaiting: Option<RequestId>, op_count: u64 },
    /// Wraps the state of a server actor.
    Server(ServerState),
}

/// Whether a client with identifier `index` can address servers: there are servers, and the
/// client comes after them.
pub open spec fn client_placed(index: u64, server_count: u64) -> bool {
    0 < server_count <= index
}

/// The state in which a client starts: awaiting the acknowledgement of its first write when it
/// has writes to make and can address servers, idle otherwise.
pub open spec fn client_start<S>(index: u64, put_count: usize, server_count: usize) -> RegisterActorState<
    S,
    u64,
> {
    if put_count == 0 || !client_placed(index, server_count as u64) {
        RegisterActorState::Client { awaiting: None, op_count: 0 }
    } else {
        RegisterActorState::Client { awaiting: Some(index), op_count: 1 }
    }
}

/// The state of a client after a message: the acknowledgement of the awaited write moves it on
/// to its next request (counted, with identifier `(op_count + 1) * index`, both wrapping
/// around at `u64::MAX`); the reply
/// to the awaited read leaves it idle; anything else changes nothing.
pub open spec fn client_after<S>(
    index: u64,
    awaiting: Option<u64>,
    op_count: u64,
    reply: Option<(u64, bool)>,
) -> Option<RegisterActorState<S, u64>> {
    match (awaiting, reply) {
        (Some(a), Some((r, is_read))) => if r != a {
            None
        } else if is_read {
            Some(
                RegisterActorState::Client {
                    awaiting: None,
                    op_count: vstd::wrapping::u64_specs::wrapping_add(op_count, 1),
                },
            )
        } else {
            Some(
                RegisterActorState::Client {
                    awaiting: Some(
                        vstd::wrapping::u64_specs::wrapping_mul(
                            vstd::wrapping::u64_specs::wrapping_add(op_count, 1),
                            index,
                        ),
                    ),
                    op_count: vstd::wrapping::u64_specs::wrapping_add(op_count, 1),
                },
            )
        },
        _ => None,
    }
}

/// The server to which client `index` sends its request after its `op_count`-th operation:
/// counting `op_count` places on from server `index % server_count`, wrapping around past the
/// last server.
pub open spec fn client_dst(index: u64, op_count: u64, server_count: u64) -> u64 {
    let a = index % server_count;
    let b = op_count % server_count;
    if a >= server_count - b {
        (a - (server_count - b)) as u64
    } else {
        (a + b) as u64
    }
}

/// The value that client `index` writes first: `'A'` plus the client's offset past the servers,
/// wrapping within bytes.
pub open spec fn first_value(index: u64, server_count: u64) -> char {
    (vstd::wrapping::u8_specs::wrapping_add(
        65u8,
        (#[verifier::truncate] ((index - server_count) as u8)),
    )) as char
}

/// The value that client `index` writes after its first write: `'Z'` less the client's offset
/// past the servers, wrapping within bytes.
pub open spec fn later_value(index: u64, server_count: u64) -> char {
    (vstd::wrapping::u8_specs::wrapping_sub(
        90u8,
        (#[verifier::truncate] (vstd::wrapping::u64_specs::wrapping_sub(index, server_count) as u8)),
    )) as char
}

/// The request client `index` makes after the acknowledgement of its write numbered
/// `op_count`: another write while it has made fewer than `put_count` operations, a read
/// otherwise, with the identifier `(op_count + 1) * index` (wrapping at `u64::MAX`).
pub open spec fn client_request<M: RegisterClientMsg>(
    index: u64,
    put_count: usize,
    server_count: u64,
    op_count: u64,
) -> M {
    let request_id = vstd::wrapping::u64_specs::wrapping_mul(
        vstd::wrapping::u64_specs::wrapping_add(op_count, 1),
        index,
    );
    if op_count < put_count {
        M::put_spec(request_id, later_value(index, server_count))
    } else {
        M::get_spec(request_id)
    }
}

/// The message acknowledges the write that the client awaits.
pub open spec fn acknowledges(awaiting: Option<u64>, reply: Option<(u64, bool)>) -> bool {
    awaiting is Some && reply == Some((awaiting->0, false))
}

// The clients assume the servers are at the beginning of the list of actors in the system under
// test, so that an arbitrary server destination can be derived from
// `(client_id + k) % server_count` for any `k`.
impl<ServerActor> Actor for RegisterActor<ServerActor> where
    ServerActor: Actor,
    ServerActor::Msg: RegisterClientMsg,
 {
    type Msg = ServerActor::Msg;

    type State = RegisterActorState<ServerActor::State, u64>;

    type Timer = ServerActor::Timer;

    type Random = ServerActor::Random;

    type Storage = ServerActor::Storage;

    /// "Client" for a client; for a server, its own name, or "Server" if that is empty.
    fn name(&self) -> (r: String)
        ensures
            self is Client ==> r@ == "Client"@,
    {
        match self {
            RegisterActor::Client { .. } => String::from_str("Client"),
            RegisterActor::Server(s) => {
                let n = s.name();
                if n.as_str().is_empty() {
                    String::from_str("Server")
                } else {
                    n
                }
            },
        }
    }

    /// A client with writes to make sends its first write, of the value `'A' + k` for the
    /// `k`-th client (wrapping within bytes), to a server; a server starts as it does.
    fn on_start(&self, id: Id, storage: &Option<Self::Storage>, o: &mut Out<Self>) -> (r:
        Self::State)
        ensures
            self matches RegisterActor::Client { put_count, server_count } ==> r == client_start::<
                ServerActor::State,
            >(id@, *put_count, *server_count),
            self is Server ==> r is Server,
            self matches RegisterActor::Client { put_count, server_count } ==> if *put_count > 0
                && client_placed(id@, *server_count as u64) {
                &&& final(o).0@.len() == old(o).0@.len() + 1
                &&& final(o).0@.drop_last() == old(o).0@
                &&& final(o).0@.last() matches crate::actor::Command::Send(dst, m)
                &&& dst@ == id@ % (*server_count as u64)
                &&& dst@ < *server_count
                &&& m == Self::Msg::put_spec(id@, first_value(id@, *server_count as u64))
            } else {
                final(o).0@ == old(o).0@
            },
    {
        match self {
            RegisterActor::Client { put_count, server_count } => {
                let server_count = *server_count as u64;
                let index = id.0;
                if *put_count == 0 || server_count == 0 || index < server_count {
                    RegisterActorState::Client { awaiting: None, op_count: 0 }
                } else {
                    let unique_request_id = index;
                    let offset = #[verifier::truncate] ((index - server_count) as u8);
                    let value = (65u8).wrapping_add(offset) as char;
                    o.0.push(
                        crate::actor::Command::Send(
                            Id(index % server_count),
                            Self::Msg::put(unique_request_id, value),
                        ),
                    );
                    RegisterActorState::Client { awaiting: Some(unique_request_id), op_count: 1 }
                }
            },
            RegisterActor::Server(server_actor) => {
                let mut server_out: Out<ServerActor> = Out::new();
                let state = RegisterActorState::Server(
                    server_actor.on_start(id, storage, &mut server_out),
                );
                o.0.append(&mut server_out.0);
                state
            },
        }
    }

    /// A client follows [`client_after`]: after the acknowledgement of a write it sends its next
    /// write (of `'Z' - k` for the `k`-th client, wrapping within bytes) until it has made
    /// `put_count` of them, then a read. A server handles the message as it does.
    fn on_msg(
        &self,
        id: Id,
        state: &mut Cow<Self::State>,
        src: Id,
        msg: Self::Msg,
        o: &mut Out<Self>,
    )
        ensures
            self is Client ==> (current_state(*old(state)) matches RegisterActorState::Client {
                awaiting,
                op_count,
            } ==> match client_after::<ServerActor::State>(
                id@,
                awaiting,
                op_count,
                msg.reply_spec(),
            ) {
                Some(next) => current_state(*final(state)) == next,
                None => *final(state) == *old(state),
            }),
            self matches RegisterActor::Client { put_count, server_count } ==> (current_state(
                *old(state),
            ) matches RegisterActorState::Client { awaiting, op_count } ==> if acknowledges(
                awaiting,
                msg.reply_spec(),
            ) && *server_count as u64 > 0 {
                &&& final(o).0@.len() == old(o).0@.len() + 1
                &&& final(o).0@.drop_last() == old(o).0@
                &&& final(o).0@.last() matches crate::actor::Command::Send(dst, m)
                &&& dst@ == client_dst(id@, op_count, *server_count as u64)
                &&& m == client_request::<Self::Msg>(id@, *put_count, *server_count as u64, op_count)
            } else {
                final(o).0@ == old(o).0@
            }),
    {
        match self {
            RegisterActor::Client { put_count, server_count } => {
                let server_count = *server_count as u64;
                match current(state) {
                    RegisterActorState::Client { awaiting: Some(awaiting), op_count } => {
                        let awaiting = *awaiting;
                        let op_count = *op_count;
                        match msg.reply() {
                            Some((request_id, is_read)) => {
                                if request_id == awaiting {
                                    if is_read {
                                        *state = Cow::Owned(
                                            RegisterActorState::Client {
                                                awaiting: None,
                                                op_count: op_count.wrapping_add(1),
                                            },
                                        );
                                    } else {
                                        let index = id.0;
                                        let unique_request_id = op_count.wrapping_add(1).wrapping_mul(
                                            index,
                                        );
                                        if server_count > 0 {
                                            let a = index % server_count;
                                            let b = op_count % server_count;
                                            let dst = if a >= server_count - b {
                                                Id(a - (server_count - b))
                                            } else {
                                                Id(a + b)
                                            };
                                            if op_count < *put_count as u64 {
                                                let offset = #[verifier::truncate] (index.wrapping_sub(
                                                    server_count,
                                                ) as u8);
                                                let value = (90u8).wrapping_sub(offset) as char;
                                                o.0.push(
                                                    crate::actor::Command::Send(
                                                        dst,
                                                        Self::Msg::put(unique_request_id, value),
                                                    ),
                                                );
                                            } else {
                                                o.0.push(
                                                    crate::actor::Command::Send(
                                                        dst,
                                                        Self::Msg::get(unique_request_id),
                                                    ),
                                                );
                                            }
                                        }
                                        *state = Cow::Owned(
                                            RegisterActorState::Client {
                                                awaiting: Some(unique_request_id),
                                                op_count: op_count.wrapping_add(1),
                                            },
                                        );
                                    }
                                }
                            },
                            None => {},
                        }
                    },
                    _ => {},
                }
            },
            RegisterActor::Server(server_actor) => match current(state) {
                RegisterActorState::Server(server_state) => {
                    let mut server_state: Cow<ServerActor::State> = Cow::Borrowed(server_state);
                    let mut server_out: Out<ServerActor> = Out::new();
                    server_actor.on_msg(id, &mut server_state, src, msg, &mut server_out);
                    if let Cow::Owned(server_state) = server_state {
                        *state = Cow::Owned(RegisterActorState::Server(server_state));
                    }
                    o.0.append(&mut server_out.0);
                },
                _ => {},
            },
        }
    }

    /// A server handles the timeout as it does; clients have no timers.
    fn on_timeout(&self, id: Id, state: &mut Cow<Self::State>, timer: &Self::Timer, o: &mut Out<Self>)
        ensures
            self is Client ==> *final(state) == *old(state),
            self is Client || current_state(*old(state)) is Client ==> *final(state) == *old(state)
                && final(o).0@ == old(o).0@,
            old(o).0@.is_prefix_of(final(o).0@),
            *final(state) == *old(state) || *final(state) is Owned,
            (current_state(*final(state)) is Server) == (current_state(*old(state)) is Server),
    {
        match self {
            RegisterActor::Client { .. } => {},
            RegisterActor::Server(server_actor) => match current(state) {
                RegisterActorState::Server(server_state) => {
                    let mut server_state: Cow<ServerActor::State> = Cow::Borrowed(server_state);
                    let mut server_out: Out<ServerActor> = Out::new();
                    server_actor.on_timeout(id, &mut server_state, timer, &mut server_out);
                    if let Cow::Owned(server_state) = server_state {
                        *state = Cow::Owned(RegisterActorState::Server(server_state));
                    }
                    o.0.append(&mut server_out.0);
                },
                _ => {},
            },
        }
    }
}

} // verus!
