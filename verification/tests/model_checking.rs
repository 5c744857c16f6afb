use stateright::actor::{
    model_timeout, Actor, ActorModel, ActorModelAction, ActorModelState, Envelope, Id,
    LossyNetwork, Network, Out, Unused,
};
use stateright::actor::diagram::{DiagramMark, StepView};
use stateright::actor::Command;
use stateright::actor::ordered_reliable_link::{ActorWrapper, MsgWrapper, TimerWrapper};
use stateright::checker::bfs::{check_block, fingerprint_path, init_jobs};
use stateright::checker::{Expectation, Path};
use std::borrow::Cow;
use std::cell::RefCell;
use std::collections::hash_map::DefaultHasher;
use std::collections::{BTreeSet, HashMap};
use std::hash::{Hash, Hasher};
use std::sync::Arc;

fn fingerprint<T: Hash>(value: &T) -> u64 {
    let mut hasher = DefaultHasher::new();
    value.hash(&mut hasher);
    hasher.finish()
}

fn no_record<C, H, M>(_cfg: &C, _history: &H, _env: Envelope<&M>) -> Option<H> {
    None
}

type Record<C, H, M> = fn(&C, &H, Envelope<&M>) -> Option<H>;

/// A property of the states of a model: its name, its expectation and its condition.
struct Property<'a, S> {
    name: &'static str,
    expectation: Expectation,
    condition: Box<dyn Fn(&S) -> bool + 'a>,
}

/// What a breadth-first check found.
struct Report<S, Act> {
    unique_state_count: usize,
    visited: Vec<S>,
    discoveries: Vec<(&'static str, Path<S, Act>)>,
}

impl<S, Act> Report<S, Act> {
    fn discovery(&self, name: &str) -> Option<&Path<S, Act>> {
        self.discoveries.iter().find(|(n, _)| *n == name).map(|(_, p)| p)
    }
}

/// Checks an actor model breadth first with the library's checking steps, recording each
/// visited state, until every property has a discovery or no state is left.
fn check_bfs<'a, A, C, H>(
    model: &'a ActorModel<A, C, H>,
    properties: Vec<Property<'a, ActorModelState<A, H>>>,
    within_boundary: &dyn Fn(&ActorModelState<A, H>) -> bool,
    record_in: Record<C, H, A::Msg>,
    record_out: Record<C, H, A::Msg>,
) -> Report<ActorModelState<A, H>, ActorModelAction<A::Msg, A::Timer, A::Random>>
where
    A: Actor,
    H: Clone + Hash,
{
    let expectations: Vec<Expectation> = properties.iter().map(|p| p.expectation).collect();
    let visited: RefCell<HashMap<u64, ActorModelState<A, H>>> = RefCell::new(HashMap::new());
    let fp = |s: &ActorModelState<A, H>| fingerprint(s);
    let holds = |i: usize, s: &ActorModelState<A, H>| {
        visited.borrow_mut().entry(fingerprint(s)).or_insert_with(|| s.clone());
        (properties[i].condition)(s)
    };
    let next_steps = |s: &ActorModelState<A, H>| {
        let mut actions = Vec::new();
        model.actions(s, &mut actions);
        actions
            .into_iter()
            .filter_map(|a| model.next_state(s, a.clone(), &record_in, &record_out).map(|n| (a, n)))
            .filter(|(_, n)| within_boundary(n))
            .collect::<Vec<_>>()
    };
    let next_states = |s: &ActorModelState<A, H>| {
        next_steps(s).into_iter().map(|(_, n)| n).collect::<Vec<_>>()
    };
    let (mut pending, mut generated) = init_jobs(&expectations, model.init_states(&record_out), &fp);
    let mut discoveries: Vec<Option<u64>> = vec![None; expectations.len()];
    while !pending.is_empty() && discoveries.iter().any(|d| d.is_none()) {
        check_block(
            &expectations,
            &mut pending,
            &mut generated,
            &mut discoveries,
            1500,
            None,
            &fp,
            &holds,
            &next_states,
        );
    }
    let mut found = Vec::new();
    for (i, d) in discoveries.iter().enumerate() {
        if let Some(d) = d {
            let fps = fingerprint_path(&generated, *d).unwrap();
            let path =
                Path::from_fingerprints(model.init_states(&record_out), &fps, &fp, &next_steps)
                    .unwrap();
            found.push((properties[i].name, path));
        }
    }
    let visited = visited.into_inner().into_values().collect();
    Report { unique_state_count: generated.len(), visited, discoveries: found }
}

fn always_true<'a, S>() -> Vec<Property<'a, S>> {
    vec![Property { name: "unused", expectation: Expectation::Always, condition: Box::new(|_: &S| true) }]
}

#[test]
fn handles_undeliverable_messages() {
    let model = ActorModel::<Unused, (), ()>::new((), ())
        .actor(Unused)
        .init_network(Network::new_unordered_duplicating(vec![Envelope {
            src: 0.into(),
            dst: 99.into(),
            msg: Unused,
        }]));
    let report = check_bfs(&model, always_true(), &|_| true, no_record, no_record);
    assert_eq!(report.unique_state_count, 1);
}

#[derive(Clone)]
struct OrderedNetworkActor;

impl Actor for OrderedNetworkActor {
    type Msg = u8;
    type State = Vec<u8>;
    type Timer = ();
    type Random = ();
    type Storage = ();
    fn on_start(&self, id: Id, _storage: &Option<Self::Storage>, o: &mut Out<Self>) -> Self::State {
        if id == 0.into() {
            // Count down.
            o.send(1.into(), 2);
            o.send(1.into(), 1);
        }
        Vec::new()
    }
    fn on_msg(&self, _: Id, state: &mut Cow<Self::State>, _: Id, msg: Self::Msg, _: &mut Out<Self>) {
        state.to_mut().push(msg);
    }
}

fn recipient_states(network: Network<u8>) -> BTreeSet<Vec<u8>> {
    let model = ActorModel::<OrderedNetworkActor, (), ()>::new((), ())
        .actors(vec![OrderedNetworkActor, OrderedNetworkActor])
        .init_network(network);
    let report = check_bfs(&model, always_true(), &|_| true, no_record, no_record);
    report.visited.iter().map(|s| (*s.actor_states[1]).clone()).collect()
}

#[test]
fn handles_ordered_network_flag() {
    // Fewer states if network is ordered.
    assert_eq!(
        recipient_states(Network::new_ordered(vec![])),
        BTreeSet::from([vec![], vec![2], vec![2, 1]])
    );
    // More states if network is not ordered.
    assert_eq!(
        recipient_states(Network::new_unordered_nonduplicating(vec![])),
        BTreeSet::from([vec![], vec![1], vec![2], vec![1, 2], vec![2, 1]]),
    );
}

struct TimerActor;

impl Actor for TimerActor {
    type State = ();
    type Msg = ();
    type Timer = ();
    type Random = ();
    type Storage = ();
    fn on_start(&self, _: Id, _: &Option<Self::Storage>, o: &mut Out<Self>) {
        o.set_timer((), model_timeout());
    }
}

#[test]
fn resets_timer() {
    // Init state with timer, followed by next state without timer.
    let model = ActorModel::<TimerActor, (), ()>::new((), ()).actor(TimerActor);
    let report = check_bfs(&model, always_true(), &|_| true, no_record, no_record);
    assert_eq!(report.unique_state_count, 2);
}

#[derive(Hash, PartialEq, Eq, Debug, Clone)]
enum TestRandom {
    Choice1,
    Choice2,
    Choice3,
}

struct RandomActor;

impl Actor for RandomActor {
    type State = Option<TestRandom>;
    type Msg = ();
    type Timer = ();
    type Random = TestRandom;
    type Storage = ();
    fn on_start(&self, _: Id, _: &Option<Self::Storage>, o: &mut Out<Self>) -> Option<TestRandom> {
        o.choose_random("key1", vec![TestRandom::Choice1, TestRandom::Choice2, TestRandom::Choice3]);
        None
    }
    fn on_random(&self, _: Id, state: &mut Cow<Self::State>, random: &Self::Random, _: &mut Out<Self>) {
        *state.to_mut() = Some(random.clone());
    }
}

#[test]
fn choose_random() {
    // Init state with a random choice, followed by 3 possible next states.
    let model = ActorModel::<RandomActor, (), ()>::new((), ()).actor(RandomActor);
    let report = check_bfs(&model, always_true(), &|_| true, no_record, no_record);
    assert_eq!(report.unique_state_count, 4);
}

struct OverwritingActor;

impl Actor for OverwritingActor {
    type State = Vec<TestRandom>;
    type Msg = ();
    type Timer = ();
    type Random = TestRandom;
    type Storage = ();
    fn on_start(&self, _: Id, _: &Option<Self::Storage>, o: &mut Out<Self>) -> Vec<TestRandom> {
        o.choose_random("key1", vec![TestRandom::Choice1]);
        o.choose_random("key2", vec![TestRandom::Choice2, TestRandom::Choice3]);
        Vec::new()
    }
    fn on_random(&self, _: Id, state: &mut Cow<Self::State>, random: &Self::Random, o: &mut Out<Self>) {
        if *random == TestRandom::Choice1 {
            // Narrows "key2" to Choice3, or offers it again if it was taken already.
            o.choose_random("key2", vec![TestRandom::Choice3]);
        }
        state.to_mut().push(random.clone());
    }
}

#[test]
fn overwrite_choose_random() {
    //      /-> key1:Choice1 -> key2:Choice3
    // Init --> key2:Choice2 -> key1:Choice1 -> key2:Choice3
    //      \-> key2:Choice3 -> key1:Choice1 -> key2:Choice3
    let model = ActorModel::<OverwritingActor, (), ()>::new((), ()).actor(OverwritingActor);
    let report = check_bfs(&model, always_true(), &|_| true, no_record, no_record);
    assert_eq!(report.unique_state_count, 9);
}

#[derive(Clone)]
struct IdleActor;

impl Actor for IdleActor {
    type Msg = ();
    type Timer = ();
    type State = ();
    type Storage = ();
    type Random = ();
    fn on_start(&self, _id: Id, _storage: &Option<Self::Storage>, _o: &mut Out<Self>) -> Self::State {}
}

#[test]
fn crash_test() {
    let model = ActorModel::<IdleActor, (), ()>::new((), ())
        .actors(vec![IdleActor, IdleActor, IdleActor])
        .max_crashes(1);
    let report = check_bfs(&model, always_true(), &|_| true, no_record, no_record);
    // comb(3, 1) + 1 (no actor is crashed) = 3 + 1 = 4
    assert_eq!(report.unique_state_count, 4);
}

#[derive(Clone)]
struct RecoveringActor(usize); // carry a counter to limit the model space

#[derive(Clone, Debug, PartialEq, Hash)]
struct RecoveringState {
    volatile: usize,
    non_volatile: usize,
}

#[derive(Clone, Debug, PartialEq, Hash)]
struct RecoveringStorage {
    non_volatile: usize,
}

impl Actor for RecoveringActor {
    type Msg = ();
    type Timer = ();
    type State = RecoveringState;
    type Storage = RecoveringStorage;
    type Random = ();

    fn on_start(&self, _id: Id, storage: &Option<Self::Storage>, o: &mut Out<Self>) -> Self::State {
        o.set_timer((), model_timeout());
        match storage {
            // restore non-volatile state from `storage`
            Some(storage) => RecoveringState { volatile: 0, non_volatile: storage.non_volatile },
            None => RecoveringState { volatile: 0, non_volatile: 0 },
        }
    }

    fn on_timeout(&self, _id: Id, state: &mut Cow<Self::State>, _timer: &(), o: &mut Out<Self>) {
        let state = state.to_mut();
        state.volatile += 1;
        state.non_volatile += 1;
        o.save(RecoveringStorage { non_volatile: state.non_volatile });
        if state.non_volatile < self.0 {
            // restore the timer
            o.set_timer((), model_timeout());
        }
    }
}

#[test]
fn recover_test() {
    let model = ActorModel::<RecoveringActor, (), ()>::new((), ())
        .actor(RecoveringActor(3))
        .max_crashes(1);
    let properties = vec![Property {
        name: "recovered",
        expectation: Expectation::Sometimes,
        condition: Box::new(|state: &ActorModelState<RecoveringActor, ()>| {
            let actor_state = state.actor_states.first().unwrap();
            actor_state.non_volatile > actor_state.volatile
        }),
    }];
    let report = check_bfs(&model, properties, &|_| true, no_record, no_record);
    let path = report.discovery("recovered").expect("a discovery of \"recovered\"");
    let last = &path.last_state().actor_states[0];
    assert!(last.non_volatile > last.volatile);
}

#[derive(Clone)]
enum ClientOrServer {
    Client { server: Id },
    Server,
}

#[derive(Clone, Debug, Eq, Hash, PartialEq)]
enum InterestMsg {
    Ignored,
    Interesting,
}

impl Actor for ClientOrServer {
    type Msg = InterestMsg;
    type State = String;
    type Timer = ();
    type Random = ();
    type Storage = ();
    fn on_start(&self, _id: Id, _storage: &Option<Self::Storage>, o: &mut Out<Self>) -> Self::State {
        if let ClientOrServer::Client { server } = self {
            o.send(*server, InterestMsg::Ignored);
            o.send(*server, InterestMsg::Interesting);
        }
        "Awaiting an interesting message.".to_string()
    }
    fn on_msg(&self, _: Id, state: &mut Cow<Self::State>, _: Id, msg: Self::Msg, _: &mut Out<Self>) {
        if msg == InterestMsg::Interesting {
            *state.to_mut() = "Got an interesting message.".to_string();
        }
    }
}

fn interest_state_count(network: Network<InterestMsg>) -> usize {
    let model = ActorModel::<ClientOrServer, (), ()>::new((), ())
        .actor(ClientOrServer::Client { server: 1.into() })
        .actor(ClientOrServer::Server)
        .lossy_network(LossyNetwork::No)
        .init_network(network);
    check_bfs(&model, always_true(), &|_| true, no_record, no_record).unique_state_count
}

#[test]
fn no_op_depends_on_network() {
    // initial and delivery of Interesting
    assert_eq!(interest_state_count(Network::new_unordered_duplicating(vec![])), 2);
    // initial and delivery of Interesting
    assert_eq!(interest_state_count(Network::new_unordered_nonduplicating(vec![])), 2);
    // initial, delivery of Uninteresting, and subsequent delivery of Interesting
    assert_eq!(interest_state_count(Network::new_ordered(vec![])), 3);
}

struct PingPongActor {
    serve_to: Option<Id>,
}

#[derive(Clone, Debug, Eq, Hash, PartialEq)]
enum PingPongMsg {
    Ping(u32),
    Pong(u32),
}

impl Actor for PingPongActor {
    type Msg = PingPongMsg;
    type State = u32; // count
    type Timer = ();
    type Random = ();
    type Storage = ();
    fn on_start(&self, _id: Id, _storage: &Option<Self::Storage>, o: &mut Out<Self>) -> Self::State {
        if let Some(id) = self.serve_to {
            o.send(id, PingPongMsg::Ping(0));
        }
        0
    }
    fn on_msg(&self, _id: Id, state: &mut Cow<Self::State>, src: Id, msg: Self::Msg, o: &mut Out<Self>) {
        match msg {
            PingPongMsg::Pong(msg_value) if **state == msg_value => {
                o.send(src, PingPongMsg::Ping(msg_value + 1));
                *state.to_mut() += 1;
            }
            PingPongMsg::Ping(msg_value) if **state == msg_value => {
                o.send(src, PingPongMsg::Pong(msg_value));
                *state.to_mut() += 1;
            }
            _ => {}
        }
    }
}

const MAX_NAT: u32 = 5;

type PingPongState = ActorModelState<PingPongActor, (u32, u32)>;

fn ping_pong_model(network: Network<PingPongMsg>, lossy: LossyNetwork) -> ActorModel<PingPongActor, (), (u32, u32)> {
    ActorModel::new((), (0, 0))
        .actor(PingPongActor { serve_to: Some(1.into()) })
        .actor(PingPongActor { serve_to: None })
        .init_network(network)
        .lossy_network(lossy)
}

fn reaches(state: &PingPongState, n: u32) -> bool {
    state.actor_states.iter().any(|count| **count == n)
}

fn ping_pong_properties<'a>() -> Vec<Property<'a, PingPongState>> {
    vec![
        Property {
            name: "delta within 1",
            expectation: Expectation::Always,
            condition: Box::new(|state: &PingPongState| {
                let max = state.actor_states.iter().max().unwrap();
                let min = state.actor_states.iter().min().unwrap();
                **max - **min <= 1
            }),
        },
        Property {
            name: "can reach max",
            expectation: Expectation::Sometimes,
            condition: Box::new(|state: &PingPongState| reaches(state, MAX_NAT)),
        },
        Property {
            name: "must reach max",
            expectation: Expectation::Eventually,
            condition: Box::new(|state: &PingPongState| reaches(state, MAX_NAT)),
        },
        // this one is falsifiable due to the boundary
        Property {
            name: "must exceed max",
            expectation: Expectation::Eventually,
            condition: Box::new(|state: &PingPongState| reaches(state, MAX_NAT + 1)),
        },
    ]
}

fn ping_pong_report(
    network: Network<PingPongMsg>,
    lossy: LossyNetwork,
) -> Report<PingPongState, ActorModelAction<PingPongMsg, (), ()>> {
    let model = ping_pong_model(network, lossy);
    let boundary = |state: &PingPongState| state.actor_states.iter().all(|count| **count <= MAX_NAT);
    check_bfs(&model, ping_pong_properties(), &boundary, no_record, no_record)
}

#[test]
fn maintains_fixed_delta_despite_lossy_duplicating_network() {
    let report = ping_pong_report(Network::new_unordered_duplicating(vec![]), LossyNetwork::Yes);
    assert_eq!(report.unique_state_count, 4_094);
    assert!(report.discovery("delta within 1").is_none());
}

#[test]
fn may_never_reach_max_on_lossy_network() {
    let report = ping_pong_report(Network::new_unordered_duplicating(vec![]), LossyNetwork::Yes);
    assert_eq!(report.unique_state_count, 4_094);
    assert!(report.discovery("must reach max").is_some());

    // can lose the first message and get stuck, for example
    let model = ping_pong_model(Network::new_unordered_duplicating(vec![]), LossyNetwork::Yes);
    let init = model.init_states(&no_record).remove(0);
    let drop = ActorModelAction::Drop(Envelope { src: Id::from(0), dst: Id::from(1), msg: PingPongMsg::Ping(0) });
    let stuck = model.next_state(&init, drop, &no_record, &no_record).unwrap();
    let mut actions = Vec::new();
    model.actions(&stuck, &mut actions);
    assert!(actions.is_empty());
    assert!(!reaches(&init, MAX_NAT) && !reaches(&stuck, MAX_NAT));
}

#[test]
fn eventually_reaches_max_on_perfect_delivery_network() {
    let report = ping_pong_report(Network::new_unordered_nonduplicating(vec![]), LossyNetwork::No);
    assert_eq!(report.unique_state_count, 11);
    assert!(report.discovery("must reach max").is_none());
}

#[test]
fn can_reach_max() {
    let report = ping_pong_report(Network::new_unordered_duplicating(vec![]), LossyNetwork::No);
    assert_eq!(report.unique_state_count, 11);
    assert_eq!(
        report.discovery("can reach max").unwrap().last_state().actor_states,
        vec![Arc::new(4), Arc::new(5)]
    );
}

#[test]
fn might_never_reach_beyond_max() {
    // ^ and in fact will never: a falsifiable liveness property (eventually must exceed max),
    //   where "will never" is a verifiable safety property (always will not exceed).
    let report = ping_pong_report(Network::new_unordered_nonduplicating(vec![]), LossyNetwork::No);
    assert_eq!(report.unique_state_count, 11);

    // this is an example of a liveness property that fails to hold (due to the boundary)
    assert_eq!(
        report.discovery("must exceed max").unwrap().last_state().actor_states,
        vec![Arc::new(5), Arc::new(5)]
    );
}

#[test]
fn vec_actor_sends_its_messages_in_sequence() {
    // Each actor sends its next message once it receives one; a duplicating network keeps
    // every message, and a message that finds the sequence done changes nothing.
    let model = ActorModel::<Vec<(Id, char)>, (), ()>::new((), ())
        .actor(vec![(1.into(), 'A'), (1.into(), 'B')])
        .actor(vec![(0.into(), 'C'), (0.into(), 'D')]);
    let report = check_bfs(&model, always_true(), &|_| true, no_record, no_record);
    let mut messages_by_state: Vec<(usize, usize, Vec<char>)> = report
        .visited
        .iter()
        .map(|s| {
            let mut messages: Vec<char> = s.network.iter_deliverable().into_iter().map(|e| *e.msg).collect();
            messages.sort();
            (*s.actor_states[0], *s.actor_states[1], messages)
        })
        .collect();
    messages_by_state.sort();
    assert_eq!(
        messages_by_state,
        vec![
            (1, 1, vec!['A', 'C']),
            (1, 2, vec!['A', 'C', 'D']),
            (2, 1, vec!['A', 'B', 'C']),
            (2, 2, vec!['A', 'B', 'C', 'D']),
        ]
    );
}

enum LinkTestActor {
    Sender { receiver_id: Id },
    Receiver,
}

#[derive(Clone, Debug, Eq, Hash, PartialEq)]
struct Received(Vec<(Id, TestMsg)>);

#[derive(Clone, Debug, Eq, Hash, Ord, PartialEq, PartialOrd)]
struct TestMsg(u64);

impl Actor for LinkTestActor {
    type Msg = TestMsg;
    type State = Received;
    type Timer = ();
    type Random = ();
    type Storage = ();
    fn on_start(&self, _id: Id, _storage: &Option<Self::Storage>, o: &mut Out<Self>) -> Self::State {
        if let LinkTestActor::Sender { receiver_id } = self {
            o.send(*receiver_id, TestMsg(42));
            o.send(*receiver_id, TestMsg(43));
        }
        Received(Vec::new())
    }
    fn on_msg(&self, _id: Id, received: &mut Cow<Self::State>, src: Id, msg: Self::Msg, _o: &mut Out<Self>) {
        received.to_mut().0.push((src, msg));
    }
}

type LinkState = ActorModelState<ActorWrapper<LinkTestActor>, ()>;

fn link_model() -> ActorModel<ActorWrapper<LinkTestActor>, (), ()> {
    ActorModel::new((), ())
        .actor(ActorWrapper::with_default_timeout(LinkTestActor::Sender { receiver_id: Id::from(1) }))
        .actor(ActorWrapper::with_default_timeout(LinkTestActor::Receiver))
        .init_network(Network::new_unordered_duplicating(vec![]))
        .lossy_network(LossyNetwork::Yes)
}

fn received(state: &LinkState) -> &Vec<(Id, TestMsg)> {
    &state.actor_states[1].wrapped_state().0
}

fn link_properties<'a>() -> Vec<Property<'a, LinkState>> {
    vec![
        Property {
            name: "no redelivery",
            expectation: Expectation::Always,
            condition: Box::new(|state: &LinkState| {
                let received = received(state);
                received.iter().filter(|(_, TestMsg(v))| *v == 42).count() < 2
                    && received.iter().filter(|(_, TestMsg(v))| *v == 43).count() < 2
            }),
        },
        Property {
            name: "ordered",
            expectation: Expectation::Always,
            condition: Box::new(|state: &LinkState| {
                received(state)
                    .iter()
                    .map(|(_, TestMsg(v))| *v)
                    .fold((true, 0), |(acc, last), next| (acc && last <= next, next))
                    .0
            }),
        },
        Property {
            name: "delivered",
            expectation: Expectation::Sometimes,
            condition: Box::new(|state: &LinkState| {
                *received(state) == vec![(Id::from(0), TestMsg(42)), (Id::from(0), TestMsg(43))]
            }),
        },
    ]
}

fn link_report() -> Report<LinkState, ActorModelAction<MsgWrapper<TestMsg>, TimerWrapper<()>, ()>> {
    let model = link_model();
    check_bfs(&model, link_properties(), &|state: &LinkState| state.network.len() < 4, no_record, no_record)
}

#[test]
fn messages_are_not_delivered_twice() {
    assert!(link_report().discovery("no redelivery").is_none());
}

#[test]
fn messages_are_delivered_in_order() {
    assert!(link_report().discovery("ordered").is_none());
}

#[test]
fn messages_are_eventually_delivered() {
    assert!(link_report().discovery("delivered").is_some());
    // The two deliveries in order reach the state sought.
    let model = link_model();
    let mut state = model.init_states(&no_record).remove(0);
    for (seq, value) in [(1, 42), (2, 43)] {
        let action = ActorModelAction::Deliver {
            src: Id::from(0),
            dst: Id::from(1),
            msg: MsgWrapper::Deliver(seq, TestMsg(value)),
        };
        state = model.next_state(&state, action, &no_record, &no_record).unwrap();
    }
    assert_eq!(*received(&state), vec![(Id::from(0), TestMsg(42)), (Id::from(0), TestMsg(43))]);
}

fn ping_pong_next_steps(
    model: &ActorModel<PingPongActor, (), (u32, u32)>,
) -> impl Fn(&PingPongState) -> Vec<(ActorModelAction<PingPongMsg, (), ()>, PingPongState)> + '_ {
    move |s: &PingPongState| {
        let mut actions = Vec::new();
        model.actions(s, &mut actions);
        actions
            .into_iter()
            .filter_map(|a| model.next_state(s, a.clone(), &no_record, &no_record).map(|n| (a, n)))
            .collect()
    }
}

#[test]
fn step_view_replays_the_actor() {
    let model = ping_pong_model(Network::new_unordered_nonduplicating(vec![]), LossyNetwork::No);
    let init = model.init_states(&no_record).remove(0);
    let ping = ActorModelAction::Deliver { src: Id::from(0), dst: Id::from(1), msg: PingPongMsg::Ping(0) };
    match model.step_view(&init, ping) {
        Some(StepView::Actor { last_state, next_state, out }) => {
            assert_eq!(*last_state, 0);
            assert_eq!(next_state, Some(1));
            assert!(matches!(out.commands(), [Command::Send(dst, PingPongMsg::Pong(0))] if *dst == Id::from(0)));
        }
        _ => panic!("the receiver takes the step"),
    }
    let missing = ActorModelAction::Timeout(Id::from(7), ());
    assert!(model.step_view(&init, missing).is_none());
    match model.step_view(&init, ActorModelAction::Crash(Id::from(0))) {
        Some(StepView::Actor { next_state: None, out, .. }) => assert_eq!(out.len(), 0),
        _ => panic!("a crash changes no state and outputs nothing"),
    }
}

#[test]
fn diagram_marks_link_deliveries_to_their_sends() {
    let model = ping_pong_model(Network::new_unordered_nonduplicating(vec![]), LossyNetwork::No);
    let init = model.init_states(&no_record).remove(0);
    let ping = ActorModelAction::Deliver { src: Id::from(0), dst: Id::from(1), msg: PingPongMsg::Ping(0) };
    let pong = ActorModelAction::Deliver { src: Id::from(1), dst: Id::from(0), msg: PingPongMsg::Pong(0) };
    let after_ping = model.next_state(&init, ping, &no_record, &no_record).unwrap();
    let after_pong = model.next_state(&after_ping, pong, &no_record, &no_record).unwrap();
    let fps = vec![fingerprint(&init), fingerprint(&after_ping), fingerprint(&after_pong)];
    let fp = |s: &PingPongState| fingerprint(s);
    let path = Path::from_fingerprints(vec![init], &fps, &fp, &ping_pong_next_steps(&model)).unwrap();
    let marks = model.diagram_marks(path);
    assert_eq!(marks.len(), 3);
    // The ping was sent on start (time 0), delivered at time 1; the pong, sent then, at time 2.
    assert!(matches!(&marks[0], Some(DiagramMark::Delivery { sent: 0, time: 1, msg: PingPongMsg::Ping(0), .. })));
    assert!(matches!(&marks[1], Some(DiagramMark::Delivery { sent: 1, time: 2, msg: PingPongMsg::Pong(0), .. })));
    assert!(marks[2].is_none());
}
