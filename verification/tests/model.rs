use std::hash::Hasher;
use stateright::actor::{
    model_timeout, Actor, ActorModel, ActorModelAction, ActorModelState, Envelope, Id,
    LossyNetwork, Network, NetworkKind, Out, RandomChoices, Timers,
};
use stateright::checker::{Rewrite, RewritePlan};
use std::borrow::Cow;

fn no_record<C, H, M>(_cfg: &C, _history: &H, _env: Envelope<&M>) -> Option<H> {
    None
}

fn count_msgs(_cfg: &(), history: &usize, _env: Envelope<&u32>) -> Option<usize> {
    Some(history + 1)
}

/// Actor 0 pings actor 1 on start; each actor answers a message `n` below 2 with `n + 1`.
struct Counter;

impl Actor for Counter {
    type Msg = u32;
    type State = u32;
    type Timer = ();
    type Random = ();
    type Storage = ();

    fn on_start(&self, id: Id, _storage: &Option<()>, o: &mut Out<Self>) -> u32 {
        if id == Id::from(0) {
            o.send(Id::from(1), 0);
        }
        0
    }

    fn on_msg(&self, _id: Id, state: &mut Cow<u32>, src: Id, msg: u32, o: &mut Out<Self>) {
        *state.to_mut() = msg + 1;
        if msg < 2 {
            o.send(src, msg + 1);
        }
    }
}

fn counter_model(kind: NetworkKind) -> ActorModel<Counter, (), usize> {
    let network = match kind {
        NetworkKind::Ordered => Network::new_ordered(vec![]),
        NetworkKind::UnorderedDuplicating => Network::new_unordered_duplicating(vec![]),
        NetworkKind::UnorderedNonDuplicating => Network::new_unordered_nonduplicating(vec![]),
    };
    ActorModel::new((), 0).actor(Counter).actor(Counter).init_network(network)
}

#[test]
fn model_starts_each_actor() {
    let model = counter_model(NetworkKind::UnorderedNonDuplicating);
    let init = model.init_states(&count_msgs);
    assert_eq!(init.len(), 1);
    let s = &init[0];
    assert_eq!(s.actor_states.len(), 2);
    assert_eq!(*s.actor_states[0], 0);
    assert_eq!(s.crashed, vec![false, false]);
    assert_eq!(s.history, 1);
    assert_eq!(s.network.len(), 1);
    let all = s.network.iter_all();
    assert_eq!(all[0], Envelope { src: Id::from(0), dst: Id::from(1), msg: &0 });
}

#[test]
fn model_delivers_and_records() {
    let model = counter_model(NetworkKind::UnorderedNonDuplicating);
    let init = model.init_states(&count_msgs);
    let mut actions = Vec::new();
    model.actions(&init[0], &mut actions);
    assert_eq!(
        actions,
        vec![ActorModelAction::Deliver { src: Id::from(0), dst: Id::from(1), msg: 0 }]
    );
    let next = model
        .next_state(&init[0], actions[0].clone(), &count_msgs, &count_msgs)
        .unwrap();
    assert_eq!(*next.actor_states[1], 1);
    // one message in, one message out
    assert_eq!(next.history, 3);
    let all = next.network.iter_all();
    assert_eq!(all, vec![Envelope { src: Id::from(1), dst: Id::from(0), msg: &1 }]);
}

#[test]
fn model_ignores_deliveries_to_missing_or_crashed_actors() {
    let model = counter_model(NetworkKind::UnorderedDuplicating).max_crashes(1);
    let init = model.init_states(&no_record);
    let missing = ActorModelAction::Deliver { src: Id::from(0), dst: Id::from(9), msg: 0 };
    assert!(model.next_state(&init[0], missing, &no_record, &no_record).is_none());
    let crashed = model
        .next_state(&init[0], ActorModelAction::Crash(Id::from(1)), &no_record, &no_record)
        .unwrap();
    assert_eq!(crashed.crashed, vec![false, true]);
    let deliver = ActorModelAction::Deliver { src: Id::from(0), dst: Id::from(1), msg: 0 };
    assert!(model.next_state(&crashed, deliver, &no_record, &no_record).is_none());
    let mut actions = Vec::new();
    model.actions(&crashed, &mut actions);
    assert_eq!(
        actions,
        vec![
            ActorModelAction::Deliver { src: Id::from(0), dst: Id::from(1), msg: 0 },
            ActorModelAction::Recover(Id::from(1)),
        ]
    );
    let recovered = model
        .next_state(&crashed, ActorModelAction::Recover(Id::from(1)), &no_record, &no_record)
        .unwrap();
    assert_eq!(recovered.crashed, vec![false, false]);
}

#[test]
fn lossy_model_can_drop() {
    let model = counter_model(NetworkKind::UnorderedNonDuplicating).lossy_network(LossyNetwork::Yes);
    let init = model.init_states(&no_record);
    let mut actions = Vec::new();
    model.actions(&init[0], &mut actions);
    let env = Envelope { src: Id::from(0), dst: Id::from(1), msg: 0 };
    assert_eq!(actions[0], ActorModelAction::Drop(env));
    assert_eq!(actions.len(), 2);
    let dropped = model.next_state(&init[0], ActorModelAction::Drop(env), &no_record, &no_record).unwrap();
    assert_eq!(dropped.network.len(), 0);
    assert_eq!(*dropped.actor_states[1], 0);
}

/// Sets a timer on start; a timeout increments the state and renews the timer.
struct Ticker;

impl Actor for Ticker {
    type Msg = ();
    type State = u8;
    type Timer = u8;
    type Random = char;
    type Storage = u8;

    fn on_start(&self, _id: Id, storage: &Option<u8>, o: &mut Out<Self>) -> u8 {
        o.set_timer(7, model_timeout());
        o.choose_random("pick", vec!['a', 'b']);
        storage.unwrap_or(0)
    }

    fn on_timeout(&self, _id: Id, state: &mut Cow<u8>, timer: &u8, o: &mut Out<Self>) {
        if **state < 1 {
            *state.to_mut() += 1;
            o.save(**state);
        }
        o.set_timer(*timer, model_timeout());
    }

    fn on_random(&self, _id: Id, state: &mut Cow<u8>, random: &char, _o: &mut Out<Self>) {
        if *random == 'b' {
            *state.to_mut() = 10;
        }
    }
}

#[test]
fn model_fires_timers_and_selects_randoms() {
    let model = ActorModel::<Ticker, (), ()>::new((), ()).actor(Ticker).max_crashes(1);
    let init = model.init_states(&no_record);
    let s = &init[0];
    let mut actions = Vec::new();
    model.actions(s, &mut actions);
    assert_eq!(
        actions,
        vec![
            ActorModelAction::Timeout(Id::from(0), 7),
            ActorModelAction::Crash(Id::from(0)),
            ActorModelAction::SelectRandom { actor: Id::from(0), key: "pick".to_string(), random: 'a' },
            ActorModelAction::SelectRandom { actor: Id::from(0), key: "pick".to_string(), random: 'b' },
        ]
    );
    let ticked = model.next_state(s, actions[0].clone(), &no_record, &no_record).unwrap();
    assert_eq!(*ticked.actor_states[0], 1);
    assert_eq!(ticked.actor_storages, vec![Some(1)]);
    assert_eq!(ticked.timers_set[0].iter(), &[7]);
    // Once the state stops changing, a timeout that only renews its timer is no step.
    assert!(model.next_state(&ticked, actions[0].clone(), &no_record, &no_record).is_none());
    let chosen = model.next_state(s, actions[3].clone(), &no_record, &no_record).unwrap();
    assert_eq!(*chosen.actor_states[0], 10);
    assert!(chosen.random_choices[0].entries().is_empty());
    let crashed = model.next_state(&ticked, ActorModelAction::Crash(Id::from(0)), &no_record, &no_record).unwrap();
    assert!(crashed.timers_set[0].iter().is_empty());
    let recovered = model.next_state(&crashed, ActorModelAction::Recover(Id::from(0)), &no_record, &no_record).unwrap();
    // restarts from its storage
    assert_eq!(*recovered.actor_states[0], 1);
    assert_eq!(recovered.timers_set[0].iter(), &[7]);
}

#[test]
fn ordered_model_delivers_each_flow_in_order() {
    let model = counter_model(NetworkKind::Ordered);
    let mut state: ActorModelState<Counter, usize> = model.init_states(&no_record).remove(0);
    state.network = Network::new_ordered(vec![
        Envelope { src: Id::from(0), dst: Id::from(1), msg: 5 },
        Envelope { src: Id::from(0), dst: Id::from(1), msg: 6 },
    ]);
    let mut actions = Vec::new();
    model.actions(&state, &mut actions);
    assert_eq!(actions, vec![ActorModelAction::Deliver { src: Id::from(0), dst: Id::from(1), msg: 5 }]);
}

#[test]
fn networks_send_deliver_and_drop() {
    let a = Envelope { src: Id::from(0), dst: Id::from(1), msg: 'a' };
    let b = Envelope { src: Id::from(1), dst: Id::from(0), msg: 'b' };
    let mut dup = Network::new_unordered_duplicating(vec![a, a, b]);
    assert_eq!(dup.len(), 2);
    assert_eq!(dup.kind(), NetworkKind::UnorderedDuplicating);
    let mut nondup = Network::new_unordered_nonduplicating(vec![a, a, b]);
    assert_eq!(nondup.len(), 3);
    assert_eq!(nondup.iter_deliverable().len(), 2);
    assert_eq!(nondup.iter_all().len(), 3);
    assert!(dup != nondup);
    assert_eq!(
        Network::new_unordered_nonduplicating(vec![b, a, a]),
        Network::new_unordered_nonduplicating(vec![a, b, a])
    );
    assert!(Network::new_unordered_nonduplicating(vec![a, b]) != Network::new_unordered_nonduplicating(vec![a, b, b]));
    assert_eq!(Network::new_unordered_duplicating(vec![b, a]), dup);
    assert_eq!(dup.len(), 2);
    nondup = Network::new_unordered_nonduplicating(vec![a]);
    assert_eq!(nondup.iter_all(), vec![Envelope { src: Id::from(0), dst: Id::from(1), msg: &'a' }]);
}

#[test]
fn ordered_network_groups_flows_by_key() {
    let e = |s: usize, d: usize, m: char| Envelope { src: Id::from(s), dst: Id::from(d), msg: m };
    let n = Network::new_ordered(vec![e(2, 0, 'x'), e(0, 1, 'y'), e(2, 0, 'z'), e(0, 1, 'w')]);
    let all: Vec<char> = n.iter_all().iter().map(|e| *e.msg).collect();
    assert_eq!(all, vec!['y', 'w', 'x', 'z']);
    let heads: Vec<char> = n.iter_deliverable().iter().map(|e| *e.msg).collect();
    assert_eq!(heads, vec!['y', 'x']);
    // Flows compare in order; the order across flows is irrelevant.
    assert_eq!(n, Network::new_ordered(vec![e(0, 1, 'y'), e(2, 0, 'x'), e(0, 1, 'w'), e(2, 0, 'z')]));
    assert!(n != Network::new_ordered(vec![e(0, 1, 'w'), e(2, 0, 'x'), e(0, 1, 'y'), e(2, 0, 'z')]));
}

#[test]
fn can_rewrite_network() {
    let original: Network<_> = Network::new_unordered_duplicating(vec![
        // Id(0) sends peers "Write(X)" and receives two acks.
        Envelope { src: 0.into(), dst: 1.into(), msg: "Write(X)" },
        Envelope { src: 0.into(), dst: 2.into(), msg: "Write(X)" },
        Envelope { src: 1.into(), dst: 0.into(), msg: "Ack(X)" },
        Envelope { src: 2.into(), dst: 0.into(), msg: "Ack(X)" },
        // Id(2) sends peers "Write(Y)" and receives one ack.
        Envelope { src: 2.into(), dst: 0.into(), msg: "Write(Y)" },
        Envelope { src: 2.into(), dst: 1.into(), msg: "Write(Y)" },
        Envelope { src: 1.into(), dst: 2.into(), msg: "Ack(Y)" },
    ]);
    assert_eq!(
        original.rewrite(&RewritePlan::from_values_to_sort(&vec![2, 0, 1])),
        Network::new_unordered_duplicating(vec![
            // Id(2) sends peers "Write(X)" and receives two acks.
            Envelope { src: 2.into(), dst: 0.into(), msg: "Write(X)" },
            Envelope { src: 2.into(), dst: 1.into(), msg: "Write(X)" },
            Envelope { src: 0.into(), dst: 2.into(), msg: "Ack(X)" },
            Envelope { src: 1.into(), dst: 2.into(), msg: "Ack(X)" },
            // Id(1) sends peers "Write(Y)" and receives one ack.
            Envelope { src: 1.into(), dst: 2.into(), msg: "Write(Y)" },
            Envelope { src: 1.into(), dst: 0.into(), msg: "Write(Y)" },
            Envelope { src: 0.into(), dst: 1.into(), msg: "Ack(Y)" },
        ])
    );
    assert_eq!(
        original.rewrite(&RewritePlan::from_values_to_sort(&vec![0, 2, 1])),
        Network::new_unordered_duplicating(vec![
            // Id(0) sends peers "Write(X)" and receives two acks.
            Envelope { src: 0.into(), dst: 2.into(), msg: "Write(X)" },
            Envelope { src: 0.into(), dst: 1.into(), msg: "Write(X)" },
            Envelope { src: 2.into(), dst: 0.into(), msg: "Ack(X)" },
            Envelope { src: 1.into(), dst: 0.into(), msg: "Ack(X)" },
            // Id(1) sends peers "Write(Y)" and receives one ack.
            Envelope { src: 1.into(), dst: 0.into(), msg: "Write(Y)" },
            Envelope { src: 1.into(), dst: 2.into(), msg: "Write(Y)" },
            Envelope { src: 2.into(), dst: 1.into(), msg: "Ack(Y)" },
        ])
    );
}

#[test]
fn timers_hold_each_timer_once() {
    let mut t = Timers::new();
    assert!(t.set('a'));
    assert!(!t.set('a'));
    assert!(t.set('b'));
    assert_eq!(t.iter(), &['a', 'b']);
    assert!(t.cancel(&'a'));
    assert!(!t.cancel(&'a'));
    assert_eq!(t.iter(), &['b']);
    let c = t.clone();
    t.cancel_all();
    assert!(t.iter().is_empty());
    assert_eq!(c.iter(), &['b']);
    assert!(Timers::<u8>::default().iter().is_empty());
}

#[test]
fn random_choices_replace_and_remove() {
    let mut r = RandomChoices::default();
    r.insert("k".to_string(), vec![1, 2]);
    r.insert("j".to_string(), vec![3]);
    r.insert("k".to_string(), vec![4]);
    assert_eq!(r.entries(), &[("k".to_string(), vec![4]), ("j".to_string(), vec![3])]);
    assert_eq!(r.remove(&"k".to_string()), Some(vec![4]));
    assert_eq!(r.remove(&"k".to_string()), None);
    let c = r.clone();
    r.clear();
    assert!(r.entries().is_empty());
    assert_eq!(c.entries(), &[("j".to_string(), vec![3])]);
}

fn hash_value<T: std::hash::Hash>(t: &T) -> u64 {
    let mut h = std::collections::hash_map::DefaultHasher::new();
    t.hash(&mut h);
    h.finish()
}

#[test]
fn equal_collections_hash_alike() {
    let a = Envelope { src: Id::from(0), dst: Id::from(1), msg: 'a' };
    let b = Envelope { src: Id::from(1), dst: Id::from(0), msg: 'b' };
    let n1 = Network::new_unordered_nonduplicating(vec![a, b, a]);
    let n2 = Network::new_unordered_nonduplicating(vec![b, a, a]);
    assert_eq!(n1, n2);
    assert_eq!(hash_value(&n1), hash_value(&n2));
    assert_eq!(n1.digest().len(), 4);
    assert_ne!(hash_value(&n1), hash_value(&Network::new_unordered_nonduplicating(vec![b, a])));
    let mut t1 = Timers::new();
    t1.set(1u8);
    t1.set(2u8);
    let mut t2 = Timers::new();
    t2.set(2u8);
    t2.set(1u8);
    assert_eq!(hash_value(&t1), hash_value(&t2));
    let mut r1 = RandomChoices::default();
    r1.insert("x".to_string(), vec!['p']);
    r1.insert("y".to_string(), vec!['q']);
    let mut r2 = RandomChoices::default();
    r2.insert("y".to_string(), vec!['q']);
    r2.insert("x".to_string(), vec!['p']);
    assert_eq!(hash_value(&r1), hash_value(&r2));
}
