use stateright::actor::register::{RegisterActor, RegisterActorState, RegisterMsg};
use stateright::actor::{
    is_no_op, is_no_op_with_timer, majority, model_peers, model_timeout, peer_ids, Actor, Command,
    Envelope, Id, Out, Unused,
};
use stateright::semantics::register::Register;
use stateright::semantics::{ConsistencyTester, LinearizabilityTester};
use std::borrow::Cow;

#[test]
fn majority_is_computed_correctly() {
    assert_eq!(majority(1), 1);
    assert_eq!(majority(2), 2);
    assert_eq!(majority(3), 2);
    assert_eq!(majority(4), 3);
    assert_eq!(majority(5), 3);
}

#[test]
fn peer_ids_are_computed_correctly() {
    let ids: Vec<Id> = (0..3).map(Id::from).collect();
    assert_eq!(
        peer_ids(ids[1], &ids),
        vec![&Id::from(0), &Id::from(2)]
    );
}

#[test]
fn model_peers_skip_self() {
    assert_eq!(model_peers(1, 3), Id::vec_from(vec![0, 2]));
    assert_eq!(model_peers(0, 1), Vec::<Id>::new());
    assert_eq!(model_peers(5, 2), Id::vec_from(vec![0, 1]));
    let t = model_timeout();
    assert_eq!(t.start, t.end);
}

#[test]
fn ids_convert_and_display() {
    assert_eq!(usize::from(Id::from(7)), 7);
    assert_eq!(Id::vec_from(vec![3, 1]), vec![Id::from(3), Id::from(1)]);
    assert_eq!(format!("{:?}", Id::from(3)), "Id(3)");
    assert_eq!(Id::from(0).display_text(), "0.0.0.0:0");
    // 1.2.3.4:5 is encoded in the bytes 2 to 7 of the identifier.
    let id = Id::from(0x0102_0304_0005usize);
    assert_eq!(id.display_text(), "1.2.3.4:5");
}

struct Pinger;

impl Actor for Pinger {
    type Msg = u8;
    type State = u8;
    type Timer = ();
    type Random = ();
    type Storage = ();

    fn on_start(&self, _id: Id, _storage: &Option<()>, o: &mut Out<Self>) -> u8 {
        o.send(Id::from(1), 0);
        0
    }

    fn on_msg(&self, _id: Id, state: &mut Cow<u8>, src: Id, msg: u8, o: &mut Out<Self>) {
        if msg > **state {
            *state.to_mut() = msg;
            o.send(src, msg + 1);
        }
    }
}

#[test]
fn out_records_commands_in_order() {
    let mut o: Out<Pinger> = Out::new();
    o.send(Id::from(1), 5);
    o.set_timer((), model_timeout());
    o.cancel_timer(());
    o.broadcast(&[Id::from(2), Id::from(3)], &9);
    o.choose_random("k", vec![(), ()]);
    o.remove_random("k");
    o.save(());
    assert_eq!(o.len(), 8);
    let cmds = o.into_commands();
    assert!(matches!(cmds[0], Command::Send(id, 5) if id == Id::from(1)));
    assert!(matches!(cmds[1], Command::SetTimer((), _)));
    assert!(matches!(cmds[2], Command::CancelTimer(())));
    assert!(matches!(cmds[3], Command::Send(id, 9) if id == Id::from(2)));
    assert!(matches!(cmds[4], Command::Send(id, 9) if id == Id::from(3)));
    assert!(matches!(&cmds[5], Command::ChooseRandom(k, r) if k == "k" && r.len() == 2));
    assert!(matches!(&cmds[6], Command::ChooseRandom(k, r) if k == "k" && r.is_empty()));
    assert!(matches!(cmds[7], Command::Save(())));
}

#[test]
fn out_append_moves_commands() {
    let mut a: Out<Pinger> = Out::new();
    let mut b: Out<Pinger> = Out::new();
    a.send(Id::from(0), 1);
    b.send(Id::from(1), 2);
    b.send(Id::from(2), 3);
    a.append(&mut b);
    assert_eq!(a.len(), 3);
    assert_eq!(b.len(), 0);
}

#[test]
fn no_op_detection() {
    let s = 3u8;
    let state: Cow<u8> = Cow::Borrowed(&s);
    let mut o: Out<Pinger> = Out::new();
    assert!(is_no_op(&state, &o));
    let owned: Cow<u8> = Cow::Owned(4);
    assert!(!is_no_op(&owned, &o));
    o.set_timer((), model_timeout());
    assert!(!is_no_op(&state, &o));
    assert!(is_no_op_with_timer(&state, &o, &()));
    o.send(Id::from(0), 1);
    assert!(!is_no_op_with_timer(&state, &o, &()));
}

#[test]
fn vec_serves_as_actor() {
    let script = vec![(Id::from(1), 'A'), (Id::from(2), 'B')];
    let mut o: Out<Vec<(Id, char)>> = Out::new();
    let s = script.on_start(Id::from(0), &None, &mut o);
    assert_eq!(s, 1);
    assert!(matches!(o.commands()[0], Command::Send(id, 'A') if id == Id::from(1)));
    let mut state: Cow<usize> = Cow::Borrowed(&s);
    script.on_msg(Id::from(0), &mut state, Id::from(1), 'x', &mut o);
    assert_eq!(*state, 2);
    assert!(matches!(o.commands()[1], Command::Send(id, 'B') if id == Id::from(2)));
    let t = *state;
    let mut state: Cow<usize> = Cow::Borrowed(&t);
    script.on_msg(Id::from(0), &mut state, Id::from(1), 'x', &mut o);
    assert!(is_no_op(&state, &Out::<Vec<(Id, char)>>::new()));
    assert_eq!(o.len(), 2);
    let _ = Unused;
}

#[test]
fn envelope_clones_message() {
    let m = String::from("hi");
    let e = Envelope { src: Id::from(1), dst: Id::from(2), msg: &m };
    assert_eq!(e.to_cloned_msg(), Envelope { src: Id::from(1), dst: Id::from(2), msg: m.clone() });
}

struct NullServer;

impl Actor for NullServer {
    type Msg = RegisterMsg<u64, char, ()>;
    type State = ();
    type Timer = ();
    type Random = ();
    type Storage = ();

    fn on_start(&self, _id: Id, _storage: &Option<()>, _o: &mut Out<Self>) {}
}

#[test]
fn register_client_writes_then_reads() {
    let client: RegisterActor<NullServer> = RegisterActor::Client { put_count: 2, server_count: 2 };
    let mut o = Out::new();
    let s = client.on_start(Id::from(3), &None, &mut o);
    assert_eq!(s, RegisterActorState::Client { awaiting: Some(3), op_count: 1 });
    assert!(matches!(o.commands()[0], Command::Send(id, RegisterMsg::Put(3, 'B')) if id == Id::from(1)));

    let mut state = Cow::Borrowed(&s);
    client.on_msg(Id::from(3), &mut state, Id::from(1), RegisterMsg::PutOk(3), &mut o);
    assert_eq!(*state, RegisterActorState::Client { awaiting: Some(6), op_count: 2 });
    assert!(matches!(o.commands()[1], Command::Send(id, RegisterMsg::Put(6, 'Y')) if id == Id::from(0)));

    let s2 = state.into_owned();
    let mut state = Cow::Borrowed(&s2);
    client.on_msg(Id::from(3), &mut state, Id::from(0), RegisterMsg::PutOk(6), &mut o);
    assert_eq!(*state, RegisterActorState::Client { awaiting: Some(9), op_count: 3 });
    assert!(matches!(o.commands()[2], Command::Send(id, RegisterMsg::Get(9)) if id == Id::from(1)));

    let s3 = state.into_owned();
    let mut state = Cow::Borrowed(&s3);
    client.on_msg(Id::from(3), &mut state, Id::from(1), RegisterMsg::GetOk(9, 'Y'), &mut o);
    assert_eq!(*state, RegisterActorState::Client { awaiting: None, op_count: 4 });

    // A reply to another request changes nothing.
    let s4 = state.into_owned();
    let mut state = Cow::Borrowed(&s4);
    client.on_msg(Id::from(3), &mut state, Id::from(1), RegisterMsg::PutOk(1), &mut o);
    assert!(matches!(state, Cow::Borrowed(_)));
    assert_eq!(client.name(), "Client");
    assert_eq!(RegisterActor::Server(NullServer).name(), "Server");
}

#[test]
fn register_messages_are_recorded() {
    let history: LinearizabilityTester<Id, Register<char>> = LinearizabilityTester::new(Register('?'));
    let put = RegisterMsg::<u64, char, ()>::Put(1, 'A');
    let env = Envelope { src: Id::from(2), dst: Id::from(0), msg: &put };
    let h = RegisterMsg::record_invocations(&(), &history, env).expect("recorded");
    assert_eq!(h.len(), 1);
    let ok = RegisterMsg::<u64, char, ()>::PutOk(1);
    let env = Envelope { src: Id::from(0), dst: Id::from(2), msg: &ok };
    let h = RegisterMsg::record_returns(&(), &h, env).expect("recorded");
    assert_eq!(h.len(), 1);
    assert!(h.is_consistent());
    let internal = RegisterMsg::<u64, char, ()>::Internal(());
    let env = Envelope { src: Id::from(0), dst: Id::from(2), msg: &internal };
    assert!(RegisterMsg::record_returns(&(), &h, env).is_none());
}
