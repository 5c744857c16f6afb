use stateright::actor::ordered_reliable_link::{ActorWrapper, MsgWrapper, TimerWrapper};
use stateright::actor::{Actor, Command, Id, Out};
use std::borrow::Cow;

/// Records each message and answers it with the next number.
struct Echo;

impl Actor for Echo {
    type Msg = u8;
    type State = Vec<u8>;
    type Timer = ();
    type Random = ();
    type Storage = ();
    fn on_start(&self, _id: Id, _storage: &Option<()>, _o: &mut Out<Self>) -> Vec<u8> {
        Vec::new()
    }
    fn on_msg(&self, _id: Id, state: &mut Cow<Vec<u8>>, src: Id, msg: u8, o: &mut Out<Self>) {
        state.to_mut().push(msg);
        o.send(src, msg + 1);
    }
}

#[test]
fn link_starts_with_its_resend_timer() {
    let link = ActorWrapper::with_default_timeout(Echo);
    let mut o = Out::new();
    let state = link.on_start(Id::from(0), &None, &mut o);
    assert!(state.wrapped_state().is_empty());
    assert_eq!(o.len(), 1);
    assert!(matches!(&o.commands()[0], Command::SetTimer(TimerWrapper::Network, d) if d.start.as_secs() == 1 && d.end.as_secs() == 2));
}

#[test]
fn link_delivers_once_acknowledges_always_and_resends_until_acknowledged() {
    let link = ActorWrapper::with_default_timeout(Echo);
    let mut o = Out::new();
    let state = link.on_start(Id::from(0), &None, &mut o);

    // First delivery: acknowledged, handed over, answered under sequencer 1, then saved.
    let mut o = Out::new();
    let mut cow = Cow::Borrowed(&state);
    link.on_msg(Id::from(0), &mut cow, Id::from(1), MsgWrapper::Deliver(1, 5), &mut o);
    let delivered = cow.into_owned();
    assert_eq!(delivered.wrapped_state(), &vec![5]);
    let cmds = o.commands();
    assert_eq!(cmds.len(), 4);
    assert!(matches!(cmds[0], Command::Send(dst, MsgWrapper::Ack(1)) if dst == Id::from(1)));
    assert!(matches!(cmds[1], Command::Send(dst, MsgWrapper::Deliver(1, 6)) if dst == Id::from(1)));
    assert!(matches!(cmds[2], Command::Save(_)));
    assert!(matches!(cmds[3], Command::Save(_)));

    // The same message again: only acknowledged.
    let mut o = Out::new();
    let mut cow = Cow::Borrowed(&delivered);
    link.on_msg(Id::from(0), &mut cow, Id::from(1), MsgWrapper::Deliver(1, 5), &mut o);
    assert!(matches!(cow, Cow::Borrowed(_)));
    assert_eq!(o.len(), 1);
    assert!(matches!(o.commands()[0], Command::Send(dst, MsgWrapper::Ack(1)) if dst == Id::from(1)));

    // The resend timer resends the unacknowledged answer.
    let mut o = Out::new();
    let mut cow = Cow::Borrowed(&delivered);
    link.on_timeout(Id::from(0), &mut cow, &TimerWrapper::Network, &mut o);
    assert!(matches!(cow, Cow::Borrowed(_)));
    let cmds = o.commands();
    assert_eq!(cmds.len(), 2);
    assert!(matches!(cmds[0], Command::SetTimer(TimerWrapper::Network, _)));
    assert!(matches!(cmds[1], Command::Send(dst, MsgWrapper::Deliver(1, 6)) if dst == Id::from(1)));

    // Once acknowledged, nothing is left to resend.
    let mut o = Out::new();
    let mut cow = Cow::Borrowed(&delivered);
    link.on_msg(Id::from(0), &mut cow, Id::from(1), MsgWrapper::Ack(1), &mut o);
    let acked = cow.into_owned();
    assert_eq!(o.len(), 1);
    assert!(matches!(o.commands()[0], Command::Save(_)));
    let mut o = Out::new();
    let mut cow = Cow::Borrowed(&acked);
    link.on_timeout(Id::from(0), &mut cow, &TimerWrapper::Network, &mut o);
    assert_eq!(o.len(), 1);
}

#[test]
fn link_ignores_an_older_sequencer_from_the_same_sender() {
    let link = ActorWrapper::with_default_timeout(Echo);
    let mut o = Out::new();
    let state = link.on_start(Id::from(0), &None, &mut o);
    let mut cow = Cow::Borrowed(&state);
    link.on_msg(Id::from(0), &mut cow, Id::from(2), MsgWrapper::Deliver(3, 7), &mut o);
    let later = cow.into_owned();
    let mut o = Out::new();
    let mut cow = Cow::Borrowed(&later);
    link.on_msg(Id::from(0), &mut cow, Id::from(2), MsgWrapper::Deliver(2, 9), &mut o);
    assert!(matches!(cow, Cow::Borrowed(_)));
    assert_eq!(o.len(), 1);
    // Another sender's messages are numbered apart.
    let mut o = Out::new();
    let mut cow = Cow::Borrowed(&later);
    link.on_msg(Id::from(0), &mut cow, Id::from(4), MsgWrapper::Deliver(1, 9), &mut o);
    assert_eq!(cow.into_owned().wrapped_state(), &vec![7, 9]);
}
