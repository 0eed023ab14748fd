use myrmidon::mailbox::{
    bounded_channel, channel, ExitInfo, ExitReason, Message, SystemMessage,
};

fn user(b: &[u8]) -> Message {
    Message::User(b.to_vec())
}

fn payload(m: Option<Message>) -> Vec<u8> {
    match m {
        Some(Message::User(b)) => b,
        other => panic!("expected user message, got {:?}", other),
    }
}

#[test]
fn send_and_recv() {
    let mut mb = channel();
    mb.send(user(b"hello")).unwrap();
    let got = mb.try_recv();
    assert_eq!(payload(got), b"hello".to_vec());
}

#[test]
fn bounded_mailbox_drop_new() {
    let mut mb = bounded_channel(2);
    mb.send(user(b"m1")).unwrap();
    mb.send(user(b"m2")).unwrap();
    // third send is refused because capacity is 2, and hands the message back
    let refused = mb.send(user(b"m3"));
    assert_eq!(refused, Err(user(b"m3")));
    assert_eq!(mb.len(), 2);
    assert_eq!(payload(mb.try_recv()), b"m1".to_vec());
    assert_eq!(payload(mb.try_recv()), b"m2".to_vec());
    assert_eq!(mb.try_recv(), None);
}

#[test]
fn selective_receive_defers_and_preserves_order() {
    let mut mb = channel();
    mb.send(user(b"m1")).unwrap();
    mb.send(user(b"target")).unwrap();
    mb.send(user(b"m3")).unwrap();
    let got = mb.selective_recv(|m: &Message| match m {
        Message::User(b) => b.as_slice() == b"target",
        _ => false,
    });
    assert_eq!(payload(got), b"target".to_vec());
    assert_eq!(payload(mb.try_recv()), b"m1".to_vec());
    assert_eq!(payload(mb.try_recv()), b"m3".to_vec());
}

#[test]
fn system_message_is_received_before_user_message() {
    let mut mb = channel();
    mb.send(user(b"u")).unwrap();
    mb.send(Message::System(SystemMessage::Ping)).unwrap();
    assert_eq!(mb.try_recv(), Some(Message::System(SystemMessage::Ping)));
    assert_eq!(payload(mb.try_recv()), b"u".to_vec());
}

#[test]
fn stashed_system_message_comes_before_stashed_user_message() {
    let mut mb = channel();
    mb.send(user(b"a")).unwrap();
    mb.send(Message::System(SystemMessage::Pong)).unwrap();
    // nothing matches: both are stashed, system first in examination order
    assert_eq!(mb.selective_recv(|_m: &Message| false), None);
    assert_eq!(mb.len(), 1);
    assert_eq!(mb.try_recv(), Some(Message::System(SystemMessage::Pong)));
    assert_eq!(payload(mb.try_recv()), b"a".to_vec());
    assert_eq!(mb.len(), 0);
}

#[test]
fn counter_includes_stashed_messages() {
    let mut mb = channel();
    mb.send(user(b"x")).unwrap();
    mb.send(user(b"y")).unwrap();
    mb.send(user(b"z")).unwrap();
    let got = mb.selective_recv(|m: &Message| matches!(m, Message::User(b) if b.as_slice() == b"z"));
    assert_eq!(payload(got), b"z".to_vec());
    // x and y sit in the stash and are still counted
    assert_eq!(mb.len(), 2);
    mb.try_recv();
    assert_eq!(mb.len(), 1);
    mb.try_recv();
    assert_eq!(mb.len(), 0);
}

#[test]
fn selective_receive_finds_stashed_match_first() {
    let mut mb = channel();
    mb.send(user(b"a")).unwrap();
    mb.send(user(b"b")).unwrap();
    assert_eq!(mb.selective_recv(|_m: &Message| false), None);
    mb.send(user(b"c")).unwrap();
    let got = mb.selective_recv(|m: &Message| matches!(m, Message::User(b) if b.as_slice() != b"a"));
    assert_eq!(payload(got), b"b".to_vec());
    assert_eq!(payload(mb.try_recv()), b"a".to_vec());
    assert_eq!(payload(mb.try_recv()), b"c".to_vec());
}

#[test]
fn selective_receive_over_arrivals_skips_stash() {
    let mut mb = channel();
    mb.send(user(b"old")).unwrap();
    assert_eq!(mb.selective_recv(|_m: &Message| false), None);
    mb.send(user(b"new")).unwrap();
    // the stashed message would match too, but only arrivals are examined
    let got = mb.selective_recv_arrivals(|_m: &Message| true);
    assert_eq!(payload(got), b"new".to_vec());
    assert_eq!(payload(mb.try_recv()), b"old".to_vec());
}

#[test]
fn closed_mailbox_refuses_sends() {
    let mut mb = channel();
    mb.close();
    assert_eq!(mb.send(user(b"late")), Err(user(b"late")));
    let exit = SystemMessage::Exit(ExitInfo { from: 3, reason: ExitReason::Normal, metadata: None });
    assert_eq!(mb.send_system(exit.clone()), Err(exit));
    assert_eq!(mb.send_user_bytes(b"raw".to_vec()), Err(b"raw".to_vec()));
    assert_eq!(mb.len(), 0);
}

#[test]
fn system_messages_are_not_bounded() {
    let mut mb = bounded_channel(1);
    mb.send(user(b"one")).unwrap();
    assert!(mb.send(user(b"two")).is_err());
    assert!(mb.send(Message::System(SystemMessage::Ping)).is_ok());
    assert!(mb.send(Message::System(SystemMessage::Pong)).is_ok());
    assert_eq!(mb.len(), 1);
}

#[test]
fn empty_mailbox_gives_nothing() {
    let mut mb = channel();
    assert_eq!(mb.try_recv(), None);
    assert_eq!(mb.selective_recv(|_m: &Message| true), None);
    assert_eq!(mb.len(), 0);
}
