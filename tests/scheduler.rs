use myrmidon::mailbox::{Message, SystemMessage};
use myrmidon::scheduler::{Reductions, DEFAULT_BUDGET};

#[test]
fn yields_after_budget_user_messages() {
    let mut r = Reductions::new(3);
    let u = Message::User(b"x".to_vec());
    assert!(!r.charge(&u));
    assert!(!r.charge(&u));
    assert!(r.charge(&u));
    assert!(!r.charge(&u));
}

#[test]
fn system_messages_are_free() {
    let mut r = Reductions::new(1);
    assert!(!r.charge(&Message::System(SystemMessage::Ping)));
    assert!(r.charge(&Message::User(vec![])));
}

#[test]
fn zero_budget_yields_every_message() {
    let mut r = Reductions::new(0);
    assert!(r.charge(&Message::User(vec![])));
    assert!(r.charge(&Message::User(vec![])));
    assert_eq!(DEFAULT_BUDGET, 100);
}
