use myrmidon::mailbox::{ExitInfo, ExitReason, Message, SystemMessage};
use myrmidon::runtime::Runtime;

fn user(b: &[u8]) -> Message {
    Message::User(b.to_vec())
}

fn exit_from(m: Option<Message>) -> (u64, ExitReason) {
    match m {
        Some(Message::System(SystemMessage::Exit(ExitInfo { from, reason, .. }))) => (from, reason),
        other => panic!("expected an exit notice, got {:?}", other),
    }
}

#[test]
fn ping_observed_actor() {
    let mut rt = Runtime::new();
    let pid = rt.spawn_observed();
    assert_eq!(rt.send(pid, user(b"hello")), Ok(()));
    assert!(rt.observe_next(pid));
    assert!(!rt.observe_next(pid));
    assert_eq!(rt.get_observed_messages(pid), Some(vec![user(b"hello")]));
}

#[test]
fn pids_are_dense_and_never_zero() {
    let mut rt = Runtime::new();
    assert_eq!(rt.spawn(), 1);
    assert_eq!(rt.spawn_bounded(4), 2);
    assert_eq!(rt.spawn_observed(), 3);
    assert!(!rt.is_alive(0));
    assert!(rt.is_alive(2));
    assert!(!rt.is_alive(4));
}

#[test]
fn link_gives_each_side_one_notice() {
    let mut rt = Runtime::new();
    let a = rt.spawn();
    let b = rt.spawn();
    rt.link(a, b);
    rt.link(b, a);
    rt.exit(b, ExitReason::Panic);
    assert!(!rt.is_alive(b));
    assert_eq!(exit_from(rt.try_recv(a)), (b, ExitReason::Panic));
    assert_eq!(rt.try_recv(a), None);
}

#[test]
fn link_notifies_the_other_direction_too() {
    let mut rt = Runtime::new();
    let a = rt.spawn();
    let b = rt.spawn();
    rt.link(a, b);
    rt.exit(a, ExitReason::Normal);
    assert_eq!(exit_from(rt.try_recv(b)), (a, ExitReason::Normal));
    assert_eq!(rt.try_recv(b), None);
}

#[test]
fn unlink_removes_the_notice() {
    let mut rt = Runtime::new();
    let a = rt.spawn();
    let b = rt.spawn();
    rt.link(a, b);
    rt.unlink(b, a);
    rt.exit(b, ExitReason::Normal);
    assert_eq!(rt.try_recv(a), None);
}

#[test]
fn monitor_is_one_way() {
    let mut rt = Runtime::new();
    let a = rt.spawn();
    let b = rt.spawn();
    rt.monitor(a, b);
    rt.exit(a, ExitReason::Normal);
    assert_eq!(rt.try_recv(b), None);

    let c = rt.spawn();
    let d = rt.spawn();
    rt.monitor(c, d);
    rt.exit(d, ExitReason::Oom);
    assert_eq!(exit_from(rt.try_recv(c)), (d, ExitReason::Oom));
}

#[test]
fn exit_runs_once() {
    let mut rt = Runtime::new();
    let a = rt.spawn();
    let b = rt.spawn();
    rt.link(a, b);
    rt.exit(b, ExitReason::Normal);
    rt.exit(b, ExitReason::Panic);
    rt.stop(b);
    assert_eq!(exit_from(rt.try_recv(a)), (b, ExitReason::Normal));
    assert_eq!(rt.try_recv(a), None);
}

#[test]
fn child_dies_with_crashed_parent() {
    let mut rt = Runtime::new();
    let parent = rt.spawn();
    let child = rt.spawn_child(parent).unwrap();
    let grandchild = rt.spawn_child(child).unwrap();
    let watcher = rt.spawn();
    rt.monitor(watcher, child);
    rt.send(parent, user(b"boom")).unwrap();
    // the parent's handler raised: the parent exits with Panic
    rt.exit(parent, ExitReason::Panic);
    assert!(!rt.is_alive(parent));
    assert!(!rt.is_alive(child));
    assert!(!rt.is_alive(grandchild));
    assert!(rt.is_alive(watcher));
    assert_eq!(exit_from(rt.try_recv(watcher)), (child, ExitReason::Killed));
}

#[test]
fn child_dies_with_stopped_parent() {
    let mut rt = Runtime::new();
    let parent = rt.spawn();
    let child = rt.spawn_child(parent).unwrap();
    rt.stop(parent);
    assert!(!rt.is_alive(child));
    assert_eq!(rt.spawn_child(parent), None);
}

#[test]
fn send_to_dead_or_unknown_pid_is_dropped() {
    let mut rt = Runtime::new();
    let a = rt.spawn();
    rt.stop(a);
    assert_eq!(rt.send(a, user(b"x")), Ok(()));
    assert_eq!(rt.send(42, user(b"x")), Ok(()));
    assert_eq!(rt.mailbox_size(a), None);
}

#[test]
fn bounded_actor_drops_new_messages() {
    let mut rt = Runtime::new();
    let a = rt.spawn_bounded(2);
    assert_eq!(rt.send(a, user(b"m1")), Ok(()));
    assert_eq!(rt.send(a, user(b"m2")), Ok(()));
    assert_eq!(rt.send(a, user(b"m3")), Err(user(b"m3")));
    assert_eq!(rt.mailbox_size(a), Some(2));
    assert_eq!(rt.try_recv(a), Some(user(b"m1")));
    assert_eq!(rt.try_recv(a), Some(user(b"m2")));
}

#[test]
fn names_register_resolve_unregister() {
    let mut rt = Runtime::new();
    let a = rt.spawn();
    let b = rt.spawn();
    rt.register("svc".to_string(), a);
    assert_eq!(rt.resolve("svc"), Some(a));
    rt.register("svc".to_string(), b);
    assert_eq!(rt.resolve("svc"), Some(b));
    rt.unregister("svc");
    assert_eq!(rt.resolve("svc"), None);
    rt.unregister("svc");
    assert_eq!(rt.resolve("other"), None);
}

#[test]
fn a_pid_keeps_one_name_and_loses_it_on_exit() {
    let mut rt = Runtime::new();
    let a = rt.spawn();
    rt.register("first".to_string(), a);
    rt.register("second".to_string(), a);
    assert_eq!(rt.resolve("first"), None);
    assert_eq!(rt.resolve("second"), Some(a));
    rt.stop(a);
    assert_eq!(rt.resolve("second"), None);
    rt.register("third".to_string(), a);
    assert_eq!(rt.resolve("third"), None);
}

#[test]
fn send_named_delivers_or_hands_back() {
    let mut rt = Runtime::new();
    let a = rt.spawn();
    rt.register("svc".to_string(), a);
    assert_eq!(rt.send_named("svc", user(b"hi")), Ok(()));
    assert_eq!(rt.send_named("nobody", user(b"hi")), Err(user(b"hi")));
    assert_eq!(rt.mailbox_size(a), Some(1));
}

#[test]
fn hot_swap_is_a_system_message() {
    let mut rt = Runtime::new();
    let a = rt.spawn();
    rt.send(a, user(b"u")).unwrap();
    assert!(rt.hot_swap(a, 77));
    assert_eq!(rt.try_recv(a), Some(Message::System(SystemMessage::HotSwap(77))));
    assert!(!rt.hot_swap(99, 1));
}

#[test]
fn take_observed_message_matching_removes_first_match() {
    let mut rt = Runtime::new();
    let a = rt.spawn_observed();
    for m in [b"a1".as_slice(), b"b1", b"a2"] {
        rt.send(a, user(m)).unwrap();
        rt.observe_next(a);
    }
    let got = rt.take_observed_message_matching(a, |m: &Message| {
        matches!(m, Message::User(b) if b.first() == Some(&b'a'))
    });
    assert_eq!(got, Some(user(b"a1")));
    assert_eq!(rt.get_observed_messages(a), Some(vec![user(b"b1"), user(b"a2")]));
    assert_eq!(rt.take_observed_message_matching(a, |_m: &Message| false), None);
    let plain = rt.spawn();
    assert_eq!(rt.get_observed_messages(plain), None);
}

#[test]
fn selective_receive_through_runtime() {
    let mut rt = Runtime::new();
    let a = rt.spawn();
    rt.send(a, user(b"m1")).unwrap();
    rt.send(a, user(b"target")).unwrap();
    rt.send(a, user(b"m3")).unwrap();
    let got = rt.selective_recv(a, |m: &Message| matches!(m, Message::User(b) if b.as_slice() == b"target"));
    assert_eq!(got, Some(user(b"target")));
    assert_eq!(rt.mailbox_size(a), Some(2));
    assert_eq!(rt.try_recv(a), Some(user(b"m1")));
    assert_eq!(rt.try_recv(a), Some(user(b"m3")));
}

#[test]
fn exit_lists_every_actor_it_took() {
    let mut rt = Runtime::new();
    let parent = rt.spawn();
    let child = rt.spawn_child(parent).unwrap();
    let grandchild = rt.spawn_child(child).unwrap();
    let other = rt.spawn();
    let dead = rt.exit(parent, ExitReason::Panic);
    assert_eq!(dead, vec![parent, child, grandchild]);
    assert!(rt.is_alive(other));
    assert_eq!(rt.exit(parent, ExitReason::Panic), Vec::<u64>::new());
    assert_eq!(rt.stop(other), vec![other]);
}
