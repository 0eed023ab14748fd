use myrmidon::mailbox::{ExitReason, Message};
use myrmidon::network::{
    exit_frame, reason_from_code, resolve_request, send_request, Inbound, NetworkManager,
};
use myrmidon::runtime::Runtime;
use myrmidon::wire::{decode_frame, decode_pid, encode_frame, Frame};

fn done(r: &Inbound) -> (usize, Option<Vec<u8>>) {
    match r {
        Inbound::Done { consumed, reply } => (*consumed, reply.clone()),
        other => panic!("expected a handled frame, got {:?}", other),
    }
}

#[test]
fn remote_resolve_and_send() {
    // node A
    let mut rt_a = Runtime::new();
    let mut net_a = NetworkManager::new();
    let x = rt_a.spawn_observed();
    rt_a.register("svc".to_string(), x);
    // node B asks A for "svc"
    let req = resolve_request("svc");
    let (inbound, notices) = net_a.handle_inbound(&mut rt_a, 1, &req);
    assert!(notices.is_empty());
    let (consumed, reply) = done(&inbound);
    assert_eq!(consumed, req.len());
    let pid = decode_pid(&reply.unwrap()).unwrap();
    assert_eq!(pid, x);
    // node B sends b"ping" to that pid
    let req = send_request(pid, b"ping");
    let (inbound, _) = net_a.handle_inbound(&mut rt_a, 1, &req);
    assert_eq!(done(&inbound), (req.len(), None));
    assert!(rt_a.observe_next(x));
    assert_eq!(rt_a.get_observed_messages(x), Some(vec![Message::User(b"ping".to_vec())]));
}

#[test]
fn unknown_name_resolves_to_zero() {
    let mut rt = Runtime::new();
    let mut net = NetworkManager::new();
    let (inbound, _) = net.handle_inbound(&mut rt, 1, &resolve_request("nobody"));
    let (_, reply) = done(&inbound);
    assert_eq!(decode_pid(&reply.unwrap()), Some(0));
}

#[test]
fn partial_and_bad_frames() {
    let mut rt = Runtime::new();
    let mut net = NetworkManager::new();
    let req = resolve_request("svc");
    let (inbound, _) = net.handle_inbound(&mut rt, 1, &req[..3]);
    assert_eq!(inbound, Inbound::NeedMore);
    let (inbound, _) = net.handle_inbound(&mut rt, 1, &[0x7f, 0, 0]);
    assert_eq!(inbound, Inbound::Close);
}

#[test]
fn peer_monitor_gets_exit_frame() {
    let mut rt = Runtime::new();
    let mut net = NetworkManager::new();
    let a = rt.spawn();
    let req = encode_frame(&Frame::Monitor { pid: a });
    let (inbound, _) = net.handle_inbound(&mut rt, 7, &req);
    assert_eq!(done(&inbound), (9, None));
    let frames = net.on_local_exit(a, &ExitReason::Killed);
    assert_eq!(frames.len(), 1);
    assert_eq!(frames[0].0, 7);
    assert_eq!(decode_frame(&frames[0].1), Ok((Frame::Exit { pid: a, reason: 3, meta: vec![] }, 14)));
    assert!(net.on_local_exit(a, &ExitReason::Killed).is_empty());
}

#[test]
fn monitor_of_dead_actor_is_answered_at_once() {
    let mut rt = Runtime::new();
    let mut net = NetworkManager::new();
    let (inbound, _) = net.handle_inbound(&mut rt, 7, &encode_frame(&Frame::Monitor { pid: 3 }));
    let (_, reply) = done(&inbound);
    assert_eq!(reply, Some(exit_frame(3, &ExitReason::Normal)));
}

#[test]
fn remote_exit_reaches_local_watcher() {
    let mut rt = Runtime::new();
    let mut net = NetworkManager::new();
    let w = rt.spawn();
    let req = net.monitor_remote(4, 99, w);
    assert_eq!(decode_frame(&req), Ok((Frame::Monitor { pid: 99 }, 9)));
    let frame = exit_frame(99, &ExitReason::Other("boom".to_string()));
    let (inbound, notices) = net.handle_inbound(&mut rt, 4, &frame);
    assert_eq!(done(&inbound), (frame.len(), None));
    assert_eq!(notices.len(), 1);
    assert_eq!(notices[0].0, w);
    assert_eq!(notices[0].1.from, 99);
    assert_eq!(notices[0].1.reason, ExitReason::Other("boom".to_string()));
    // the watch is gone
    let (_, again) = net.handle_inbound(&mut rt, 4, &frame);
    assert!(again.is_empty());
}

#[test]
fn disconnect_ends_watches() {
    let mut net = NetworkManager::new();
    net.monitor_remote(4, 99, 1);
    net.monitor_remote(5, 98, 2);
    net.monitor_remote(4, 97, 3);
    assert_eq!(net.on_disconnect(4), vec![(1, 99), (3, 97)]);
    assert_eq!(net.on_disconnect(4), vec![]);
    assert_eq!(net.on_disconnect(5), vec![(2, 98)]);
}

#[test]
fn reason_codes() {
    assert_eq!(reason_from_code(0, b""), ExitReason::Normal);
    assert_eq!(reason_from_code(1, b""), ExitReason::Panic);
    assert_eq!(reason_from_code(2, b""), ExitReason::Timeout);
    assert_eq!(reason_from_code(3, b""), ExitReason::Killed);
    assert_eq!(reason_from_code(4, b""), ExitReason::Oom);
    assert_eq!(reason_from_code(5, b"disconnected"), ExitReason::Other("disconnected".to_string()));
    assert_eq!(reason_from_code(5, &[0xff, b'a']), ExitReason::Other("\u{fffd}a".to_string()));
}

#[test]
fn disconnect_notice_names_the_remote() {
    let n = myrmidon::network::disconnect_notice(42);
    assert_eq!(n.from, 42);
    assert_eq!(n.reason, ExitReason::Other("disconnected".to_string()));
    assert_eq!(n.metadata, None);
}

#[test]
fn peer_monitor_frame_carries_other_text() {
    let mut rt = Runtime::new();
    let mut net = NetworkManager::new();
    let a = rt.spawn();
    net.handle_inbound(&mut rt, 3, &encode_frame(&Frame::Monitor { pid: a }));
    let frames = net.on_local_exit(a, &ExitReason::Other("oops".to_string()));
    assert_eq!(frames, vec![(3, vec![3, 0, 0, 0, 0, 0, 0, 0, a as u8, 5, 0, 0, 0, 4, b'o', b'o', b'p', b's'])]);
}
