use myrmidon::wire::{decode_frame, decode_pid, encode_frame, encode_pid, Frame, WireError};

#[test]
fn send_frame_bytes() {
    let f = Frame::Send { pid: 0x0102030405060708, payload: b"hi".to_vec() };
    let bytes = encode_frame(&f);
    assert_eq!(bytes, vec![0, 1, 2, 3, 4, 5, 6, 7, 8, 0, 0, 0, 2, b'h', b'i']);
    assert_eq!(decode_frame(&bytes), Ok((f, 15)));
}

#[test]
fn resolve_frame_bytes() {
    let f = Frame::Resolve { name: b"svc".to_vec() };
    let bytes = encode_frame(&f);
    assert_eq!(bytes, vec![1, 0, 0, 0, 3, b's', b'v', b'c']);
    assert_eq!(decode_frame(&bytes), Ok((f, 8)));
}

#[test]
fn monitor_frame_bytes() {
    let f = Frame::Monitor { pid: 258 };
    let bytes = encode_frame(&f);
    assert_eq!(bytes, vec![2, 0, 0, 0, 0, 0, 0, 1, 2]);
    assert_eq!(decode_frame(&bytes), Ok((f, 9)));
}

#[test]
fn exit_frame_bytes() {
    let f = Frame::Exit { pid: 7, reason: 5, meta: b"boom".to_vec() };
    let bytes = encode_frame(&f);
    assert_eq!(bytes, vec![3, 0, 0, 0, 0, 0, 0, 0, 7, 5, 0, 0, 0, 4, b'b', b'o', b'o', b'm']);
    assert_eq!(decode_frame(&bytes), Ok((f, 18)));
}

#[test]
fn decode_leaves_following_bytes() {
    let mut bytes = encode_frame(&Frame::Monitor { pid: 9 });
    bytes.extend_from_slice(&[0, 1, 2]);
    assert_eq!(decode_frame(&bytes), Ok((Frame::Monitor { pid: 9 }, 9)));
}

#[test]
fn incomplete_frames() {
    assert_eq!(decode_frame(&[]), Err(WireError::Incomplete));
    assert_eq!(decode_frame(&[0, 0, 0]), Err(WireError::Incomplete));
    // header says 3 payload bytes, only 2 present
    assert_eq!(
        decode_frame(&[0, 0, 0, 0, 0, 0, 0, 0, 1, 0, 0, 0, 3, 1, 2]),
        Err(WireError::Incomplete)
    );
    assert_eq!(decode_frame(&[1, 0, 0]), Err(WireError::Incomplete));
}

#[test]
fn unknown_opcode_and_reason() {
    assert_eq!(decode_frame(&[9, 1, 2]), Err(WireError::UnknownOpcode(9)));
    let bytes = vec![3, 0, 0, 0, 0, 0, 0, 0, 7, 6, 0, 0, 0, 0];
    assert_eq!(decode_frame(&bytes), Err(WireError::UnknownReason(6)));
}

#[test]
fn pid_reply_round_trip() {
    let b = encode_pid(0xdeadbeef);
    assert_eq!(b, vec![0, 0, 0, 0, 0xde, 0xad, 0xbe, 0xef]);
    assert_eq!(decode_pid(&b), Some(0xdeadbeef));
    assert_eq!(decode_pid(&b[..7]), None);
}
