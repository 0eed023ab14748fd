//! Framing of the node-to-node protocol. All integers are big-endian.
//!
//! | opcode | frame after the opcode                                   |
//! |--------|----------------------------------------------------------|
//! | 0x00   | pid:u64, len:u32, payload                                |
//! | 0x01   | len:u32, name (answered by pid:u64, 0 when unknown)      |
//! | 0x02   | pid:u64 (answered by 0x03 frames when that actor exits)  |
//! | 0x03   | pid:u64, reason:u8, meta_len:u32, meta                   |
use vstd::prelude::*;

verus! {

pub const OP_SEND: u8 = 0;

pub const OP_RESOLVE: u8 = 1;

pub const OP_MONITOR: u8 = 2;

pub const OP_EXIT: u8 = 3;

/// Largest reason code of an exit frame (`Other`).
pub const MAX_REASON: u8 = 5;

/// One protocol frame.
#[derive(Clone, Debug, PartialEq, Eq)]
pub enum Frame {
    Send { pid: u64, payload: Vec<u8> },
    Resolve { name: Vec<u8> },
    Monitor { pid: u64 },
    Exit { pid: u64, reason: u8, meta: Vec<u8> },
}

pub enum FrameView {
    Send { pid: u64, payload: Seq<u8> },
    Resolve { name: Seq<u8> },
    Monitor { pid: u64 },
    Exit { pid: u64, reason: u8, meta: Seq<u8> },
}

impl View for Frame {
    type V = FrameView;

    open spec fn view(&self) -> FrameView {
        match self {
            Frame::Send { pid, payload } => FrameView::Send { pid: *pid, payload: payload@ },
            Frame::Resolve { name } => FrameView::Resolve { name: name@ },
            Frame::Monitor { pid } => FrameView::Monitor { pid: *pid },
            Frame::Exit { pid, reason, meta } => FrameView::Exit {
                pid: *pid,
                reason: *reason,
                meta: meta@,
            },
        }
    }
}

#[derive(Clone, Copy, Debug, PartialEq, Eq, Structural)]
pub enum WireError {
    /// The buffer holds only the start of a frame.
    Incomplete,
    /// The first byte is no opcode of the protocol.
    UnknownOpcode(u8),
    /// An exit frame carries a reason code above `MAX_REASON`.
    UnknownReason(u8),
}

pub open spec fn u64_be(n: u64) -> Seq<u8> {
    seq![
        (n >> 56u64) as u8,
        (n >> 48u64) as u8,
        (n >> 40u64) as u8,
        (n >> 32u64) as u8,
        (n >> 24u64) as u8,
        (n >> 16u64) as u8,
        (n >> 8u64) as u8,
        n as u8,
    ]
}

pub open spec fn u32_be(n: u32) -> Seq<u8> {
    seq![(n >> 24u32) as u8, (n >> 16u32) as u8, (n >> 8u32) as u8, n as u8]
}

/// The big-endian `u64` at `b[i..i + 8]`.
pub open spec fn be_u64_at(b: Seq<u8>, i: int) -> u64 {
    (b[i] as u64) << 56u64 | (b[i + 1] as u64) << 48u64 | (b[i + 2] as u64) << 40u64 | (b[i
        + 3] as u64) << 32u64 | (b[i + 4] as u64) << 24u64 | (b[i + 5] as u64) << 16u64 | (b[i
        + 6] as u64) << 8u64 | (b[i + 7] as u64)
}

/// The big-endian `u32` at `b[i..i + 4]`.
pub open spec fn be_u32_at(b: Seq<u8>, i: int) -> u32 {
    (b[i] as u32) << 24u32 | (b[i + 1] as u32) << 16u32 | (b[i + 2] as u32) << 8u32 | (b[i
        + 3] as u32)
}

impl FrameView {
    /// Every length fits its `u32` field and the reason code is known.
    pub open spec fn encodable(self) -> bool {
        match self {
            FrameView::Send { payload, .. } => payload.len() <= u32::MAX,
            FrameView::Resolve { name } => name.len() <= u32::MAX,
            FrameView::Monitor { .. } => true,
            FrameView::Exit { reason, meta, .. } => reason <= MAX_REASON && meta.len() <= u32::MAX,
        }
    }

    /// The bytes of the frame on the wire.
    pub open spec fn bytes(self) -> Seq<u8> {
        match self {
            FrameView::Send { pid, payload } => seq![OP_SEND] + u64_be(pid) + u32_be(
                payload.len() as u32,
            ) + payload,
            FrameView::Resolve { name } => seq![OP_RESOLVE] + u32_be(name.len() as u32) + name,
            FrameView::Monitor { pid } => seq![OP_MONITOR] + u64_be(pid),
            FrameView::Exit { pid, reason, meta } => seq![OP_EXIT] + u64_be(pid) + seq![reason]
                + u32_be(meta.len() as u32) + meta,
        }
    }
}

/// How the protocol reads the start of `b`: a frame and the number of bytes
/// it takes, or why there is none.
pub open spec fn parse_frame(b: Seq<u8>) -> Result<(FrameView, nat), WireError> {
    if b.len() == 0 {
        Err(WireError::Incomplete)
    } else if b[0] == OP_SEND {
        if b.len() < 13 {
            Err(WireError::Incomplete)
        } else {
            let n = be_u32_at(b, 9) as int;
            if b.len() < 13 + n {
                Err(WireError::Incomplete)
            } else {
                Ok(
                    (
                        FrameView::Send { pid: be_u64_at(b, 1), payload: b.subrange(13, 13 + n) },
                        (13 + n) as nat,
                    ),
                )
            }
        }
    } else if b[0] == OP_RESOLVE {
        if b.len() < 5 {
            Err(WireError::Incomplete)
        } else {
            let n = be_u32_at(b, 1) as int;
            if b.len() < 5 + n {
                Err(WireError::Incomplete)
            } else {
                Ok((FrameView::Resolve { name: b.subrange(5, 5 + n) }, (5 + n) as nat))
            }
        }
    } else if b[0] == OP_MONITOR {
        if b.len() < 9 {
            Err(WireError::Incomplete)
        } else {
            Ok((FrameView::Monitor { pid: be_u64_at(b, 1) }, 9))
        }
    } else if b[0] == OP_EXIT {
        if b.len() < 14 {
            Err(WireError::Incomplete)
        } else if b[9] > MAX_REASON {
            Err(WireError::UnknownReason(b[9]))
        } else {
            let n = be_u32_at(b, 10) as int;
            if b.len() < 14 + n {
                Err(WireError::Incomplete)
            } else {
                Ok(
                    (
                        FrameView::Exit {
                            pid: be_u64_at(b, 1),
                            reason: b[9],
                            meta: b.subrange(14, 14 + n),
                        },
                        (14 + n) as nat,
                    ),
                )
            }
        }
    } else {
        Err(WireError::UnknownOpcode(b[0]))
    }
}

fn push_u64(out: &mut Vec<u8>, n: u64)
    ensures
        final(out)@ == old(out)@ + u64_be(n),
{
    out.push((n >> 56u64) as u8);
    out.push((n >> 48u64) as u8);
    out.push((n >> 40u64) as u8);
    out.push((n >> 32u64) as u8);
    out.push((n >> 24u64) as u8);
    out.push((n >> 16u64) as u8);
    out.push((n >> 8u64) as u8);
    out.push(n as u8);
    proof {
        assert(final(out)@ =~= old(out)@ + u64_be(n));
    }
}

fn push_u32(out: &mut Vec<u8>, n: u32)
    ensures
        final(out)@ == old(out)@ + u32_be(n),
{
    out.push((n >> 24u32) as u8);
    out.push((n >> 16u32) as u8);
    out.push((n >> 8u32) as u8);
    out.push(n as u8);
    proof {
        assert(final(out)@ =~= old(out)@ + u32_be(n));
    }
}

fn push_all(out: &mut Vec<u8>, b: &[u8])
    ensures
        final(out)@ == old(out)@ + b@,
{
    let mut i: usize = 0;
    while i < b.len()
        invariant
            0 <= i <= b@.len(),
            out@ == old(out)@ + b@.take(i as int),
        decreases b@.len() - i,
    {
        out.push(b[i]);
        i = i + 1;
        proof {
            assert(out@ =~= old(out)@ + b@.take(i as int));
        }
    }
    proof {
        assert(b@.take(i as int) =~= b@);
    }
}

fn read_u64(b: &[u8], i: usize) -> (r: u64)
    requires
        i + 8 <= b@.len(),
    ensures
        r == be_u64_at(b@, i as int),
{
    (b[i] as u64) << 56u64 | (b[i + 1] as u64) << 48u64 | (b[i + 2] as u64) << 40u64 | (b[i
        + 3] as u64) << 32u64 | (b[i + 4] as u64) << 24u64 | (b[i + 5] as u64) << 16u64 | (b[i
        + 6] as u64) << 8u64 | (b[i + 7] as u64)
}

fn read_u32(b: &[u8], i: usize) -> (r: u32)
    requires
        i + 4 <= b@.len(),
    ensures
        r == be_u32_at(b@, i as int),
{
    (b[i] as u32) << 24u32 | (b[i + 1] as u32) << 16u32 | (b[i + 2] as u32) << 8u32 | (b[i
        + 3] as u32)
}

fn copy_range(b: &[u8], start: usize, end: usize) -> (r: Vec<u8>)
    requires
        start <= end <= b@.len(),
    ensures
        r@ == b@.subrange(start as int, end as int),
{
    let mut r: Vec<u8> = Vec::new();
    let mut i: usize = start;
    while i < end
        invariant
            start <= i <= end <= b@.len(),
            r@ == b@.subrange(start as int, i as int),
        decreases end - i,
    {
        r.push(b[i]);
        i = i + 1;
        proof {
            assert(r@ =~= b@.subrange(start as int, i as int));
        }
    }
    r
}

/// The bytes of `pid` as a resolve reply.
pub fn encode_pid(pid: u64) -> (r: Vec<u8>)
    ensures
        r@ == u64_be(pid),
{
    let mut out: Vec<u8> = Vec::new();
    push_u64(&mut out, pid);
    proof {
        assert(out@ =~= u64_be(pid));
    }
    out
}

/// Reads a resolve reply; `None` until all eight bytes are there.
pub fn decode_pid(b: &[u8]) -> (r: Option<u64>)
    ensures
        b@.len() < 8 ==> r is None,
        b@.len() >= 8 ==> r == Some(be_u64_at(b@, 0)),
{
    if b.len() < 8 {
        None
    } else {
        Some(read_u64(b, 0))
    }
}

/// The bytes of `f` on the wire.
pub fn encode_frame(f: &Frame) -> (r: Vec<u8>)
    requires
        f@.encodable(),
    ensures
        r@ == f@.bytes(),
{
    let mut out: Vec<u8> = Vec::new();
    match f {
        Frame::Send { pid, payload } => {
            out.push(OP_SEND);
            push_u64(&mut out, *pid);
            push_u32(&mut out, payload.len() as u32);
            push_all(&mut out, payload.as_slice());
        },
        Frame::Resolve { name } => {
            out.push(OP_RESOLVE);
            push_u32(&mut out, name.len() as u32);
            push_all(&mut out, name.as_slice());
        },
        Frame::Monitor { pid } => {
            out.push(OP_MONITOR);
            push_u64(&mut out, *pid);
        },
        Frame::Exit { pid, reason, meta } => {
            out.push(OP_EXIT);
            push_u64(&mut out, *pid);
            out.push(*reason);
            push_u32(&mut out, meta.len() as u32);
            push_all(&mut out, meta.as_slice());
        },
    }
    proof {
        assert(out@ =~= f@.bytes());
    }
    out
}

/// Reads the frame at the start of `b`, with the number of bytes it takes.
pub fn decode_frame(b: &[u8]) -> (r: Result<(Frame, usize), WireError>)
    ensures
        match r {
            Ok((f, n)) => parse_frame(b@) == Ok::<(FrameView, nat), WireError>((f@, n as nat)),
            Err(e) => parse_frame(b@) == Err::<(FrameView, nat), WireError>(e),
        },
{
    let len = b.len();
    if len == 0 {
        return Err(WireError::Incomplete);
    }
    let op = b[0];
    if op == OP_SEND {
        if len < 13 {
            return Err(WireError::Incomplete);
        }
        let n = read_u32(b, 9) as usize;
        if len - 13 < n {
            return Err(WireError::Incomplete);
        }
        let pid = read_u64(b, 1);
        let payload = copy_range(b, 13, 13 + n);
        Ok((Frame::Send { pid, payload }, 13 + n))
    } else if op == OP_RESOLVE {
        if len < 5 {
            return Err(WireError::Incomplete);
        }
        let n = read_u32(b, 1) as usize;
        if len - 5 < n {
            return Err(WireError::Incomplete);
        }
        let name = copy_range(b, 5, 5 + n);
        Ok((Frame::Resolve { name }, 5 + n))
    } else if op == OP_MONITOR {
        if len < 9 {
            return Err(WireError::Incomplete);
        }
        Ok((Frame::Monitor { pid: read_u64(b, 1) }, 9))
    } else if op == OP_EXIT {
        if len < 14 {
            return Err(WireError::Incomplete);
        }
        let reason = b[9];
        if reason > MAX_REASON {
            return Err(WireError::UnknownReason(reason));
        }
        let n = read_u32(b, 10) as usize;
        if len - 14 < n {
            return Err(WireError::Incomplete);
        }
        let pid = read_u64(b, 1);
        let meta = copy_range(b, 14, 14 + n);
        Ok((Frame::Exit { pid, reason, meta }, 14 + n))
    } else {
        Err(WireError::UnknownOpcode(op))
    }
}

proof fn lemma_u64_at(b: Seq<u8>, i: int, n: u64)
    requires
        0 <= i,
        i + 8 <= b.len(),
        b.subrange(i, i + 8) == u64_be(n),
    ensures
        be_u64_at(b, i) == n,
{
    let s = u64_be(n);
    assert forall|k: int| 0 <= k < 8 implies b[i + k] == s[k] by {
        assert(b.subrange(i, i + 8)[k] == b[i + k]);
    }
    assert(((((n >> 56u64) as u8) as u64) << 56u64 | (((n >> 48u64) as u8) as u64) << 48u64 | (((n
        >> 40u64) as u8) as u64) << 40u64 | (((n >> 32u64) as u8) as u64) << 32u64 | (((n
        >> 24u64) as u8) as u64) << 24u64 | (((n >> 16u64) as u8) as u64) << 16u64 | (((n
        >> 8u64) as u8) as u64) << 8u64 | ((n as u8) as u64)) == n) by (bit_vector);
}

proof fn lemma_u32_at(b: Seq<u8>, i: int, n: u32)
    requires
        0 <= i,
        i + 4 <= b.len(),
        b.subrange(i, i + 4) == u32_be(n),
    ensures
        be_u32_at(b, i) == n,
{
    let s = u32_be(n);
    assert forall|k: int| 0 <= k < 4 implies b[i + k] == s[k] by {
        assert(b.subrange(i, i + 4)[k] == b[i + k]);
    }
    assert(((((n >> 24u32) as u8) as u32) << 24u32 | (((n >> 16u32) as u8) as u32) << 16u32 | (((n
        >> 8u32) as u8) as u32) << 8u32 | ((n as u8) as u32)) == n) by (bit_vector);
}

/// Reading back the bytes of a frame, whatever follows them, gives the same
/// frame and consumes exactly its bytes.
pub proof fn lemma_frame_round_trip(f: FrameView, rest: Seq<u8>)
    requires
        f.encodable(),
    ensures
        parse_frame(f.bytes() + rest) == Ok::<(FrameView, nat), WireError>((f, f.bytes().len())),
{
    let b = f.bytes() + rest;
    match f {
        FrameView::Send { pid, payload } => {
            let n = payload.len() as u32;
            assert(b.subrange(1, 9) =~= u64_be(pid));
            assert(b.subrange(9, 13) =~= u32_be(n));
            lemma_u64_at(b, 1, pid);
            lemma_u32_at(b, 9, n);
            assert(b.subrange(13, 13 + payload.len() as int) =~= payload);
        },
        FrameView::Resolve { name } => {
            let n = name.len() as u32;
            assert(b.subrange(1, 5) =~= u32_be(n));
            lemma_u32_at(b, 1, n);
            assert(b.subrange(5, 5 + name.len() as int) =~= name);
        },
        FrameView::Monitor { pid } => {
            assert(b.subrange(1, 9) =~= u64_be(pid));
            lemma_u64_at(b, 1, pid);
        },
        FrameView::Exit { pid, reason, meta } => {
            let n = meta.len() as u32;
            assert(b.subrange(1, 9) =~= u64_be(pid));
            assert(b.subrange(10, 14) =~= u32_be(n));
            lemma_u64_at(b, 1, pid);
            lemma_u32_at(b, 10, n);
            assert(b[9] == reason);
            assert(b.subrange(14, 14 + meta.len() as int) =~= meta);
        },
    }
}

/// A resolve reply reads back as the pid it was made from.
pub proof fn lemma_pid_round_trip(pid: u64, rest: Seq<u8>)
    ensures
        be_u64_at(u64_be(pid) + rest, 0) == pid,
{
    let b = u64_be(pid) + rest;
    assert(b.subrange(0, 8) =~= u64_be(pid));
    lemma_u64_at(b, 0, pid);
}

} // verus!
