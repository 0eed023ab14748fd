//! The node-to-node endpoint: what an inbound frame does to the local
//! runtime, which frames go out, and the bookkeeping of remote monitors.
//! Sockets are the caller's.
use crate::mailbox::{ExitInfo, ExitReason, Message, SystemMessage};
use crate::runtime::{Runtime, RuntimeView};
use crate::wire::{
    decode_frame, encode_frame, encode_pid, parse_frame, u64_be, Frame, FrameView, WireError,
};
use vstd::prelude::*;
use vstd::string::StringSliceAdditionalSpecFns;
use vstd::utf8::{decode_utf8, encode_utf8, valid_utf8};

verus! {

/// Text read from bytes, with each invalid UTF-8 sequence replaced.
pub uninterp spec fn utf8_lossy(b: Seq<u8>) -> Seq<char>;

/// Text read from bytes: valid UTF-8 decodes unchanged.
pub open spec fn text_read(b: Seq<u8>) -> Seq<char> {
    if valid_utf8(b) {
        decode_utf8(b)
    } else {
        utf8_lossy(b)
    }
}

/// Relies on `String::from_utf8_lossy`: valid UTF-8 is decoded unchanged,
/// and each invalid sequence is replaced by U+FFFD.
#[verifier::external_body]
fn text_of(b: &[u8]) -> (r: String)
    ensures
        valid_utf8(b@) ==> r@ == decode_utf8(b@),
        !valid_utf8(b@) ==> r@ == utf8_lossy(b@),
{
    String::from_utf8_lossy(b).into_owned()
}

/// Reason code of an exit frame.
pub open spec fn reason_code(r: ExitReason) -> u8 {
    match r {
        ExitReason::Normal => 0,
        ExitReason::Panic => 1,
        ExitReason::Timeout => 2,
        ExitReason::Killed => 3,
        ExitReason::Oom => 4,
        ExitReason::Other(_) => 5,
    }
}

/// The exit frame telling a peer that `pid` exited for `reason`: the
/// metadata is the text of an `Other` reason, else empty.
pub open spec fn exit_frame_view(pid: u64, reason: ExitReason) -> FrameView {
    FrameView::Exit {
        pid,
        reason: reason_code(reason),
        meta: match reason {
            ExitReason::Other(s) => encode_utf8(s@),
            _ => Seq::empty(),
        },
    }
}

/// What an inbound frame asks of the caller.
#[derive(Debug, PartialEq, Eq)]
pub enum Inbound {
    /// The buffer holds only the start of a frame: read more.
    NeedMore,
    /// The frame is not part of the protocol: close the connection.
    Close,
    /// A frame of `consumed` bytes was handled; write `reply` back, if any.
    Done { consumed: usize, reply: Option<Vec<u8>> },
}

/// A local actor waiting for the exit of an actor on the other side of a
/// connection.
#[derive(Clone, Copy, Debug, PartialEq, Eq, Structural)]
pub struct RemoteWatch {
    pub conn: u64,
    pub remote: u64,
    pub watcher: u64,
}

pub struct NetworkManager {
    /// Local PIDs that a peer monitors, with the connection to notify.
    inbound: Vec<(u64, u64)>,
    /// Remote PIDs that local actors monitor.
    watches: Vec<RemoteWatch>,
}

pub struct NetworkView {
    pub inbound: Seq<(u64, u64)>,
    pub watches: Seq<RemoteWatch>,
}

impl View for NetworkManager {
    type V = NetworkView;

    closed spec fn view(&self) -> NetworkView {
        NetworkView { inbound: self.inbound@, watches: self.watches@ }
    }
}

/// Watches of `remote` on connection `conn`.
pub open spec fn watch_of(conn: u64, remote: u64) -> spec_fn(RemoteWatch) -> bool {
    |w: RemoteWatch| w.conn == conn && w.remote == remote
}

/// Watches other than those of `remote` on connection `conn`.
pub open spec fn not_watch_of(conn: u64, remote: u64) -> spec_fn(RemoteWatch) -> bool {
    |w: RemoteWatch| !(w.conn == conn && w.remote == remote)
}

/// The notices owed to the watchers in `ws` when `remote` exits with reason
/// `code` and metadata `meta`.
pub open spec fn owed_notices(ws: Seq<RemoteWatch>, remote: u64, code: u8, meta: Seq<u8>, r: Seq<
    (u64, ExitInfo),
>) -> bool {
    &&& r.len() == ws.len()
    &&& forall|k: int|
        0 <= k < r.len() ==> (#[trigger] r[k]).0 == ws[k].watcher && r[k].1.from == remote
            && r[k].1.metadata is None && (code < 5 ==> reason_code(r[k].1.reason) == code && !(
        r[k].1.reason is Other)) && (code == 5 ==> (r[k].1.reason matches ExitReason::Other(s) && s@
            == text_read(meta)))
}

/// The notice a local watcher of `remote` gets when the connection to the
/// peer is lost, refused, or times out.
pub fn disconnect_notice(remote: u64) -> (r: ExitInfo)
    ensures
        r.from == remote,
        r.metadata is None,
        r.reason matches ExitReason::Other(s) && s@ == "disconnected"@,
{
    ExitInfo { from: remote, reason: ExitReason::Other("disconnected".to_string()), metadata: None }
}

/// The PID that a resolve request for `name` (as bytes) answers with.
pub open spec fn resolved(rt: RuntimeView, name: Seq<u8>) -> u64 {
    let n = text_read(name);
    if rt.names.contains_key(n) {
        rt.names[n]
    } else {
        0
    }
}

fn copy_bytes(b: &[u8]) -> (r: Vec<u8>)
    ensures
        r@ == b@,
{
    let mut r: Vec<u8> = Vec::new();
    let mut i: usize = 0;
    while i < b.len()
        invariant
            0 <= i <= b@.len(),
            r@ == b@.take(i as int),
        decreases b@.len() - i,
    {
        r.push(b[i]);
        i = i + 1;
        proof {
            assert(r@ =~= b@.take(i as int));
        }
    }
    proof {
        assert(b@.take(i as int) =~= b@);
    }
    r
}

/// The reason an exit frame carries, from its code and metadata bytes.
pub fn reason_from_code(code: u8, meta: &[u8]) -> (r: ExitReason)
    requires
        code <= 5,
    ensures
        code < 5 ==> reason_code(r) == code && !(r is Other),
        code == 5 ==> (r matches ExitReason::Other(s) && s@ == text_read(meta@)),
{
    if code == 0 {
        ExitReason::Normal
    } else if code == 1 {
        ExitReason::Panic
    } else if code == 2 {
        ExitReason::Timeout
    } else if code == 3 {
        ExitReason::Killed
    } else if code == 4 {
        ExitReason::Oom
    } else {
        ExitReason::Other(text_of(meta))
    }
}

/// The exit frame telling a peer that `pid` exited for `reason`; the
/// metadata bytes are the text of an `Other` reason, else empty.
pub fn exit_frame(pid: u64, reason: &ExitReason) -> (r: Vec<u8>)
    requires
        reason matches ExitReason::Other(s) ==> s@.len() <= u32::MAX && encode_utf8(s@).len()
            <= u32::MAX,
    ensures
        r@ == exit_frame_view(pid, *reason).bytes(),
{
    let (code, meta) = match reason {
        ExitReason::Normal => (0u8, Vec::new()),
        ExitReason::Panic => (1u8, Vec::new()),
        ExitReason::Timeout => (2u8, Vec::new()),
        ExitReason::Killed => (3u8, Vec::new()),
        ExitReason::Oom => (4u8, Vec::new()),
        ExitReason::Other(s) => (5u8, copy_bytes(s.as_str().as_bytes())),
    };
    let f = Frame::Exit { pid, reason: code, meta };
    proof {
        assert(f@ == exit_frame_view(pid, *reason));
    }
    encode_frame(&f)
}

/// The request asking a peer for the PID registered under `name`.
pub fn resolve_request(name: &str) -> (r: Vec<u8>)
    requires
        name.spec_bytes().len() <= u32::MAX,
    ensures
        r@ == (FrameView::Resolve { name: name.spec_bytes() }).bytes(),
{
    let f = Frame::Resolve { name: copy_bytes(name.as_bytes()) };
    encode_frame(&f)
}

/// The request delivering `data` to `pid` on a peer.
pub fn send_request(pid: u64, data: &[u8]) -> (r: Vec<u8>)
    requires
        data@.len() <= u32::MAX,
    ensures
        r@ == (FrameView::Send { pid, payload: data@ }).bytes(),
{
    let f = Frame::Send { pid, payload: copy_bytes(data) };
    encode_frame(&f)
}

/// A name resolved on a peer, then a payload sent to the PID it answered,
/// reach the named actor unchanged: the resolve request reads back as the
/// name's bytes, which the peer reads as the same name; the reply reads
/// back as the PID; and the send request reads back as that PID and the
/// same payload (which `handle_inbound` then delivers).
pub proof fn lemma_wire_round_trip(rt: RuntimeView, name: Seq<char>, payload: Seq<u8>)
    requires
        encode_utf8(name).len() <= u32::MAX,
        payload.len() <= u32::MAX,
    ensures
        ({
            let req = FrameView::Resolve { name: encode_utf8(name) };
            let x = if rt.names.contains_key(name) { rt.names[name] } else { 0 };
            let send = FrameView::Send { pid: x, payload };
            &&& parse_frame(req.bytes()) == Ok::<(FrameView, nat), WireError>((req, req.bytes().len()))
            &&& resolved(rt, encode_utf8(name)) == x
            &&& crate::wire::be_u64_at(u64_be(x), 0) == x
            &&& parse_frame(send.bytes()) == Ok::<(FrameView, nat), WireError>((send, send.bytes().len()))
        }),
{
    let req = FrameView::Resolve { name: encode_utf8(name) };
    let x = if rt.names.contains_key(name) { rt.names[name] } else { 0 };
    let send = FrameView::Send { pid: x, payload };
    crate::wire::lemma_frame_round_trip(req, Seq::empty());
    assert(req.bytes() + Seq::<u8>::empty() =~= req.bytes());
    crate::wire::lemma_frame_round_trip(send, Seq::empty());
    assert(send.bytes() + Seq::<u8>::empty() =~= send.bytes());
    crate::wire::lemma_pid_round_trip(x, Seq::empty());
    assert(u64_be(x) + Seq::<u8>::empty() =~= u64_be(x));
    vstd::utf8::encode_utf8_valid_utf8(name);
    vstd::utf8::encode_utf8_decode_utf8(name);
}

impl NetworkManager {
    pub fn new() -> (r: NetworkManager)
        ensures
            r@.inbound.len() == 0,
            r@.watches.len() == 0,
    {
        NetworkManager { inbound: Vec::new(), watches: Vec::new() }
    }

    /// Handle the frame at the start of `buf`, received on connection
    /// `conn`. A user payload goes to its PID; a resolve is answered with
    /// the PID of the name, 0 when unknown; a monitor of a live actor is
    /// recorded (one of an actor that is not alive is answered at once with
    /// an exit frame of reason `Normal`); an exit frame ends the watches of
    /// that remote PID on `conn`, and each watcher is returned with the
    /// notice to deliver.
    pub fn handle_inbound(&mut self, rt: &mut Runtime, conn: u64, buf: &[u8]) -> (r: (
        Inbound,
        Vec<(u64, ExitInfo)>,
    ))
        requires
            old(rt).wf(),
        ensures
            final(rt).wf(),
            parse_frame(buf@) == Err::<(FrameView, nat), WireError>(WireError::Incomplete) ==> r.0
                == Inbound::NeedMore && final(rt)@ == old(rt)@ && final(self)@ == old(self)@ && r.1@.len()
                == 0,
            parse_frame(buf@) matches Err(e) && e != WireError::Incomplete ==> r.0 == Inbound::Close
                && final(rt)@ == old(rt)@ && final(self)@ == old(self)@ && r.1@.len() == 0,
            parse_frame(buf@) matches Ok((_, n)) ==> (r.0 matches Inbound::Done { consumed, .. }
                && consumed == n),
            parse_frame(buf@) matches Ok((FrameView::Send { pid, payload }, _)) ==> (r.0 matches Inbound::Done {
                reply,
                ..
            } && reply is None) && final(self)@ == old(self)@ && r.1@.len() == 0 && exists|b: Vec<u8>|
                b@ == payload && final(rt)@ == old(rt)@.deliver(pid, Message::User(b)),
            parse_frame(buf@) matches Ok((FrameView::Resolve { name }, _)) ==> (r.0 matches Inbound::Done {
                reply,
                ..
            } && reply matches Some(v) && v@ == u64_be(resolved(old(rt)@, name))) && final(rt)@ == old(
                rt,
            )@ && final(self)@ == old(self)@ && r.1@.len() == 0,
            parse_frame(buf@) matches Ok((FrameView::Monitor { pid }, _)) ==> final(rt)@ == old(rt)@
                && r.1@.len() == 0 && (old(rt)@.alive(pid) ==> (r.0 matches Inbound::Done { reply, .. }
                && reply is None) && final(self)@ == (NetworkView {
                inbound: old(self)@.inbound.push((pid, conn)),
                ..old(self)@
            })) && (!old(rt)@.alive(pid) ==> (r.0 matches Inbound::Done { reply, .. } && reply matches Some(
                v,
            ) && v@ == (FrameView::Exit { pid, reason: 0, meta: Seq::empty() }).bytes()) && final(self)@
                == old(self)@),
            parse_frame(buf@) matches Ok((FrameView::Exit { pid, reason, meta }, _)) ==> (r.0 matches Inbound::Done {
                reply,
                ..
            } && reply is None) && final(rt)@ == old(rt)@ && final(self)@.watches == old(
                self,
            )@.watches.filter(not_watch_of(conn, pid)) && final(self)@.inbound == old(self)@.inbound
                && owed_notices(old(self)@.watches.filter(watch_of(conn, pid)), pid, reason, meta, r.1@),
    {
        let (f, n) = match decode_frame(buf) {
            Ok(x) => x,
            Err(WireError::Incomplete) => { return (Inbound::NeedMore, Vec::new()); },
            Err(_) => { return (Inbound::Close, Vec::new()); },
        };
        match f {
            Frame::Send { pid, payload } => {
                let ghost pb = payload;
                let ghost v0 = rt@;
                let _ = rt.send(pid, Message::User(payload));
                proof {
                    assert(parse_frame(buf@) matches Ok((FrameView::Send { pid: p, payload: q }, _)) && p
                        == pid && q == pb@);
                    assert(exists|b: Vec<u8>| b@ == pb@ && rt@ == v0.deliver(pid, Message::User(b)));
                }
                (Inbound::Done { consumed: n, reply: None }, Vec::new())
            },
            Frame::Resolve { name } => {
                let text = text_of(name.as_slice());
                let pid = match rt.resolve(text.as_str()) {
                    Some(p) => p,
                    None => 0,
                };
                proof {
                    assert(pid == resolved(rt@, name@));
                }
                (Inbound::Done { consumed: n, reply: Some(encode_pid(pid)) }, Vec::new())
            },
            Frame::Monitor { pid } => {
                if rt.is_alive(pid) {
                    self.inbound.push((pid, conn));
                    (Inbound::Done { consumed: n, reply: None }, Vec::new())
                } else {
                    let reply = exit_frame(pid, &ExitReason::Normal);
                    (Inbound::Done { consumed: n, reply: Some(reply) }, Vec::new())
                }
            },
            Frame::Exit { pid, reason, meta } => {
                let ms = meta.as_slice();
                let notices = self.take_watches(conn, pid, reason, ms);
                proof {
                    assert(ms@ == meta@);
                }
                (Inbound::Done { consumed: n, reply: None }, notices)
            },
        }
    }

    /// Remove the watches of `remote` on `conn`, returning each watcher with
    /// the notice it is owed.
    fn take_watches(&mut self, conn: u64, remote: u64, code: u8, meta: &[u8]) -> (r: Vec<(u64, ExitInfo)>)
        requires
            code <= 5,
        ensures
            final(self)@.watches == old(self)@.watches.filter(not_watch_of(conn, remote)),
            final(self)@.inbound == old(self)@.inbound,
            owed_notices(old(self)@.watches.filter(watch_of(conn, remote)), remote, code, meta@, r@),
    {
        let ghost old_w = self@.watches;
        let ghost gone = watch_of(conn, remote);
        let ghost stay = not_watch_of(conn, remote);
        let mut kept: Vec<RemoteWatch> = Vec::new();
        let mut out: Vec<(u64, ExitInfo)> = Vec::new();
        let mut i: usize = 0;
        while i < self.watches.len()
            invariant
                0 <= i <= old_w.len(),
                self@ == old(self)@,
                old_w == self.watches@,
                code <= 5,
                gone == watch_of(conn, remote),
                stay == not_watch_of(conn, remote),
                kept@ == old_w.take(i as int).filter(stay),
                owed_notices(old_w.take(i as int).filter(gone), remote, code, meta@, out@),
            decreases old_w.len() - i,
        {
            let w = self.watches[i];
            proof {
                let t = old_w.take(i + 1);
                assert(t.drop_last() =~= old_w.take(i as int));
                assert(t.last() == w);
                reveal(Seq::filter);
            }
            if w.conn == conn && w.remote == remote {
                let reason = reason_from_code(code, meta);
                out.push((w.watcher, ExitInfo { from: remote, reason, metadata: None }));
            } else {
                kept.push(w);
            }
            i = i + 1;
        }
        proof {
            assert(old_w.take(i as int) =~= old_w);
        }
        self.watches = kept;
        out
    }

    /// Let local actor `watcher` monitor `remote` across connection `conn`;
    /// the returned request is to be written on it.
    pub fn monitor_remote(&mut self, conn: u64, remote: u64, watcher: u64) -> (r: Vec<u8>)
        ensures
            r@ == (FrameView::Monitor { pid: remote }).bytes(),
            final(self)@ == (NetworkView {
                watches: old(self)@.watches.push(RemoteWatch { conn, remote, watcher }),
                ..old(self)@
            }),
    {
        self.watches.push(RemoteWatch { conn, remote, watcher });
        encode_frame(&Frame::Monitor { pid: remote })
    }

    /// Connection `conn` is lost: its watches end, and each watcher is
    /// returned with the remote PID it was watching, to be told
    /// `Other("disconnected")`.
    pub fn on_disconnect(&mut self, conn: u64) -> (r: Vec<(u64, u64)>)
        ensures
            final(self)@.watches == old(self)@.watches.filter(|w: RemoteWatch| w.conn != conn),
            final(self)@.inbound == old(self)@.inbound.filter(|e: (u64, u64)| e.1 != conn),
            r@ == old(self)@.watches.filter(|w: RemoteWatch| w.conn == conn).map_values(
                |w: RemoteWatch| (w.watcher, w.remote),
            ),
    {
        let ghost old_w = self@.watches;
        let ghost old_in = self@.inbound;
        let ghost on = |w: RemoteWatch| w.conn == conn;
        let ghost off = |w: RemoteWatch| w.conn != conn;
        let ghost keep_in = |e: (u64, u64)| e.1 != conn;
        let mut kept: Vec<RemoteWatch> = Vec::new();
        let mut out: Vec<(u64, u64)> = Vec::new();
        let mut i: usize = 0;
        while i < self.watches.len()
            invariant
                0 <= i <= old_w.len(),
                old_w == self.watches@,
                on == (|w: RemoteWatch| w.conn == conn),
                off == (|w: RemoteWatch| w.conn != conn),
                kept@ == old_w.take(i as int).filter(off),
                out@ == old_w.take(i as int).filter(on).map_values(|w: RemoteWatch| (w.watcher, w.remote)),
            decreases old_w.len() - i,
        {
            let w = self.watches[i];
            proof {
                let t = old_w.take(i + 1);
                assert(t.drop_last() =~= old_w.take(i as int));
                assert(t.last() == w);
                reveal(Seq::filter);
            }
            if w.conn == conn {
                out.push((w.watcher, w.remote));
            } else {
                kept.push(w);
            }
            i = i + 1;
            proof {
                assert(out@ =~= old_w.take(i as int).filter(on).map_values(|w: RemoteWatch| (w.watcher, w.remote)));
            }
        }
        proof {
            assert(old_w.take(i as int) =~= old_w);
        }
        let mut kept_in: Vec<(u64, u64)> = Vec::new();
        let mut j: usize = 0;
        while j < self.inbound.len()
            invariant
                0 <= j <= old_in.len(),
                old_in == self.inbound@,
                keep_in == (|e: (u64, u64)| e.1 != conn),
                kept_in@ == old_in.take(j as int).filter(keep_in),
            decreases old_in.len() - j,
        {
            let e = self.inbound[j];
            proof {
                let t = old_in.take(j + 1);
                assert(t.drop_last() =~= old_in.take(j as int));
                assert(t.last() == e);
                reveal(Seq::filter);
            }
            if e.1 != conn {
                kept_in.push(e);
            }
            j = j + 1;
        }
        proof {
            assert(old_in.take(j as int) =~= old_in);
        }
        self.watches = kept;
        self.inbound = kept_in;
        out
    }

    /// Local actor `pid` exited: the peers monitoring it are owed an exit
    /// frame each (connection and bytes), and their monitors end.
    pub fn on_local_exit(&mut self, pid: u64, reason: &ExitReason) -> (r: Vec<(u64, Vec<u8>)>)
        requires
            reason matches ExitReason::Other(s) ==> encode_utf8(s@).len() <= u32::MAX && s@.len()
                <= u32::MAX,
        ensures
            final(self)@.inbound == old(self)@.inbound.filter(|e: (u64, u64)| e.0 != pid),
            final(self)@.watches == old(self)@.watches,
            r@.len() == old(self)@.inbound.filter(|e: (u64, u64)| e.0 == pid).len(),
            forall|k: int|
                0 <= k < r@.len() ==> (#[trigger] r@[k]).0 == old(self)@.inbound.filter(
                    |e: (u64, u64)| e.0 == pid,
                )[k].1 && r@[k].1@ == exit_frame_view(pid, *reason).bytes(),
    {
        let ghost old_in = self@.inbound;
        let ghost mine = |e: (u64, u64)| e.0 == pid;
        let ghost other = |e: (u64, u64)| e.0 != pid;
        let mut kept: Vec<(u64, u64)> = Vec::new();
        let mut out: Vec<(u64, Vec<u8>)> = Vec::new();
        let mut i: usize = 0;
        while i < self.inbound.len()
            invariant
                0 <= i <= old_in.len(),
                old_in == self.inbound@,
                mine == (|e: (u64, u64)| e.0 == pid),
                other == (|e: (u64, u64)| e.0 != pid),
                reason matches ExitReason::Other(s) ==> encode_utf8(s@).len() <= u32::MAX
                    && s@.len() <= u32::MAX,
                kept@ == old_in.take(i as int).filter(other),
                out@.len() == old_in.take(i as int).filter(mine).len(),
                forall|k: int|
                    0 <= k < out@.len() ==> (#[trigger] out@[k]).0 == old_in.take(i as int).filter(mine)[k].1
                        && out@[k].1@ == exit_frame_view(pid, *reason).bytes(),
            decreases old_in.len() - i,
        {
            let e = self.inbound[i];
            proof {
                let t = old_in.take(i + 1);
                assert(t.drop_last() =~= old_in.take(i as int));
                assert(t.last() == e);
                reveal(Seq::filter);
            }
            if e.0 == pid {
                out.push((e.1, exit_frame(pid, reason)));
            } else {
                kept.push(e);
            }
            i = i + 1;
        }
        proof {
            assert(old_in.take(i as int) =~= old_in);
        }
        self.inbound = kept;
        out
    }
}

} // verus!
