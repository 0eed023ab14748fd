//! Per-actor mailbox: a system queue that is always served first, a user
//! queue that may be bounded, and a stash of messages deferred by selective
//! receive.
use std::collections::VecDeque;
use vstd::prelude::*;

verus! {

/// Why an actor stopped.
#[derive(Clone, Debug, PartialEq, Eq)]
pub enum ExitReason {
    Normal,
    Panic,
    Timeout,
    Killed,
    Oom,
    Other(String),
}

/// Notification that actor `from` has exited.
#[derive(Clone, Debug, PartialEq, Eq)]
pub struct ExitInfo {
    pub from: u64,
    pub reason: ExitReason,
    pub metadata: Option<String>,
}

#[derive(Clone, Debug, PartialEq, Eq)]
pub enum SystemMessage {
    Exit(ExitInfo),
    /// Opaque handle of the behavior that replaces the current one.
    HotSwap(usize),
    Ping,
    Pong,
}

#[derive(Clone, Debug, PartialEq, Eq)]
pub enum Message {
    User(Vec<u8>),
    System(SystemMessage),
}

pub open spec fn is_user(m: Message) -> bool {
    m is User
}

/// `r` holds a user message.
pub open spec fn is_user_message_opt(r: Option<Message>) -> bool {
    r matches Some(m) && is_user(m)
}

/// Number of user messages in `s`.
pub open spec fn user_count(s: Seq<Message>) -> nat
    decreases s.len(),
{
    if s.len() == 0 {
        0
    } else {
        user_count(s.drop_last()) + if is_user(s.last()) { 1nat } else { 0nat }
    }
}

/// Index of the first system message of `s`, or `s.len()` if there is none.
pub open spec fn first_system(s: Seq<Message>) -> nat
    decreases s.len(),
{
    if s.len() == 0 {
        0
    } else if !is_user(s[0]) {
        0
    } else {
        1 + first_system(s.drop_first())
    }
}

pub open spec fn sys_msgs(s: Seq<SystemMessage>) -> Seq<Message> {
    s.map_values(|x: SystemMessage| Message::System(x))
}

pub open spec fn user_msgs(s: Seq<Vec<u8>>) -> Seq<Message> {
    s.map_values(|b: Vec<u8>| Message::User(b))
}

/// Abstract state of a mailbox.
pub struct MailboxView {
    /// System messages in the channel, oldest first.
    pub sys: Seq<SystemMessage>,
    /// User payloads in the channel, oldest first.
    pub user: Seq<Vec<u8>>,
    /// Messages deferred by selective receive, in the order first seen.
    pub stash: Seq<Message>,
    /// Bound on the user channel, if any.
    pub capacity: Option<usize>,
    /// The receiving side is gone.
    pub closed: bool,
}

impl MailboxView {
    /// Messages not yet delivered, in the order selective receive examines them.
    pub open spec fn candidates(self) -> Seq<Message> {
        self.stash + sys_msgs(self.sys) + user_msgs(self.user)
    }

    /// Number of user messages not yet delivered.
    pub open spec fn pending_users(self) -> nat {
        user_count(self.stash) + self.user.len()
    }

    pub open spec fn has_system(self) -> bool {
        first_system(self.stash) < self.stash.len() || self.sys.len() > 0
    }

    /// No system message is pending, in the stash or in the channel.
    pub open spec fn only_users(self) -> bool {
        &&& forall|j: int| 0 <= j < self.stash.len() ==> is_user(#[trigger] self.stash[j])
        &&& self.sys.len() == 0
    }

    /// Pending user messages in the order receives deliver them, when no
    /// system message is pending.
    pub open spec fn user_order(self) -> Seq<Message> {
        self.stash + user_msgs(self.user)
    }

    pub open spec fn user_full(self) -> bool {
        self.capacity matches Some(c) && self.user.len() >= c
    }

    /// A user send is taken: the receiver is there, the bounded channel has
    /// room, and the depth counter can count one more.
    pub open spec fn accepts_user(self) -> bool {
        !self.closed && !self.user_full() && self.pending_users() < usize::MAX
    }

    /// Outcome of a send: a user payload is refused, and handed back, when
    /// the receiver is gone or the bounded channel is full (drop-new); a
    /// system message only when the receiver is gone.
    pub open spec fn send_step(self, msg: Message) -> (Result<(), Message>, MailboxView) {
        match msg {
            Message::User(b) => if self.accepts_user() {
                (Ok(()), MailboxView { user: self.user.push(b), ..self })
            } else {
                (Err(msg), self)
            },
            Message::System(s) => if !self.closed {
                (Ok(()), MailboxView { sys: self.sys.push(s), ..self })
            } else {
                (Err(msg), self)
            },
        }
    }

    pub open spec fn empty(capacity: Option<usize>) -> MailboxView {
        MailboxView {
            sys: Seq::empty(),
            user: Seq::empty(),
            stash: Seq::empty(),
            capacity,
            closed: false,
        }
    }

    /// What the next receive returns and the state it leaves: a stashed
    /// system message, then a queued one, then the stash, then the user queue.
    pub open spec fn recv_step(self) -> (Option<Message>, MailboxView) {
        let k = first_system(self.stash);
        if k < self.stash.len() {
            (Some(self.stash[k as int]), MailboxView { stash: self.stash.remove(k as int), ..self })
        } else if self.sys.len() > 0 {
            (Some(Message::System(self.sys[0])), MailboxView { sys: self.sys.drop_first(), ..self })
        } else if self.stash.len() > 0 {
            (Some(self.stash[0]), MailboxView { stash: self.stash.drop_first(), ..self })
        } else if self.user.len() > 0 {
            (Some(Message::User(self.user[0])), MailboxView { user: self.user.drop_first(), ..self })
        } else {
            (None, self)
        }
    }

    /// State after the channels have been examined up to position `i` of
    /// `sys_msgs(sys) + user_msgs(user)`: what was rejected before `i` is
    /// appended to the stash, the message at `i` (if any) is taken.
    pub open spec fn arrivals_outcome(self, i: int) -> MailboxView {
        let c = sys_msgs(self.sys) + user_msgs(self.user);
        let ns = self.sys.len() as int;
        if i < ns {
            MailboxView { stash: self.stash + c.take(i), sys: self.sys.skip(i + 1), ..self }
        } else if i < c.len() {
            MailboxView {
                stash: self.stash + c.take(i),
                sys: Seq::empty(),
                user: self.user.skip(i - ns + 1),
                ..self
            }
        } else {
            MailboxView { stash: self.stash + c, sys: Seq::empty(), user: Seq::empty(), ..self }
        }
    }

    /// State after selective receive took candidate `i`, or found nothing
    /// when `i == candidates().len()`.
    pub open spec fn selective_outcome(self, i: int) -> MailboxView {
        if i < self.stash.len() {
            MailboxView { stash: self.stash.remove(i), ..self }
        } else {
            self.arrivals_outcome(i - self.stash.len())
        }
    }
}

/// `pred` rejected each of `s[0..i]`.
pub open spec fn rejected_before<F: Fn(&Message) -> bool>(pred: F, s: Seq<Message>, i: int) -> bool {
    forall|j: int| 0 <= j < i ==> call_ensures(pred, (&s[j],), false)
}

/// The outcome of examining `s` with `pred` and stopping at position `i`.
pub open spec fn scan_result<F: Fn(&Message) -> bool>(
    pred: F,
    s: Seq<Message>,
    i: int,
    r: Option<Message>,
) -> bool {
    &&& 0 <= i <= s.len()
    &&& rejected_before(pred, s, i)
    &&& i < s.len() ==> r == Some(s[i]) && call_ensures(pred, (&s[i],), true)
    &&& i == s.len() ==> r is None
}

/// A mailbox of one actor. Its queues are held here as plain values rather
/// than in a channel shared between a sending and a receiving task, whose
/// contents no single side could name; a caller that must wait for a
/// message pairs the mailbox with a wake-up signal of its own.
pub struct Mailbox {
    sys: VecDeque<SystemMessage>,
    user: VecDeque<Vec<u8>>,
    stash: Vec<Message>,
    capacity: Option<usize>,
    counter: usize,
    closed: bool,
}

impl View for Mailbox {
    type V = MailboxView;

    closed spec fn view(&self) -> MailboxView {
        MailboxView {
            sys: self.sys@,
            user: self.user@,
            stash: self.stash@,
            capacity: self.capacity,
            closed: self.closed,
        }
    }
}

impl Mailbox {
    pub closed spec fn wf(&self) -> bool {
        &&& self.counter == self@.pending_users()
        &&& self.capacity matches Some(c) ==> c > 0
    }

    fn with_capacity(capacity: Option<usize>) -> (r: Mailbox)
        requires
            capacity matches Some(c) ==> c > 0,
        ensures
            r.wf(),
            r@ == MailboxView::empty(capacity),
    {
        let r = Mailbox {
            sys: VecDeque::new(),
            user: VecDeque::new(),
            stash: Vec::new(),
            capacity,
            counter: 0,
            closed: false,
        };
        proof {
            assert(r@ =~= MailboxView::empty(capacity));
        }
        r
    }

    /// Send a message. A user payload is refused, and handed back, when the
    /// receiver is gone or the bounded channel is full (drop-new); a system
    /// message only when the receiver is gone.
    pub fn send(&mut self, msg: Message) -> (r: Result<(), Message>)
        requires
            old(self).wf(),
        ensures
            final(self).wf(),
            (r, final(self)@) == old(self)@.send_step(msg),
    {
        match msg {
            Message::User(b) => match self.send_user_bytes(b) {
                Ok(()) => Ok(()),
                Err(b) => Err(Message::User(b)),
            },
            Message::System(s) => match self.send_system(s) {
                Ok(()) => Ok(()),
                Err(s) => Err(Message::System(s)),
            },
        }
    }

    /// Send a user payload; see `send`.
    pub fn send_user_bytes(&mut self, b: Vec<u8>) -> (r: Result<(), Vec<u8>>)
        requires
            old(self).wf(),
        ensures
            final(self).wf(),
            old(self)@.accepts_user() ==> r is Ok && final(self)@ == (MailboxView {
                user: old(self)@.user.push(b),
                ..old(self)@
            }),
            !old(self)@.accepts_user() ==> r == Err::<(), Vec<u8>>(b) && final(self)@ == old(self)@,
    {
        if self.closed || self.counter == usize::MAX {
            return Err(b);
        }
        match self.capacity {
            Some(c) => {
                if self.user.len() >= c {
                    return Err(b);
                }
            },
            None => {},
        }
        self.user.push_back(b);
        self.counter = self.counter + 1;
        Ok(())
    }

    /// Send a system message; refused only when the receiver is gone.
    pub fn send_system(&mut self, s: SystemMessage) -> (r: Result<(), SystemMessage>)
        requires
            old(self).wf(),
        ensures
            final(self).wf(),
            !old(self)@.closed ==> r is Ok && final(self)@ == (MailboxView {
                sys: old(self)@.sys.push(s),
                ..old(self)@
            }),
            old(self)@.closed ==> r == Err::<(), SystemMessage>(s) && final(self)@ == old(self)@,
    {
        if self.closed {
            return Err(s);
        }
        self.sys.push_back(s);
        Ok(())
    }

    /// Number of user messages queued, stashed ones included.
    pub fn len(&self) -> (r: usize)
        requires
            self.wf(),
        ensures
            r == self@.pending_users(),
    {
        self.counter
    }

    /// The receiver is gone: every later send is refused.
    pub fn close(&mut self)
        requires
            old(self).wf(),
        ensures
            final(self).wf(),
            final(self)@ == (MailboxView { closed: true, ..old(self)@ }),
    {
        self.closed = true;
    }

    fn first_stashed_system(&self) -> (k: usize)
        ensures
            k == first_system(self.stash@),
    {
        let mut i: usize = 0;
        while i < self.stash.len() && is_user_message(&self.stash[i])
            invariant
                0 <= i <= self.stash@.len(),
                forall|j: int| 0 <= j < i ==> is_user(#[trigger] self.stash@[j]),
            decreases self.stash@.len() - i,
        {
            i = i + 1;
        }
        proof {
            lemma_first_system_at(self.stash@, i as int);
        }
        i
    }

    /// Take the next message without waiting: a stashed system message,
    /// then a queued one, then the stash, then the user queue.
    pub fn try_recv(&mut self) -> (r: Option<Message>)
        requires
            old(self).wf(),
        ensures
            final(self).wf(),
            is_user_message_opt(r) ==> final(self)@.pending_users() + 1 == old(self)@.pending_users(),
            !is_user_message_opt(r) ==> final(self)@.pending_users() == old(self)@.pending_users(),
            (r, final(self)@) == old(self)@.recv_step(),
    {
        let k = self.first_stashed_system();
        proof {
            lemma_first_system(self.stash@);
        }
        if k < self.stash.len() {
            proof {
                lemma_user_count_remove(self.stash@, k as int);
            }
            let m = self.stash.remove(k);
            return Some(m);
        }
        match self.sys.pop_front() {
            Some(s) => {
                return Some(Message::System(s));
            },
            None => {},
        }
        if self.stash.len() > 0 {
            proof {
                lemma_user_count_remove(self.stash@, 0);
                assert(self.stash@.remove(0) =~= self.stash@.drop_first());
            }
            let m = self.stash.remove(0);
            if is_user_message(&m) {
                self.counter = self.counter - 1;
            }
            return Some(m);
        }
        match self.user.pop_front() {
            Some(b) => {
                self.counter = self.counter - 1;
                Some(Message::User(b))
            },
            None => None,
        }
    }
}

impl Mailbox {
    /// Selective receive without waiting: examine the stash in order, then
    /// the channels, evaluating `pred` once per message. The first accepted
    /// message is returned; every message examined and rejected is left in
    /// the stash, in the order first seen.
    pub fn selective_recv<F: Fn(&Message) -> bool>(&mut self, pred: F) -> (r: Option<Message>)
        requires
            old(self).wf(),
            forall|m: &Message| #[trigger] pred.requires((m,)),
        ensures
            final(self).wf(),
            is_user_message_opt(r) ==> final(self)@.pending_users() + 1 == old(self)@.pending_users(),
            !is_user_message_opt(r) ==> final(self)@.pending_users() == old(self)@.pending_users(),
            exists|i: int|
                scan_result(pred, old(self)@.candidates(), i, r) && final(self)@
                    == old(self)@.selective_outcome(i),
    {
        let ghost v0 = self@;
        let ghost cand = v0.candidates();
        let ghost c = sys_msgs(v0.sys) + user_msgs(v0.user);
        proof {
            assert(cand =~= v0.stash + c);
        }
        let mut i: usize = 0;
        while i < self.stash.len()
            invariant
                self.wf(),
                self.counter == old(self).counter,
                old(self).wf(),
                v0 == old(self)@,
                self@ == v0,
                cand == v0.candidates(),
                cand == v0.stash + c,
                c == sys_msgs(v0.sys) + user_msgs(v0.user),
                0 <= i <= v0.stash.len(),
                forall|m: &Message| #[trigger] pred.requires((m,)),
                rejected_before(pred, cand, i as int),
            decreases v0.stash.len() - i,
        {
            let hit = pred(&self.stash[i]);
            if hit {
                proof {
                    lemma_user_count_remove(self.stash@, i as int);
                    assert(scan_result(pred, cand, i as int, Some(self.stash@[i as int])));
                }
                let m = self.stash.remove(i);
                if is_user_message(&m) {
                    self.counter = self.counter - 1;
                }
                proof {
                    assert(self@.stash == v0.selective_outcome(i as int).stash);
                    assert(self@ == v0.selective_outcome(i as int));
                }
                return Some(m);
            }
            i = i + 1;
        }
        let r = self.selective_recv_arrivals(pred);
        proof {
            let k = choose|k: int| scan_result(pred, c, k, r) && self@ == v0.arrivals_outcome(k);
            let n = v0.stash.len() as int;
            assert forall|j: int| 0 <= j < n + k implies call_ensures(pred, (&cand[j],), false) by {
                if j >= n {
                    assert(cand[j] == c[j - n]);
                }
            }
            if k < c.len() {
                assert(cand[n + k] == c[k]);
            }
            assert(scan_result(pred, cand, n + k, r));
            assert(self@ == v0.selective_outcome(n + k));
        }
        r
    }

    /// Selective receive over the channels alone, for a receiver that has
    /// already examined its stash: each queued message is examined once,
    /// system queue first; rejected ones are appended to the stash.
    pub fn selective_recv_arrivals<F: Fn(&Message) -> bool>(&mut self, pred: F) -> (r: Option<Message>)
        requires
            old(self).wf(),
            forall|m: &Message| #[trigger] pred.requires((m,)),
        ensures
            final(self).wf(),
            is_user_message_opt(r) ==> final(self)@.pending_users() + 1 == old(self)@.pending_users(),
            !is_user_message_opt(r) ==> final(self)@.pending_users() == old(self)@.pending_users(),
            exists|i: int|
                scan_result(pred, sys_msgs(old(self)@.sys) + user_msgs(old(self)@.user), i, r)
                    && final(self)@ == old(self)@.arrivals_outcome(i),
    {
        let ghost v0 = self@;
        let ghost c = sys_msgs(v0.sys) + user_msgs(v0.user);
        let ghost ns = v0.sys.len() as int;
        let ghost mut i: int = 0;
        proof {
            assert(v0.stash + c.take(0) =~= v0.stash);
            assert(v0.sys.skip(0) =~= v0.sys);
        }
        while self.sys.len() > 0
            invariant
                self.wf(),
                self.counter == old(self).counter,
                old(self).wf(),
                v0 == old(self)@,
                c == sys_msgs(v0.sys) + user_msgs(v0.user),
                ns == v0.sys.len(),
                0 <= i <= ns,
                self@ == (MailboxView { stash: v0.stash + c.take(i), sys: v0.sys.skip(i), ..v0 }),
                forall|m: &Message| #[trigger] pred.requires((m,)),
                rejected_before(pred, c, i),
            decreases self.sys@.len(),
        {
            let s = match self.sys.pop_front() {
                Some(s) => s,
                None => { return None; },
            };
            proof {
                assert(v0.sys.skip(i)[0] == v0.sys[i]);
                assert(c[i] == Message::System(v0.sys[i]));
            }
            let m = Message::System(s);
            let hit = pred(&m);
            if hit {
                proof {
                    assert(v0.sys.skip(i).drop_first() =~= v0.sys.skip(i + 1));
                    assert(scan_result(pred, c, i, Some(m)));
                    assert(self@.sys =~= v0.arrivals_outcome(i).sys);
                    assert(self@ == v0.arrivals_outcome(i));
                }
                return Some(m);
            }
            proof {
                assert((v0.stash + c.take(i)).push(m).drop_last() =~= v0.stash + c.take(i));
                assert((v0.stash + c.take(i)).push(m) =~= v0.stash + c.take(i + 1));
                assert(v0.sys.skip(i).drop_first() =~= v0.sys.skip(i + 1));
            }
            self.stash.push(m);
            proof {
                i = i + 1;
            }
        }
        proof {
            if i < ns {
                assert(v0.sys.skip(i).len() > 0);
            }
            assert(i == ns);
            assert(v0.sys.skip(i) =~= Seq::<SystemMessage>::empty());
            assert(v0.user.skip(i - ns) =~= v0.user);
        }
        while self.user.len() > 0
            invariant
                self.wf(),
                self.counter == old(self).counter,
                old(self).wf(),
                v0 == old(self)@,
                c == sys_msgs(v0.sys) + user_msgs(v0.user),
                ns == v0.sys.len(),
                ns <= i <= c.len(),
                self@ == (MailboxView {
                    stash: v0.stash + c.take(i),
                    sys: Seq::empty(),
                    user: v0.user.skip(i - ns),
                    ..v0
                }),
                forall|m: &Message| #[trigger] pred.requires((m,)),
                rejected_before(pred, c, i),
            decreases self.user@.len(),
        {
            let b = match self.user.pop_front() {
                Some(b) => b,
                None => { return None; },
            };
            proof {
                assert(v0.user.skip(i - ns)[0] == v0.user[i - ns]);
                assert(c[i] == Message::User(v0.user[i - ns]));
            }
            let m = Message::User(b);
            let hit = pred(&m);
            if hit {
                self.counter = self.counter - 1;
                proof {
                    assert(v0.user.skip(i - ns).drop_first() =~= v0.user.skip(i - ns + 1));
                    assert(scan_result(pred, c, i, Some(m)));
                    assert(self@.user =~= v0.arrivals_outcome(i).user);
                    assert(self@.sys =~= v0.arrivals_outcome(i).sys);
                    assert(self@ == v0.arrivals_outcome(i));
                }
                return Some(m);
            }
            proof {
                assert((v0.stash + c.take(i)).push(m).drop_last() =~= v0.stash + c.take(i));
                assert((v0.stash + c.take(i)).push(m) =~= v0.stash + c.take(i + 1));
                assert(v0.user.skip(i - ns).drop_first() =~= v0.user.skip(i - ns + 1));
            }
            self.stash.push(m);
            proof {
                i = i + 1;
            }
        }
        proof {
            if i < c.len() {
                assert(v0.user.skip(i - ns).len() > 0);
            }
            assert(c.take(i) =~= c);
            assert(self@.user =~= v0.arrivals_outcome(i).user);
            assert(self@.stash =~= v0.arrivals_outcome(i).stash);
            assert(self@ == v0.arrivals_outcome(i));
            assert(scan_result(pred, c, i, None));
        }
        None
    }
}

pub fn copy_reason(r: &ExitReason) -> (c: ExitReason)
    ensures
        c == *r,
{
    match r {
        ExitReason::Normal => ExitReason::Normal,
        ExitReason::Panic => ExitReason::Panic,
        ExitReason::Timeout => ExitReason::Timeout,
        ExitReason::Killed => ExitReason::Killed,
        ExitReason::Oom => ExitReason::Oom,
        ExitReason::Other(s) => ExitReason::Other(s.clone()),
    }
}

/// `a` and `b` carry the same content.
pub open spec fn same_message(a: Message, b: Message) -> bool {
    match a {
        Message::User(x) => b matches Message::User(y) && x@ == y@,
        Message::System(s) => b == Message::System(s),
    }
}

pub fn copy_system(s: &SystemMessage) -> (r: SystemMessage)
    ensures
        r == *s,
{
    match s {
        SystemMessage::Exit(info) => SystemMessage::Exit(
            ExitInfo {
                from: info.from,
                reason: copy_reason(&info.reason),
                metadata: match &info.metadata {
                    Some(t) => Some(t.clone()),
                    None => None,
                },
            },
        ),
        SystemMessage::HotSwap(h) => SystemMessage::HotSwap(*h),
        SystemMessage::Ping => SystemMessage::Ping,
        SystemMessage::Pong => SystemMessage::Pong,
    }
}

pub fn copy_message(m: &Message) -> (r: Message)
    ensures
        same_message(r, *m),
{
    match m {
        Message::User(b) => {
            let c = b.clone();
            proof {
                assert(c@ =~= b@);
            }
            Message::User(c)
        },
        Message::System(s) => Message::System(copy_system(s)),
    }
}

pub fn is_user_message(m: &Message) -> (r: bool)
    ensures
        r == is_user(*m),
{
    match m {
        Message::User(_) => true,
        Message::System(_) => false,
    }
}

/// An unbounded mailbox.
pub fn channel() -> (r: Mailbox)
    ensures
        r.wf(),
        r@ == MailboxView::empty(None),
{
    Mailbox::with_capacity(None)
}

/// A mailbox whose user channel holds at most `capacity` messages.
pub fn bounded_channel(capacity: usize) -> (r: Mailbox)
    requires
        capacity > 0,
    ensures
        r.wf(),
        r@ == MailboxView::empty(Some(capacity)),
{
    Mailbox::with_capacity(Some(capacity))
}

/// The depth counter equals the number of user messages that later
/// receives can still deliver.
pub proof fn lemma_counter_consistency(v: MailboxView)
    ensures
        v.pending_users() == user_count(v.candidates()),
{
    lemma_user_count_concat(v.stash + sys_msgs(v.sys), user_msgs(v.user));
    lemma_user_count_concat(v.stash, sys_msgs(v.sys));
    lemma_user_count_sys(v.sys);
    lemma_user_count_user(v.user);
}

/// On a bounded mailbox whose channel holds as many user messages as its
/// capacity, a user send is refused with the message handed back, and the
/// mailbox is unchanged.
pub proof fn lemma_bounded_drop_new(v: MailboxView, k: usize, b: Vec<u8>)
    requires
        v.capacity == Some(k),
        v.user.len() == k,
    ensures
        v.send_step(Message::User(b)) == (Err::<(), Message>(Message::User(b)), v),
{
}

/// When a system message and a user message are both pending, a receive
/// delivers a system message.
pub proof fn lemma_system_priority(v: MailboxView)
    requires
        v.has_system(),
    ensures
        v.recv_step().0 matches Some(Message::System(_)),
{
    lemma_first_system(v.stash);
}

/// Selective receive over pending user messages M1..Mn that takes Mi leaves
/// M1..Mi-1, Mi+1..Mn pending in that order; when nothing matches, all of
/// them stay pending in order.
pub proof fn lemma_selective_ordering(v: MailboxView, i: int)
    requires
        v.only_users(),
        0 <= i <= v.candidates().len(),
    ensures
        v.candidates() == v.user_order(),
        v.selective_outcome(i).only_users(),
        i < v.candidates().len() ==> v.selective_outcome(i).user_order() == v.user_order().remove(i),
        i == v.candidates().len() ==> v.selective_outcome(i).user_order() == v.user_order(),
{
    let w = v.selective_outcome(i);
    let u = user_msgs(v.user);
    let n = v.stash.len() as int;
    assert(sys_msgs(v.sys) =~= Seq::<Message>::empty());
    assert(v.candidates() =~= v.user_order());
    if i < n {
        assert(w.stash =~= v.stash.remove(i));
        assert forall|j: int| 0 <= j < w.stash.len() implies is_user(#[trigger] w.stash[j]) by {
            if j >= i {
                assert(w.stash[j] == v.stash[j + 1]);
            }
        }
        assert(w.user_order() =~= v.user_order().remove(i));
    } else {
        let c = sys_msgs(v.sys) + u;
        assert(c =~= u);
        assert forall|j: int| 0 <= j < w.stash.len() implies is_user(#[trigger] w.stash[j]) by {
            if j >= n {
                assert(w.stash[j] == u[j - n]);
            }
        }
        if i < v.candidates().len() {
            assert(u.take(i - n) + user_msgs(v.user.skip(i - n + 1)) =~= u.remove(i - n));
            assert(w.user_order() =~= v.user_order().remove(i));
        } else {
            assert(user_msgs(Seq::<Vec<u8>>::empty()) =~= Seq::<Message>::empty());
            assert(w.user_order() =~= v.user_order());
        }
    }
}

/// What `n` receives in a row deliver, starting from `v`.
pub open spec fn receives(v: MailboxView, n: nat) -> Seq<Option<Message>>
    decreases n,
{
    if n == 0 {
        Seq::empty()
    } else {
        seq![v.recv_step().0] + receives(v.recv_step().1, (n - 1) as nat)
    }
}

/// With only user messages M1..Mn pending, n receives in a row deliver
/// M1..Mn in order, each once (so after a selective receive, the remaining
/// messages come out in their original order).
pub proof fn lemma_receives_in_order(v: MailboxView, n: nat)
    requires
        v.only_users(),
        n <= v.user_order().len(),
    ensures
        receives(v, n) == v.user_order().take(n as int).map_values(|m: Message| Some(m)),
    decreases n,
{
    if n > 0 {
        lemma_recv_in_order(v);
        let w = v.recv_step().1;
        lemma_receives_in_order(w, (n - 1) as nat);
        assert(w.user_order() == v.user_order().drop_first());
        assert(receives(v, n) =~= v.user_order().take(n as int).map_values(|m: Message| Some(m)));
    } else {
        assert(receives(v, n) =~= v.user_order().take(n as int).map_values(|m: Message| Some(m)));
    }
}

/// With only user messages pending, a receive delivers the first of them
/// and leaves the rest in order.
pub proof fn lemma_recv_in_order(v: MailboxView)
    requires
        v.only_users(),
    ensures
        v.user_order().len() == 0 ==> v.recv_step() == (None::<Message>, v),
        v.user_order().len() > 0 ==> v.recv_step().0 == Some(v.user_order()[0])
            && v.recv_step().1.user_order() == v.user_order().drop_first(),
        v.recv_step().1.only_users(),
{
    lemma_first_system_at(v.stash, v.stash.len() as int);
    let w = v.recv_step().1;
    if v.stash.len() > 0 {
        assert forall|j: int| 0 <= j < w.stash.len() implies is_user(#[trigger] w.stash[j]) by {
            assert(w.stash[j] == v.stash[j + 1]);
        }
        assert(w.user_order() =~= v.user_order().drop_first());
    } else if v.user.len() > 0 {
        assert(user_msgs(v.user.drop_first()) =~= user_msgs(v.user).drop_first());
        assert(w.user_order() =~= v.user_order().drop_first());
    }
}

proof fn lemma_user_count_sys(s: Seq<SystemMessage>)
    ensures
        user_count(sys_msgs(s)) == 0,
    decreases s.len(),
{
    if s.len() > 0 {
        assert(sys_msgs(s).drop_last() =~= sys_msgs(s.drop_last()));
        lemma_user_count_sys(s.drop_last());
    }
}

proof fn lemma_user_count_user(s: Seq<Vec<u8>>)
    ensures
        user_count(user_msgs(s)) == s.len(),
    decreases s.len(),
{
    if s.len() > 0 {
        assert(user_msgs(s).drop_last() =~= user_msgs(s.drop_last()));
        lemma_user_count_user(s.drop_last());
    }
}

proof fn lemma_first_system(s: Seq<Message>)
    ensures
        first_system(s) <= s.len(),
        forall|j: int| 0 <= j < first_system(s) ==> is_user(#[trigger] s[j]),
        first_system(s) < s.len() ==> !is_user(s[first_system(s) as int]),
    decreases s.len(),
{
    if s.len() > 0 && is_user(s[0]) {
        lemma_first_system(s.drop_first());
        assert forall|j: int| 0 <= j < first_system(s) implies is_user(#[trigger] s[j]) by {
            if j > 0 {
                assert(s[j] == s.drop_first()[j - 1]);
            }
        }
    }
}

proof fn lemma_first_system_at(s: Seq<Message>, i: int)
    requires
        0 <= i <= s.len(),
        forall|j: int| 0 <= j < i ==> is_user(#[trigger] s[j]),
        i < s.len() ==> !is_user(s[i]),
    ensures
        first_system(s) == i,
    decreases i,
{
    if i > 0 {
        assert forall|j: int| 0 <= j < i - 1 implies is_user(#[trigger] s.drop_first()[j]) by {
            assert(s.drop_first()[j] == s[j + 1]);
        }
        lemma_first_system_at(s.drop_first(), i - 1);
    }
}

pub proof fn lemma_user_count_concat(s: Seq<Message>, t: Seq<Message>)
    ensures
        user_count(s + t) == user_count(s) + user_count(t),
    decreases t.len(),
{
    if t.len() > 0 {
        assert((s + t).drop_last() =~= s + t.drop_last());
        lemma_user_count_concat(s, t.drop_last());
    } else {
        assert(s + t =~= s);
    }
}

proof fn lemma_user_count_single(m: Message)
    ensures
        user_count(seq![m]) == if is_user(m) { 1nat } else { 0nat },
{
    assert(seq![m].drop_last() =~= Seq::<Message>::empty());
    assert(user_count(Seq::<Message>::empty()) == 0);
}

proof fn lemma_user_count_remove(s: Seq<Message>, i: int)
    requires
        0 <= i < s.len(),
    ensures
        user_count(s.remove(i)) + (if is_user(s[i]) { 1nat } else { 0nat }) == user_count(s),
{
    assert(s =~= s.take(i) + seq![s[i]] + s.skip(i + 1));
    assert(s.remove(i) =~= s.take(i) + s.skip(i + 1));
    lemma_user_count_concat(s.take(i) + seq![s[i]], s.skip(i + 1));
    lemma_user_count_concat(s.take(i), seq![s[i]]);
    lemma_user_count_concat(s.take(i), s.skip(i + 1));
    lemma_user_count_single(s[i]);
}

} // verus!
