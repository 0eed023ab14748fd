//! The actor table: spawning, delivery, names, links, monitors, and the
//! propagation of exits. PIDs are allocated densely from 1 and never reused;
//! PID 0 means "no actor".
use crate::mailbox::{
    bounded_channel, channel, copy_message, copy_reason, same_message, scan_result, ExitInfo,
    ExitReason, Mailbox, MailboxView, Message, SystemMessage,
};
use crate::registry::{without_pid, NameMap, NameRegistry};
use vstd::prelude::*;

verus! {

/// Control block of one actor.
pub struct Actor {
    mailbox: Mailbox,
    alive: bool,
    parent: Option<u64>,
    links: Vec<u64>,
    watchers: Vec<u64>,
    observed: Option<Vec<Message>>,
}

pub struct ActorView {
    pub mailbox: MailboxView,
    pub alive: bool,
    /// The actor whose exit stops this one.
    pub parent: Option<u64>,
    /// Peers linked to this actor.
    pub links: Seq<u64>,
    /// Actors monitoring this one.
    pub watchers: Seq<u64>,
    /// Messages received so far, for an observed actor.
    pub observed: Option<Seq<Message>>,
}

impl View for Actor {
    type V = ActorView;

    closed spec fn view(&self) -> ActorView {
        ActorView {
            mailbox: self.mailbox@,
            alive: self.alive,
            parent: self.parent,
            links: self.links@,
            watchers: self.watchers@,
            observed: match self.observed {
                Some(v) => Some(v@),
                None => None,
            },
        }
    }
}

pub struct RuntimeView {
    /// The actor with PID `p` is `actors[p - 1]`.
    pub actors: Seq<ActorView>,
    pub names: NameMap,
}

/// Number of times `x` occurs in `s`.
pub open spec fn occurrences(x: u64, s: Seq<u64>) -> nat
    decreases s.len(),
{
    if s.len() == 0 {
        0
    } else {
        occurrences(x, s.drop_last()) + if s.last() == x { 1nat } else { 0nat }
    }
}

/// `s` with `x` added at the end unless it is already there.
pub open spec fn with_member(s: Seq<u64>, x: u64) -> Seq<u64> {
    if s.contains(x) {
        s
    } else {
        s.push(x)
    }
}

/// `s` without its first occurrence of `x`.
pub open spec fn without_member(s: Seq<u64>, x: u64) -> Seq<u64> {
    match s.index_of_first(x) {
        Some(i) => s.remove(i),
        None => s,
    }
}

impl RuntimeView {
    pub open spec fn has(self, p: u64) -> bool {
        1 <= p <= self.actors.len()
    }

    pub open spec fn actor(self, p: u64) -> ActorView {
        self.actors[p - 1]
    }

    pub open spec fn alive(self, p: u64) -> bool {
        self.has(p) && self.actor(p).alive
    }

    /// Structured concurrency: no live actor has a parent that is gone.
    pub open spec fn orphan_free(self) -> bool {
        forall|q: u64|
            #![trigger self.actor(q)]
            self.alive(q) ==> (self.actor(q).parent matches Some(r) ==> self.alive(r))
    }

    /// Actors that receive an exit notice when `p` exits, once per occurrence.
    pub open spec fn notified(self, p: u64) -> Seq<u64> {
        self.actor(p).links + self.actor(p).watchers
    }

    /// How many exit notices from `p` actor `q` receives when `p` exits.
    pub open spec fn exit_notices(self, p: u64, q: u64) -> nat {
        if self.alive(q) && q != p {
            occurrences(q, self.notified(p))
        } else {
            0
        }
    }

    /// `w` is a state this one can reach when live actor `p` exits for
    /// `reason`: `p` is dead; right after its old system queue, every live
    /// actor `q` got exactly `exit_notices(p, q)` notices that `p` exited
    /// for `reason`, and no other notice from `p`; actors only lose
    /// liveness, and only `p` or actors whose parent is dead; names are only
    /// dropped.
    pub open spec fn exited_to(self, p: u64, reason: ExitReason, w: RuntimeView) -> bool {
        &&& !w.alive(p)
        &&& w.actors.len() == self.actors.len()
        &&& forall|q: u64| #![trigger w.actor(q)] self.has(q) ==> evolves(self.actor(q), w.actor(q))
        &&& forall|q: u64|
            #![trigger w.actor(q)]
            self.has(q) && q != p ==> w.actor(q).mailbox.sys.take(
                (self.actor(q).mailbox.sys.len() + self.exit_notices(p, q)) as int,
            ) == self.actor(q).mailbox.sys + Seq::new(
                self.exit_notices(p, q),
                |k: int| exit_notice(p, reason),
            )
        &&& forall|q: u64|
            #![trigger w.actor(q)]
            self.alive(q) && q != p ==> exits_from(w.actor(q).mailbox.sys, p) == exits_from(
                self.actor(q).mailbox.sys,
                p,
            ) + self.exit_notices(p, q)
        &&& forall|q: u64|
            #![trigger w.actor(q)]
            self.alive(q) && !w.alive(q) ==> q == p || (w.actor(q).parent matches Some(r) && !w.alive(r))
        &&& forall|n: Seq<char>|
            #[trigger] w.names.contains_key(n) ==> self.names.contains_key(n) && w.names[n]
                == self.names[n]
    }

    /// This state with the mailbox of `p` replaced by `m`.
    pub open spec fn with_mailbox(self, p: u64, m: MailboxView) -> RuntimeView {
        RuntimeView {
            actors: self.actors.update(p - 1, ActorView { mailbox: m, ..self.actor(p) }),
            ..self
        }
    }

    /// The state after `msg` is sent to `p`: a PID that is not alive drops it.
    pub open spec fn deliver(self, p: u64, msg: Message) -> RuntimeView {
        if self.alive(p) {
            self.with_mailbox(p, self.actor(p).mailbox.send_step(msg).1)
        } else {
            self
        }
    }

    /// This state with the observed messages of `p` replaced by `o`.
    pub open spec fn with_observed(self, p: u64, o: Seq<Message>) -> RuntimeView {
        RuntimeView {
            actors: self.actors.update(p - 1, ActorView { observed: Some(o), ..self.actor(p) }),
            ..self
        }
    }

    pub open spec fn with_links(self, p: u64, l: Seq<u64>) -> RuntimeView {
        RuntimeView { actors: self.actors.update(p - 1, ActorView { links: l, ..self.actor(p) }), ..self }
    }

    pub open spec fn link_outcome(self, a: u64, b: u64) -> RuntimeView {
        let s = self.with_links(a, with_member(self.actor(a).links, b));
        s.with_links(b, with_member(s.actor(b).links, a))
    }

    pub open spec fn unlink_outcome(self, a: u64, b: u64) -> RuntimeView {
        let s = self.with_links(a, without_member(self.actor(a).links, b));
        s.with_links(b, without_member(s.actor(b).links, a))
    }

    pub open spec fn monitor_outcome(self, a: u64, b: u64) -> RuntimeView {
        RuntimeView {
            actors: self.actors.update(
                b - 1,
                ActorView { watchers: with_member(self.actor(b).watchers, a), ..self.actor(b) },
            ),
            ..self
        }
    }

    pub open spec fn well_formed(self) -> bool {
        self.table_ok() && self.orphan_free()
    }

    /// Everything `well_formed` asks but structured concurrency.
    pub open spec fn table_ok(self) -> bool {
        &&& self.actors.len() < u64::MAX
        &&& forall|p: u64|
            #![trigger self.actor(p)]
            self.has(p) ==> {
                let a = self.actor(p);
                &&& a.mailbox.closed == !a.alive
                &&& a.links.no_duplicates()
                &&& a.watchers.no_duplicates()
                &&& !a.links.contains(p)
                &&& !a.watchers.contains(p)
                &&& a.parent matches Some(r) ==> self.has(r)
            }
        &&& forall|n: Seq<char>| #[trigger] self.names.contains_key(n) ==> self.alive(self.names[n])
    }

    /// The state once `p` has exited for `reason`, before its children
    /// are stopped: `p` is dead with a closed mailbox and no name, and each
    /// live actor got one exit notice per occurrence in `notified(p)`.
    pub open spec fn after_death(self, p: u64, reason: ExitReason) -> RuntimeView {
        self.notices_given(p, reason, self.notified(p))
    }

    /// `p` dead and without a name; each live actor `q` other than `p` got
    /// one exit notice from `p` per occurrence of `q` in `ts`.
    pub open spec fn notices_given(self, p: u64, reason: ExitReason, ts: Seq<u64>) -> RuntimeView {
        RuntimeView {
            actors: Seq::new(
                self.actors.len(),
                |k: int|
                    {
                        let q = (k + 1) as u64;
                        let a = self.actor(q);
                        if q == p {
                            ActorView {
                                alive: false,
                                mailbox: MailboxView { closed: true, ..a.mailbox },
                                ..a
                            }
                        } else {
                            with_notices(
                                a,
                                if self.alive(q) { occurrences(q, ts) } else { 0 },
                                exit_notice(p, reason),
                            )
                        }
                    },
            ),
            names: without_pid(self.names, p),
        }
    }
}

fn add_member(v: &mut Vec<u64>, x: u64)
    requires
        old(v)@.no_duplicates(),
    ensures
        final(v)@ == with_member(old(v)@, x),
        final(v)@.no_duplicates(),
        forall|y: u64| #[trigger] final(v)@.contains(y) <==> old(v)@.contains(y) || y == x,
{
    let mut i: usize = 0;
    while i < v.len()
        invariant
            0 <= i <= v@.len(),
            v@ == old(v)@,
            old(v)@.no_duplicates(),
            forall|k: int| 0 <= k < i ==> v@[k] != x,
        decreases v@.len() - i,
    {
        if v[i] == x {
            return;
        }
        i = i + 1;
    }
    v.push(x);
    proof {
        let s = old(v)@;
        assert(v@ == s.push(x));
        assert(v@[s.len() as int] == x);
        assert forall|y: u64| #[trigger] v@.contains(y) <==> s.contains(y) || y == x by {
            if v@.contains(y) && y != x {
                let k = choose|k: int| 0 <= k < v@.len() && v@[k] == y;
                assert(k < s.len());
                assert(s[k] == y);
                assert(s.contains(y));
            }
            if s.contains(y) {
                let k = choose|k: int| 0 <= k < s.len() && s[k] == y;
                assert(v@[k] == y);
            }
        }
        assert forall|a: int, b: int| 0 <= a < v@.len() && 0 <= b < v@.len() && a != b implies v@[a]
            != v@[b] by {
            if a < s.len() && b < s.len() {
                assert(s[a] != s[b]);
            } else if a < s.len() {
                assert(s[a] != x);
            } else if b < s.len() {
                assert(s[b] != x);
            }
        }
    }
}

fn remove_member(v: &mut Vec<u64>, x: u64)
    requires
        old(v)@.no_duplicates(),
    ensures
        final(v)@ == without_member(old(v)@, x),
        final(v)@.no_duplicates(),
        forall|y: u64| #[trigger] final(v)@.contains(y) <==> old(v)@.contains(y) && y != x,
{
    let mut i: usize = 0;
    while i < v.len()
        invariant
            0 <= i <= v@.len(),
            v@ == old(v)@,
            old(v)@.no_duplicates(),
            forall|k: int| 0 <= k < i ==> v@[k] != x,
        decreases v@.len() - i,
    {
        if v[i] == x {
            proof {
                old(v)@.index_of_first_ensures(x);
                let s = old(v)@;
                assert(s[i as int] == x);
                let r = s.remove(i as int);
                assert forall|a: int, b: int| 0 <= a < r.len() && 0 <= b < r.len() && a != b implies r[a]
                    != r[b] by {
                    let a2 = if a < i { a } else { a + 1 };
                    let b2 = if b < i { b } else { b + 1 };
                    assert(r[a] == s[a2] && r[b] == s[b2]);
                    assert(s[a2] != s[b2]);
                }
                assert forall|y: u64| #[trigger] r.contains(y) <==> s.contains(y) && y != x by {
                    if r.contains(y) {
                        let k = choose|k: int| 0 <= k < r.len() && r[k] == y;
                        let k2 = if k < i { k } else { k + 1 };
                        assert(s[k2] == y);
                        assert(k2 != i);
                        assert(s[k2] != s[i as int]);
                        assert(s.contains(y));
                    }
                    if s.contains(y) && y != x {
                        let k = choose|k: int| 0 <= k < s.len() && s[k] == y;
                        assert(k != i);
                        let k2 = if k < i { k } else { k - 1 };
                        assert(r[k2] == y);
                    }
                }
            }
            v.remove(i);
            return;
        }
        i = i + 1;
    }
    proof {
        old(v)@.index_of_first_ensures(x);
    }
}

/// `r` lists the actors that an exit of `p` took from `v` to `w`: `p`
/// first, then those stopped because their parent was gone (reason
/// `Killed`), each once; exactly the actors live in `v` and dead in `w`.
pub open spec fn killed_list(v: RuntimeView, w: RuntimeView, p: u64, r: Seq<u64>) -> bool {
    &&& r.len() > 0
    &&& r[0] == p
    &&& r.no_duplicates()
    &&& forall|x: u64| #![trigger r.contains(x)] (v.alive(x) && !w.alive(x)) <==> r.contains(x)
}

/// The notice that `p` exited for `reason`.
pub open spec fn exit_notice(p: u64, reason: ExitReason) -> SystemMessage {
    SystemMessage::Exit(ExitInfo { from: p, reason, metadata: None })
}

/// `a` with `n` copies of `m` appended to its system queue.
pub open spec fn with_notices(a: ActorView, n: nat, m: SystemMessage) -> ActorView {
    ActorView {
        mailbox: MailboxView { sys: a.mailbox.sys + Seq::new(n, |k: int| m), ..a.mailbox },
        ..a
    }
}

/// Number of exit notices from `p` in `s`.
pub open spec fn exits_from(s: Seq<SystemMessage>, p: u64) -> nat
    decreases s.len(),
{
    if s.len() == 0 {
        0
    } else {
        exits_from(s.drop_last(), p) + match s.last() {
            SystemMessage::Exit(info) => if info.from == p { 1nat } else { 0nat },
            _ => 0nat,
        }
    }
}

/// Number of live actors in `s`.
pub open spec fn alive_count(s: Seq<ActorView>) -> nat
    decreases s.len(),
{
    if s.len() == 0 {
        0
    } else {
        alive_count(s.drop_last()) + if s.last().alive { 1nat } else { 0nat }
    }
}

/// `b` is what `a` can become through exits: liveness may only be lost,
/// and the system queue only grows.
pub open spec fn evolves(a: ActorView, b: ActorView) -> bool {
    &&& b.alive ==> a.alive
    &&& b.parent == a.parent
    &&& b.links == a.links
    &&& b.watchers == a.watchers
    &&& b.observed == a.observed
    &&& b.mailbox.user == a.mailbox.user
    &&& b.mailbox.stash == a.mailbox.stash
    &&& b.mailbox.capacity == a.mailbox.capacity
    &&& a.mailbox.sys.len() <= b.mailbox.sys.len()
    &&& b.mailbox.sys.take(a.mailbox.sys.len() as int) == a.mailbox.sys
}

pub open spec fn fresh_actor(parent: Option<u64>, capacity: Option<usize>, observed: bool) -> ActorView {
    ActorView {
        mailbox: MailboxView::empty(capacity),
        alive: true,
        parent,
        links: Seq::empty(),
        watchers: Seq::empty(),
        observed: if observed { Some(Seq::empty()) } else { None },
    }
}

pub struct Runtime {
    actors: Vec<Actor>,
    names: NameRegistry,
}

impl View for Runtime {
    type V = RuntimeView;

    closed spec fn view(&self) -> RuntimeView {
        RuntimeView { actors: self.actors@.map_values(|a: Actor| a@), names: self.names@ }
    }
}

/// Changing an actor in what touches neither its liveness, its relations nor
/// whether its mailbox is closed keeps the table well formed.
proof fn lemma_wf_update(v: RuntimeView, p: u64, a: ActorView)
    requires
        v.well_formed(),
        v.has(p),
        a.alive == v.actor(p).alive,
        a.mailbox.closed == v.actor(p).mailbox.closed,
        a.parent == v.actor(p).parent,
        a.links.no_duplicates(),
        a.watchers.no_duplicates(),
        !a.links.contains(p),
        !a.watchers.contains(p),
    ensures
        (RuntimeView { actors: v.actors.update(p - 1, a), ..v }).well_formed(),
{
    let w = RuntimeView { actors: v.actors.update(p - 1, a), ..v };
    assert forall|q: u64| #[trigger] w.has(q) implies w.actor(q).alive == v.actor(q).alive
        && w.actor(q).parent == v.actor(q).parent by {}
    assert forall|q: u64| w.alive(q) implies (w.actor(q).parent matches Some(r) ==> w.alive(r)) by {
        assert(v.alive(q));
    }
}

/// Replacing the name table by one that binds only live actors keeps the
/// table well formed.
proof fn lemma_wf_names(v: RuntimeView, names: NameMap)
    requires
        v.well_formed(),
        forall|n: Seq<char>| #[trigger] names.contains_key(n) ==> v.alive(names[n]),
    ensures
        (RuntimeView { names, ..v }).well_formed(),
{
    let w = RuntimeView { names, ..v };
    assert forall|q: u64| #[trigger] w.has(q) implies w.actor(q) == v.actor(q) by {}
    assert forall|q: u64| w.alive(q) implies (w.actor(q).parent matches Some(r) ==> w.alive(r)) by {
        assert(v.alive(q));
    }
}

proof fn lemma_with_no_notices(a: ActorView, m: SystemMessage)
    ensures
        with_notices(a, 0, m) == a,
{
    assert(a.mailbox.sys + Seq::new(0, |k: int| m) =~= a.mailbox.sys);
}

proof fn lemma_with_notices_push(a: ActorView, n: nat, m: SystemMessage)
    ensures
        with_notices(a, n + 1, m) == (ActorView {
            mailbox: MailboxView {
                sys: with_notices(a, n, m).mailbox.sys.push(m),
                ..a.mailbox
            },
            ..a
        }),
{
    assert(a.mailbox.sys + Seq::new(n + 1, |k: int| m) =~= (a.mailbox.sys + Seq::new(
        n,
        |k: int| m,
    )).push(m));
}

proof fn lemma_occurrences_take(ts: Seq<u64>, k: int, q: u64)
    requires
        0 <= k < ts.len(),
    ensures
        occurrences(q, ts.take(k + 1)) == occurrences(q, ts.take(k)) + if ts[k] == q { 1nat } else { 0nat },
{
    assert(ts.take(k + 1).drop_last() =~= ts.take(k));
}

proof fn lemma_exits_from_notices(s: Seq<SystemMessage>, n: nat, q: u64, r: ExitReason, y: u64)
    ensures
        exits_from(s + Seq::new(n, |k: int| exit_notice(q, r)), y) == exits_from(s, y) + if q == y {
            n
        } else {
            0
        },
    decreases n,
{
    let t = s + Seq::new(n, |k: int| exit_notice(q, r));
    if n > 0 {
        assert(t.drop_last() =~= s + Seq::new((n - 1) as nat, |k: int| exit_notice(q, r)));
        lemma_exits_from_notices(s, (n - 1) as nat, q, r, y);
    } else {
        assert(t =~= s);
    }
}

proof fn lemma_alive_count_one_less(s1: Seq<ActorView>, s2: Seq<ActorView>, i: int)
    requires
        s1.len() == s2.len(),
        0 <= i < s1.len(),
        s1[i].alive,
        !s2[i].alive,
        forall|k: int| 0 <= k < s1.len() && k != i ==> #[trigger] s1[k].alive == s2[k].alive,
    ensures
        alive_count(s2) + 1 == alive_count(s1),
    decreases s1.len(),
{
    if i < s1.len() - 1 {
        lemma_alive_count_one_less(s1.drop_last(), s2.drop_last(), i);
    } else {
        lemma_alive_count_same(s1.drop_last(), s2.drop_last());
    }
}

proof fn lemma_alive_count_same(s1: Seq<ActorView>, s2: Seq<ActorView>)
    requires
        s1.len() == s2.len(),
        forall|k: int| 0 <= k < s1.len() ==> #[trigger] s1[k].alive == s2[k].alive,
    ensures
        alive_count(s2) == alive_count(s1),
    decreases s1.len(),
{
    if s1.len() > 0 {
        lemma_alive_count_same(s1.drop_last(), s2.drop_last());
    }
}

proof fn lemma_evolves_trans(a: ActorView, b: ActorView, c: ActorView)
    requires
        evolves(a, b),
        evolves(b, c),
    ensures
        evolves(a, c),
{
    assert(c.mailbox.sys.take(a.mailbox.sys.len() as int) =~= b.mailbox.sys.take(
        a.mailbox.sys.len() as int,
    ));
}

/// One death step: how each actor relates to what it was.
proof fn lemma_after_death(v: RuntimeView, p: u64, reason: ExitReason)
    requires
        v.table_ok(),
        v.alive(p),
    ensures
        ({
            let w = v.after_death(p, reason);
            &&& w.actors.len() == v.actors.len()
            &&& !w.alive(p)
            &&& alive_count(w.actors) + 1 == alive_count(v.actors)
            &&& forall|q: u64| #![trigger w.actor(q)] v.has(q) ==> {
                &&& evolves(v.actor(q), w.actor(q))
                &&& w.actor(q).alive == (v.alive(q) && q != p)
                &&& forall|y: u64| #[trigger] exits_from(w.actor(q).mailbox.sys, y) == exits_from(
                    v.actor(q).mailbox.sys,
                    y,
                ) + if y == p { v.exit_notices(p, q) } else { 0 }
            }
            &&& forall|n: Seq<char>| #[trigger] w.names.contains_key(n) ==> v.names.contains_key(n)
                && w.names[n] == v.names[n]
        }),
{
    let w = v.after_death(p, reason);
    assert forall|q: u64| #![trigger w.actor(q)] v.has(q) implies {
        &&& evolves(v.actor(q), w.actor(q))
        &&& w.actor(q).alive == (v.alive(q) && q != p)
        &&& forall|y: u64| #[trigger] exits_from(w.actor(q).mailbox.sys, y) == exits_from(
            v.actor(q).mailbox.sys,
            y,
        ) + if y == p { v.exit_notices(p, q) } else { 0 }
    } by {
        let a = v.actor(q);
        assert(w.actor(q) == w.actors[q - 1]);
        if q != p {
            let n: nat = if v.alive(q) { occurrences(q, v.notified(p)) } else { 0 };
            assert(w.actor(q).mailbox.sys.take(a.mailbox.sys.len() as int) =~= a.mailbox.sys);
            assert forall|y: u64| #[trigger] exits_from(w.actor(q).mailbox.sys, y) == exits_from(
                a.mailbox.sys,
                y,
            ) + if y == p { v.exit_notices(p, q) } else { 0 } by {
                lemma_exits_from_notices(a.mailbox.sys, n, p, reason, y);
            }
        } else {
            assert(w.actor(q).mailbox.sys.take(a.mailbox.sys.len() as int) =~= a.mailbox.sys);
        }
    }
    assert forall|k: int| 0 <= k < v.actors.len() && k != p - 1 implies #[trigger] v.actors[k].alive
        == w.actors[k].alive by {
        assert(w.actor((k + 1) as u64) == w.actors[k]);
    }
    lemma_alive_count_one_less(v.actors, w.actors, p - 1);
}

proof fn lemma_occurrences_concat(x: u64, s: Seq<u64>, t: Seq<u64>)
    ensures
        occurrences(x, s + t) == occurrences(x, s) + occurrences(x, t),
    decreases t.len(),
{
    if t.len() > 0 {
        assert((s + t).drop_last() =~= s + t.drop_last());
        lemma_occurrences_concat(x, s, t.drop_last());
    } else {
        assert(s + t =~= s);
    }
}

proof fn lemma_occurrences_distinct(x: u64, s: Seq<u64>)
    requires
        s.no_duplicates(),
    ensures
        occurrences(x, s) == if s.contains(x) { 1nat } else { 0nat },
    decreases s.len(),
{
    if s.len() > 0 {
        let d = s.drop_last();
        assert forall|i: int, j: int| 0 <= i < d.len() && 0 <= j < d.len() && i != j implies d[i] != d[j] by {
            assert(d[i] == s[i] && d[j] == s[j]);
        }
        lemma_occurrences_distinct(x, d);
        if d.contains(x) {
            let k = choose|k: int| 0 <= k < d.len() && d[k] == x;
            assert(s[k] == x);
            assert(s.last() != x);
        } else if s.last() == x {
            assert(s[s.len() - 1] == x);
        } else {
            if s.contains(x) {
                let k = choose|k: int| 0 <= k < s.len() && s[k] == x;
                assert(d[k] == x);
            }
        }
    }
}

/// Once `a` and `b` are linked (and neither monitors the other), the exit
/// of either gives the other exactly one exit notice from it.
pub proof fn lemma_link_symmetry(v: RuntimeView, a: u64, b: u64)
    requires
        v.well_formed(),
        a != b,
        v.alive(a),
        v.alive(b),
        !v.actor(a).watchers.contains(b),
        !v.actor(b).watchers.contains(a),
    ensures
        v.link_outcome(a, b).exit_notices(b, a) == 1,
        v.link_outcome(a, b).exit_notices(a, b) == 1,
{
    let w = v.link_outcome(a, b);
    assert(w.actor(a) == w.actors[a - 1]);
    assert(w.actor(b) == w.actors[b - 1]);
    assert(w.actor(a).watchers == v.actor(a).watchers);
    assert(w.actor(b).watchers == v.actor(b).watchers);
    assert(w.actor(a).links == with_member(v.actor(a).links, b));
    assert(w.actor(b).links == with_member(v.actor(b).links, a));
    lemma_with_member(v.actor(a).links, b);
    lemma_with_member(v.actor(b).links, a);
    lemma_occurrences_concat(a, w.actor(b).links, w.actor(b).watchers);
    lemma_occurrences_concat(b, w.actor(a).links, w.actor(a).watchers);
    lemma_occurrences_distinct(a, w.actor(b).links);
    lemma_occurrences_distinct(a, w.actor(b).watchers);
    lemma_occurrences_distinct(b, w.actor(a).links);
    lemma_occurrences_distinct(b, w.actor(a).watchers);
}

/// Once `a` monitors `b` (and they are not linked, nor does `b` monitor
/// `a`), the exit of `b` gives `a` exactly one exit notice, and the exit of
/// `a` gives `b` none.
pub proof fn lemma_monitor_asymmetry(v: RuntimeView, a: u64, b: u64)
    requires
        v.well_formed(),
        a != b,
        v.alive(a),
        v.alive(b),
        !v.actor(a).links.contains(b),
        !v.actor(b).links.contains(a),
        !v.actor(a).watchers.contains(b),
    ensures
        v.monitor_outcome(a, b).exit_notices(b, a) == 1,
        v.monitor_outcome(a, b).exit_notices(a, b) == 0,
{
    let w = v.monitor_outcome(a, b);
    assert(w.actor(a) == w.actors[a - 1]);
    assert(w.actor(b) == w.actors[b - 1]);
    assert(w.actor(b).watchers == with_member(v.actor(b).watchers, a));
    lemma_with_member(v.actor(b).watchers, a);
    lemma_occurrences_concat(a, w.actor(b).links, w.actor(b).watchers);
    lemma_occurrences_concat(b, w.actor(a).links, w.actor(a).watchers);
    lemma_occurrences_distinct(a, w.actor(b).links);
    lemma_occurrences_distinct(a, w.actor(b).watchers);
    lemma_occurrences_distinct(b, w.actor(a).links);
    lemma_occurrences_distinct(b, w.actor(a).watchers);
}

/// After `link(a, b)` (neither monitoring the other), whichever of them
/// exits (`dead`) with any reason gives the other (`survivor`) exactly one
/// exit notice from it, carrying that reason, right after the survivor's
/// earlier system messages.
pub proof fn lemma_link_exit(
    v: RuntimeView,
    a: u64,
    b: u64,
    dead: u64,
    survivor: u64,
    reason: ExitReason,
    w: RuntimeView,
)
    requires
        v.well_formed(),
        a != b,
        v.alive(a),
        v.alive(b),
        !v.actor(a).watchers.contains(b),
        !v.actor(b).watchers.contains(a),
        (dead == a && survivor == b) || (dead == b && survivor == a),
        v.link_outcome(a, b).exited_to(dead, reason, w),
    ensures
        exits_from(w.actor(survivor).mailbox.sys, dead) == exits_from(v.actor(survivor).mailbox.sys, dead)
            + 1,
        w.actor(survivor).mailbox.sys.take((v.actor(survivor).mailbox.sys.len() + 1) as int) == v.actor(
            survivor,
        ).mailbox.sys.push(exit_notice(dead, reason)),
{
    let l = v.link_outcome(a, b);
    lemma_link_symmetry(v, a, b);
    assert(l.actor(survivor) == l.actors[survivor - 1]);
    assert(l.actor(survivor).mailbox == v.actor(survivor).mailbox);
    assert(l.alive(survivor));
    assert(v.actor(survivor).mailbox.sys + Seq::new(1, |k: int| exit_notice(dead, reason))
        =~= v.actor(survivor).mailbox.sys.push(exit_notice(dead, reason)));
}

/// After `monitor(a, b)` (no link between them, `b` not monitoring `a`):
/// when `b` exits, `a` gets exactly one exit notice from it, right after
/// its earlier system messages; when `a` exits, `b` gets none and its
/// system queue is unchanged up to what later exits add.
pub proof fn lemma_monitor_exit(v: RuntimeView, a: u64, b: u64, reason: ExitReason, w: RuntimeView)
    requires
        v.well_formed(),
        a != b,
        v.alive(a),
        v.alive(b),
        !v.actor(a).links.contains(b),
        !v.actor(b).links.contains(a),
        !v.actor(a).watchers.contains(b),
    ensures
        v.monitor_outcome(a, b).exited_to(b, reason, w) ==> exits_from(w.actor(a).mailbox.sys, b)
            == exits_from(v.actor(a).mailbox.sys, b) + 1 && w.actor(a).mailbox.sys.take(
            (v.actor(a).mailbox.sys.len() + 1) as int,
        ) == v.actor(a).mailbox.sys.push(exit_notice(b, reason)),
        v.monitor_outcome(a, b).exited_to(a, reason, w) ==> exits_from(w.actor(b).mailbox.sys, a)
            == exits_from(v.actor(b).mailbox.sys, a) && w.actor(b).mailbox.sys.take(
            v.actor(b).mailbox.sys.len() as int,
        ) == v.actor(b).mailbox.sys,
{
    let m = v.monitor_outcome(a, b);
    lemma_monitor_asymmetry(v, a, b);
    assert(m.actor(a) == m.actors[a - 1]);
    assert(m.actor(b) == m.actors[b - 1]);
    assert(m.actor(a).mailbox == v.actor(a).mailbox);
    assert(m.actor(b).mailbox == v.actor(b).mailbox);
    assert(v.actor(a).mailbox.sys + Seq::new(1, |k: int| exit_notice(b, reason))
        =~= v.actor(a).mailbox.sys.push(exit_notice(b, reason)));
    assert(v.actor(b).mailbox.sys + Seq::new(0, |k: int| exit_notice(a, reason))
        =~= v.actor(b).mailbox.sys);
}

/// In a well-formed table, an actor whose parent is not alive is not alive
/// either: children never outlive the parent they were spawned under.
pub proof fn lemma_children_stop_with_parent(v: RuntimeView, parent: u64, child: u64)
    requires
        v.well_formed(),
        v.has(child),
        v.actor(child).parent == Some(parent),
        !v.alive(parent),
    ensures
        !v.alive(child),
{
}

proof fn lemma_with_member(s: Seq<u64>, x: u64)
    requires
        s.no_duplicates(),
    ensures
        with_member(s, x).no_duplicates(),
        with_member(s, x).contains(x),
        forall|y: u64| #[trigger] with_member(s, x).contains(y) <==> s.contains(y) || y == x,
{
    if !s.contains(x) {
        let t = s.push(x);
        assert(t[s.len() as int] == x);
        assert forall|i: int, j: int| 0 <= i < t.len() && 0 <= j < t.len() && i != j implies t[i] != t[j] by {
            if i < s.len() && j < s.len() {
                assert(s[i] != s[j]);
            } else if i < s.len() {
                assert(s[i] != x);
            } else if j < s.len() {
                assert(s[j] != x);
            }
        }
        assert forall|y: u64| #[trigger] t.contains(y) <==> s.contains(y) || y == x by {
            if t.contains(y) && y != x {
                let k = choose|k: int| 0 <= k < t.len() && t[k] == y;
                assert(s[k] == y);
            }
            if s.contains(y) {
                let k = choose|k: int| 0 <= k < s.len() && s[k] == y;
                assert(t[k] == y);
            }
        }
    }
}

impl Runtime {
    pub closed spec fn table_wf(&self) -> bool {
        &&& self@.table_ok()
        &&& forall|i: int| 0 <= i < self.actors@.len() ==> (#[trigger] self.actors@[i]).mailbox.wf()
    }

    /// `pid` exits for `reason`: it is marked dead, its name is dropped,
    /// and every live actor it is linked to or watched by gets an exit
    /// notice. Its children are left to the caller.
    fn die(&mut self, pid: u64, reason: &ExitReason)
        requires
            old(self).table_wf(),
            old(self)@.alive(pid),
        ensures
            final(self).table_wf(),
            final(self)@ == old(self)@.after_death(pid, *reason),
    {
        let ghost v0 = self@;
        let i = match self.slot(pid) {
            Some(i) => i,
            None => { return; },
        };
        let mut targets = self.actors[i].links.clone();
        let watchers = self.actors[i].watchers.clone();
        let mut w: usize = 0;
        while w < watchers.len()
            invariant
                0 <= w <= watchers@.len(),
                targets@ == v0.actor(pid).links + watchers@.take(w as int),
            decreases watchers@.len() - w,
        {
            targets.push(watchers[w]);
            w = w + 1;
            proof {
                assert(targets@ =~= v0.actor(pid).links + watchers@.take(w as int));
            }
        }
        proof {
            assert(v0.actor(pid).links =~= self.actors@[i as int].links@);
            assert(watchers@ =~= v0.actor(pid).watchers);
            assert(targets@ =~= v0.notified(pid));
        }
        self.actors[i].alive = false;
        self.actors[i].mailbox.close();
        self.names.unregister_pid(pid);
        proof {
            let goal = v0.notices_given(pid, *reason, targets@.take(0));
            assert forall|k: int| 0 <= k < self@.actors.len() implies #[trigger] self@.actors[k]
                == goal.actors[k] by {
                let q = (k + 1) as u64;
                assert(v0.actor(q) == v0.actors[k]);
                if q != pid {
                    lemma_with_no_notices(v0.actor(q), exit_notice(pid, *reason));
                }
            }
            assert(self@.actors =~= goal.actors);
        }
        let mut k: usize = 0;
        while k < targets.len()
            invariant
                0 <= k <= targets@.len(),
                v0.table_ok(),
                v0.alive(pid),
                i == pid - 1,
                targets@ == v0.notified(pid),
                self.actors@.len() == v0.actors.len(),
                self@ == v0.notices_given(pid, *reason, targets@.take(k as int)),
                forall|j: int| 0 <= j < self.actors@.len() ==> (#[trigger] self.actors@[j]).mailbox.wf(),
            decreases targets@.len() - k,
        {
            let t = targets[k];
            let ghost before = self@;
            match self.slot(t) {
                Some(j) => {
                    if self.actors[j].alive {
                        let notice = SystemMessage::Exit(
                            ExitInfo { from: pid, reason: copy_reason(reason), metadata: None },
                        );
                        let _ = self.actors[j].mailbox.send_system(notice);
                    }
                },
                None => {},
            }
            proof {
                let goal = v0.notices_given(pid, *reason, targets@.take(k + 1));
                assert forall|x: int| 0 <= x < self@.actors.len() implies #[trigger] self@.actors[x]
                    == goal.actors[x] by {
                    let q = (x + 1) as u64;
                    lemma_occurrences_take(targets@, k as int, q);
                    assert(before.actors[x] == v0.notices_given(pid, *reason, targets@.take(k as int)).actors[x]);
                    if q != pid && v0.alive(q) {
                        lemma_with_notices_push(
                            v0.actor(q),
                            occurrences(q, targets@.take(k as int)),
                            exit_notice(pid, *reason),
                        );
                    }
                }
                assert(self@.actors =~= goal.actors);
            }
            k = k + 1;
        }
        proof {
            assert(targets@.take(k as int) =~= targets@);
            let v = self@;
            assert forall|q: u64| #[trigger] v.has(q) implies v.actor(q).alive == (v0.alive(q) && q
                != pid) && v.actor(q).parent == v0.actor(q).parent && v.actor(q).links
                == v0.actor(q).links && v.actor(q).watchers == v0.actor(q).watchers
                && v.actor(q).mailbox.closed == !v.actor(q).alive by {
                assert(v.actor(q) == v.actors[q - 1]);
                assert(v0.actor(q) == v0.actors[q - 1]);
            }
            assert forall|n: Seq<char>| #[trigger] v.names.contains_key(n) implies v.alive(v.names[n]) by {
                assert(v0.names.contains_key(n));
            }
        }
    }

    /// A live actor whose parent is gone, if there is one.
    fn find_orphan(&self) -> (r: Option<u64>)
        requires
            self.table_wf(),
        ensures
            r matches Some(q) ==> self@.alive(q) && (self@.actor(q).parent matches Some(p)
                && !self@.alive(p)),
            r is None ==> self@.orphan_free(),
    {
        let mut k: usize = 0;
        while k < self.actors.len()
            invariant
                0 <= k <= self.actors@.len(),
                self@.actors.len() == self.actors@.len(),
                forall|q: u64|
                    #![trigger self@.actor(q)]
                    1 <= q <= k && self@.alive(q) ==> (self@.actor(q).parent matches Some(r)
                        ==> self@.alive(r)),
            decreases self.actors@.len() - k,
        {
            let ghost q = (k + 1) as u64;
            proof {
                assert(self@.actor(q) == self.actors@[k as int]@);
            }
            if self.actors[k].alive {
                match self.actors[k].parent {
                    Some(p) => {
                        if !self.is_alive(p) {
                            return Some((k + 1) as u64);
                        }
                    },
                    None => {},
                }
            }
            k = k + 1;
        }
        None
    }

    /// `pid` exits for `reason`. Every live actor linked to it or watching
    /// it gets one exit notice per link or monitor; then every actor whose
    /// parent is gone is stopped in turn (reason `Killed`), with the same
    /// propagation, until no live actor has a dead parent. Nothing happens
    /// if `pid` is not alive.
    pub fn exit(&mut self, pid: u64, reason: ExitReason) -> (r: Vec<u64>)
        requires
            old(self).wf(),
        ensures
            final(self).wf(),
            final(self)@.well_formed(),
            !old(self)@.alive(pid) ==> final(self)@ == old(self)@ && r@.len() == 0,
            old(self)@.alive(pid) ==> old(self)@.exited_to(pid, reason, final(self)@),
            old(self)@.alive(pid) ==> killed_list(old(self)@, final(self)@, pid, r@),
    {
        if !self.is_alive(pid) {
            return Vec::new();
        }
        let ghost v0 = self@;
        self.die(pid, &reason);
        let ghost v1 = self@;
        let mut killed: Vec<u64> = Vec::new();
        killed.push(pid);
        proof {
            lemma_after_death(v0, pid, reason);
            assert(killed@[0] == pid);
            assert forall|x: u64| #![trigger killed@.contains(x)] #![trigger v1.actor(x)] (v0.alive(x)
                && !v1.alive(x)) <==> killed@.contains(x) by {
                if killed@.contains(x) {
                    let k = choose|k: int| 0 <= k < killed@.len() && killed@[k] == x;
                    assert(k == 0);
                }
            }
            assert forall|q: u64| #![trigger v1.actor(q)] v0.has(q) && q != pid implies v1.actor(q)
                == with_notices(v0.actor(q), v0.exit_notices(pid, q), exit_notice(pid, reason)) by {
                assert(v1.actor(q) == v1.actors[q - 1]);
            }
            assert forall|q: u64| #![trigger v1.actor(q)] v0.has(q) implies evolves(v1.actor(q), v1.actor(q)) by {
                let t = v1.actor(q).mailbox.sys;
                assert(t.take(t.len() as int) =~= t);
            }
        }
        loop
            invariant
                killed@.len() > 0,
                killed@[0] == pid,
                killed@.no_duplicates(),
                forall|x: u64|
                    #![trigger killed@.contains(x)]
                    #![trigger self@.actor(x)]
                    (v0.alive(x) && !self@.alive(x)) <==> killed@.contains(x),
                self.table_wf(),
                v1.actors.len() == v0.actors.len(),
                forall|q: u64| #![trigger v1.actor(q)] v0.has(q) && q != pid ==> v1.actor(q) == with_notices(
                    v0.actor(q),
                    v0.exit_notices(pid, q),
                    exit_notice(pid, reason),
                ),
                forall|q: u64| #![trigger self@.actor(q)] v0.has(q) ==> evolves(v1.actor(q), self@.actor(q)),
                v0.table_ok(),
                v0.alive(pid),
                !self@.alive(pid),
                self@.actors.len() == v0.actors.len(),
                forall|q: u64| #![trigger self@.actor(q)] v0.has(q) ==> evolves(v0.actor(q), self@.actor(q)),
                forall|q: u64|
                    #![trigger self@.actor(q)]
                    v0.alive(q) && q != pid ==> exits_from(self@.actor(q).mailbox.sys, pid) == exits_from(
                        v0.actor(q).mailbox.sys,
                        pid,
                    ) + v0.exit_notices(pid, q),
                forall|q: u64|
                    #![trigger self@.actor(q)]
                    v0.alive(q) && !self@.alive(q) ==> q == pid || (self@.actor(q).parent matches Some(
                        r,
                    ) && !self@.alive(r)),
                forall|n: Seq<char>| #[trigger] self@.names.contains_key(n) ==> v0.names.contains_key(n)
                    && self@.names[n] == v0.names[n],
            ensures
                killed@.len() > 0,
                killed@[0] == pid,
                killed@.no_duplicates(),
                forall|x: u64|
                    #![trigger killed@.contains(x)]
                    #![trigger self@.actor(x)]
                    (v0.alive(x) && !self@.alive(x)) <==> killed@.contains(x),
                self.table_wf(),
                self@.orphan_free(),
                forall|q: u64| #![trigger v1.actor(q)] v0.has(q) && q != pid ==> v1.actor(q) == with_notices(
                    v0.actor(q),
                    v0.exit_notices(pid, q),
                    exit_notice(pid, reason),
                ),
                forall|q: u64| #![trigger self@.actor(q)] v0.has(q) ==> evolves(v1.actor(q), self@.actor(q)),
                !self@.alive(pid),
                self@.actors.len() == v0.actors.len(),
                forall|q: u64| #![trigger self@.actor(q)] v0.has(q) ==> evolves(v0.actor(q), self@.actor(q)),
                forall|q: u64|
                    #![trigger self@.actor(q)]
                    v0.alive(q) && q != pid ==> exits_from(self@.actor(q).mailbox.sys, pid) == exits_from(
                        v0.actor(q).mailbox.sys,
                        pid,
                    ) + v0.exit_notices(pid, q),
                forall|q: u64|
                    #![trigger self@.actor(q)]
                    v0.alive(q) && !self@.alive(q) ==> q == pid || (self@.actor(q).parent matches Some(
                        r,
                    ) && !self@.alive(r)),
                forall|n: Seq<char>| #[trigger] self@.names.contains_key(n) ==> v0.names.contains_key(n)
                    && self@.names[n] == v0.names[n],
            decreases alive_count(self@.actors),
        {
            match self.find_orphan() {
                None => { break; },
                Some(q) => {
                    let ghost before = self@;
                    let ghost k0 = killed@;
                    self.die(q, &ExitReason::Killed);
                    killed.push(q);
                    proof {
                        lemma_after_death(before, q, ExitReason::Killed);
                        let now = self@;
                        assert(!k0.contains(q));
                        assert(killed@ == k0.push(q));
                        assert(killed@[0] == pid);
                        assert forall|a: int, b: int|
                            0 <= a < killed@.len() && 0 <= b < killed@.len() && a != b implies killed@[a]
                            != killed@[b] by {
                            if a < k0.len() && b < k0.len() {
                                assert(k0[a] != k0[b]);
                            } else if a < k0.len() {
                                assert(k0.contains(k0[a]));
                            } else if b < k0.len() {
                                assert(k0.contains(k0[b]));
                            }
                        }
                        assert forall|x: u64| #![trigger killed@.contains(x)] #![trigger now.actor(x)] (v0.alive(x)
                            && !now.alive(x)) <==> killed@.contains(x) by {
                            if killed@.contains(x) && x != q {
                                let k = choose|k: int| 0 <= k < killed@.len() && killed@[k] == x;
                                assert(k0[k] == x);
                                assert(k0.contains(x));
                            }
                            if k0.contains(x) {
                                let k = choose|k: int| 0 <= k < k0.len() && k0[k] == x;
                                assert(killed@[k] == x);
                            }
                            if x == q {
                                assert(killed@[k0.len() as int] == q);
                            }
                            if v0.has(x) {
                                assert(before.has(x));
                            }
                        }
                        assert forall|x: u64| #![trigger now.actor(x)] v0.has(x) implies evolves(
                            v0.actor(x),
                            now.actor(x),
                        ) && evolves(v1.actor(x), now.actor(x)) by {
                            assert(before.has(x));
                            lemma_evolves_trans(v0.actor(x), before.actor(x), now.actor(x));
                            lemma_evolves_trans(v1.actor(x), before.actor(x), now.actor(x));
                        }
                        assert forall|x: u64| #![trigger now.actor(x)] v0.alive(x) && !now.alive(x)
                            implies x == pid || (now.actor(x).parent matches Some(r) && !now.alive(r)) by {
                            assert(before.has(x));
                            if before.alive(x) {
                                assert(x == q);
                            } else if x != pid {
                                let r = before.actor(x).parent->Some_0;
                                assert(before.has(r));
                                assert(now.actor(r).alive ==> before.actor(r).alive);
                            }
                        }
                        assert forall|x: u64| #![trigger now.actor(x)] v0.alive(x) && x != pid implies exits_from(
                            now.actor(x).mailbox.sys,
                            pid,
                        ) == exits_from(v0.actor(x).mailbox.sys, pid) + v0.exit_notices(pid, x) by {
                            assert(before.has(x));
                            assert(exits_from(before.actor(x).mailbox.sys, pid) == exits_from(
                                v0.actor(x).mailbox.sys,
                                pid,
                            ) + v0.exit_notices(pid, x));
                        }
                    }
                },
            }
        }
        proof {
            let w = self@;
            assert forall|q: u64| #![trigger w.actor(q)] v0.has(q) && q != pid implies w.actor(q).mailbox.sys.take(
                (v0.actor(q).mailbox.sys.len() + v0.exit_notices(pid, q)) as int,
            ) == v0.actor(q).mailbox.sys + Seq::new(
                v0.exit_notices(pid, q),
                |k: int| exit_notice(pid, reason),
            ) by {
                assert(evolves(v1.actor(q), w.actor(q)));
            }
        }
        killed
    }

    /// The next message for a live actor (see `MailboxView::recv_step`).
    pub fn try_recv(&mut self, pid: u64) -> (r: Option<Message>)
        requires
            old(self).wf(),
        ensures
            final(self).wf(),
            !old(self)@.alive(pid) ==> r is None && final(self)@ == old(self)@,
            old(self)@.alive(pid) ==> ({
                let (m, mb) = old(self)@.actor(pid).mailbox.recv_step();
                r == m && final(self)@ == old(self)@.with_mailbox(pid, mb)
            }),
    {
        let i = match self.slot(pid) {
            Some(i) => i,
            None => { return None; },
        };
        if !self.actors[i].alive {
            return None;
        }
        let ghost v0 = self@;
        let r = self.actors[i].mailbox.try_recv();
        proof {
            self.lemma_after_actor_update(v0, pid, i);
            assert(self@.actors =~= v0.with_mailbox(pid, self.actors@[i as int].mailbox@).actors);
        }
        r
    }

    /// Selective receive on a live actor's mailbox (see
    /// `Mailbox::selective_recv`).
    pub fn selective_recv<F: Fn(&Message) -> bool>(&mut self, pid: u64, pred: F) -> (r: Option<Message>)
        requires
            old(self).wf(),
            forall|m: &Message| #[trigger] pred.requires((m,)),
        ensures
            final(self).wf(),
            !old(self)@.alive(pid) ==> r is None && final(self)@ == old(self)@,
            old(self)@.alive(pid) ==> exists|i: int|
                scan_result(pred, old(self)@.actor(pid).mailbox.candidates(), i, r) && final(self)@
                    == old(self)@.with_mailbox(pid, old(self)@.actor(pid).mailbox.selective_outcome(i)),
    {
        let i = match self.slot(pid) {
            Some(i) => i,
            None => { return None; },
        };
        if !self.actors[i].alive {
            return None;
        }
        let ghost v0 = self@;
        let r = self.actors[i].mailbox.selective_recv(pred);
        proof {
            self.lemma_after_actor_update(v0, pid, i);
            assert(self@.actors =~= v0.with_mailbox(pid, self.actors@[i as int].mailbox@).actors);
        }
        r
    }

    /// Selective receive over the channels of a live actor's mailbox alone
    /// (see `Mailbox::selective_recv_arrivals`).
    pub fn selective_recv_arrivals<F: Fn(&Message) -> bool>(&mut self, pid: u64, pred: F) -> (r: Option<
        Message,
    >)
        requires
            old(self).wf(),
            forall|m: &Message| #[trigger] pred.requires((m,)),
        ensures
            final(self).wf(),
            !old(self)@.alive(pid) ==> r is None && final(self)@ == old(self)@,
            old(self)@.alive(pid) ==> ({
                let mb = old(self)@.actor(pid).mailbox;
                exists|i: int|
                    scan_result(pred, crate::mailbox::sys_msgs(mb.sys) + crate::mailbox::user_msgs(mb.user), i, r)
                        && final(self)@ == old(self)@.with_mailbox(pid, mb.arrivals_outcome(i))
            }),
    {
        let i = match self.slot(pid) {
            Some(i) => i,
            None => { return None; },
        };
        if !self.actors[i].alive {
            return None;
        }
        let ghost v0 = self@;
        let r = self.actors[i].mailbox.selective_recv_arrivals(pred);
        proof {
            self.lemma_after_actor_update(v0, pid, i);
            assert(self@.actors =~= v0.with_mailbox(pid, self.actors@[i as int].mailbox@).actors);
        }
        r
    }

    /// The step of an observed actor: take its next message, if any, and
    /// append it to the messages it has received. Returns whether a message
    /// was taken.
    pub fn observe_next(&mut self, pid: u64) -> (r: bool)
        requires
            old(self).wf(),
        ensures
            final(self).wf(),
            !(old(self)@.alive(pid) && old(self)@.actor(pid).observed is Some) ==> !r && final(self)@
                == old(self)@,
            old(self)@.alive(pid) && old(self)@.actor(pid).observed is Some ==> ({
                let a = old(self)@.actor(pid);
                let (m, mb) = a.mailbox.recv_step();
                &&& r == m is Some
                &&& m is None ==> final(self)@ == old(self)@
                &&& m matches Some(msg) ==> final(self)@ == old(self)@.with_mailbox(pid, mb).with_observed(
                    pid,
                    a.observed->Some_0.push(msg),
                )
            }),
    {
        let i = match self.slot(pid) {
            Some(i) => i,
            None => { return false; },
        };
        if !self.actors[i].alive || self.actors[i].observed.is_none() {
            return false;
        }
        let ghost v0 = self@;
        let m = self.actors[i].mailbox.try_recv();
        match m {
            Some(msg) => {
                if let Some(v) = &mut self.actors[i].observed {
                    v.push(msg);
                }
                proof {
                    self.lemma_after_actor_update(v0, pid, i);
                    assert(self@.actors =~= v0.with_mailbox(pid, self.actors@[i as int].mailbox@).with_observed(
                        pid,
                        v0.actor(pid).observed->Some_0.push(m->Some_0),
                    ).actors);
                }
                true
            },
            None => {
                proof {
                    self.lemma_after_actor_update(v0, pid, i);
                    assert(self@.actors =~= v0.actors);
                }
                false
            },
        }
    }

    /// A copy of the messages an observed actor has received, oldest first.
    pub fn get_observed_messages(&self, pid: u64) -> (r: Option<Vec<Message>>)
        requires
            self.wf(),
        ensures
            !(self@.has(pid) && self@.actor(pid).observed is Some) ==> r is None,
            self@.has(pid) && self@.actor(pid).observed is Some ==> (r matches Some(v) && v@.len()
                == self@.actor(pid).observed->Some_0.len() && forall|k: int|
                0 <= k < v@.len() ==> same_message(#[trigger] v@[k], self@.actor(pid).observed->Some_0[k])),
    {
        let i = match self.slot(pid) {
            Some(i) => i,
            None => { return None; },
        };
        match &self.actors[i].observed {
            Some(obs) => {
                let mut out: Vec<Message> = Vec::new();
                let mut k: usize = 0;
                while k < obs.len()
                    invariant
                        0 <= k <= obs@.len(),
                        out@.len() == k,
                        forall|x: int| 0 <= x < k ==> same_message(#[trigger] out@[x], obs@[x]),
                    decreases obs@.len() - k,
                {
                    out.push(copy_message(&obs[k]));
                    k = k + 1;
                }
                Some(out)
            },
            None => None,
        }
    }

    /// Remove and return the first message an observed actor received that
    /// `pred` accepts; `pred` is asked once per message, oldest first.
    pub fn take_observed_message_matching<F: Fn(&Message) -> bool>(&mut self, pid: u64, pred: F) -> (r:
        Option<Message>)
        requires
            old(self).wf(),
            forall|m: &Message| #[trigger] pred.requires((m,)),
        ensures
            final(self).wf(),
            !(old(self)@.has(pid) && old(self)@.actor(pid).observed is Some) ==> r is None
                && final(self)@ == old(self)@,
            old(self)@.has(pid) && old(self)@.actor(pid).observed is Some ==> ({
                let obs = old(self)@.actor(pid).observed->Some_0;
                exists|i: int|
                    scan_result(pred, obs, i, r) && final(self)@ == (if i < obs.len() {
                        old(self)@.with_observed(pid, obs.remove(i))
                    } else {
                        old(self)@
                    })
            }),
    {
        let i = match self.slot(pid) {
            Some(i) => i,
            None => { return None; },
        };
        if self.actors[i].observed.is_none() {
            return None;
        }
        let ghost v0 = self@;
        let ghost obs0 = v0.actor(pid).observed->Some_0;
        let mut r: Option<Message> = None;
        if let Some(v) = &mut self.actors[i].observed {
            let mut k: usize = 0;
            while k < v.len()
                invariant_except_break
                    v@ == obs0,
                    r is None,
                invariant
                    0 <= k <= obs0.len(),
                    forall|m: &Message| #[trigger] pred.requires((m,)),
                    crate::mailbox::rejected_before(pred, obs0, k as int),
                ensures
                    scan_result(pred, obs0, k as int, r),
                    k < obs0.len() ==> v@ == obs0.remove(k as int),
                    k == obs0.len() ==> v@ == obs0,
                decreases obs0.len() - k,
            {
                if pred(&v[k]) {
                    r = Some(v.remove(k));
                    break;
                }
                k = k + 1;
            }
        }
        proof {
            self.lemma_after_actor_update(v0, pid, i);
            let k = choose|k: int| scan_result(pred, obs0, k, r) && (k < obs0.len() ==> self.actors@[i as int]@.observed == Some(obs0.remove(k))) && (k == obs0.len() ==> self.actors@[i as int]@.observed == Some(obs0));
            if k < obs0.len() {
                assert(self@.actors =~= v0.with_observed(pid, obs0.remove(k)).actors);
            } else {
                assert(self@.actors =~= v0.actors);
            }
        }
        r
    }

    /// Stop a live actor: it exits with reason `Killed` (see `exit`).
    pub fn stop(&mut self, pid: u64) -> (r: Vec<u64>)
        requires
            old(self).wf(),
        ensures
            final(self).wf(),
            final(self)@.well_formed(),
            !old(self)@.alive(pid) ==> final(self)@ == old(self)@ && r@.len() == 0,
            old(self)@.alive(pid) ==> old(self)@.exited_to(pid, ExitReason::Killed, final(self)@),
            old(self)@.alive(pid) ==> killed_list(old(self)@, final(self)@, pid, r@),
    {
        self.exit(pid, ExitReason::Killed)
    }

    /// A well-formed runtime has a well-formed table.
    pub proof fn lemma_wf_view(&self)
        requires
            self.wf(),
        ensures
            self@.well_formed(),
    {
    }

    pub closed spec fn wf(&self) -> bool {
        &&& self@.well_formed()
        &&& forall|i: int| 0 <= i < self.actors@.len() ==> (#[trigger] self.actors@[i]).mailbox.wf()
    }

    pub fn new() -> (r: Runtime)
        ensures
            r.wf(),
            r@.actors.len() == 0,
            r@.names == NameMap::empty(),
    {
        let r = Runtime { actors: Vec::new(), names: NameRegistry::new() };
        proof {
            assert(r@.actors =~= Seq::<ActorView>::empty());
        }
        r
    }

    fn spawn_actor(&mut self, parent: Option<u64>, capacity: Option<usize>, observed: bool) -> (r: u64)
        requires
            old(self).wf(),
            old(self)@.actors.len() + 1 < u64::MAX,
            capacity matches Some(c) ==> c > 0,
            parent matches Some(p) ==> old(self)@.alive(p),
        ensures
            final(self).wf(),
            r == old(self)@.actors.len() + 1,
            final(self)@ == (RuntimeView {
                actors: old(self)@.actors.push(fresh_actor(parent, capacity, observed)),
                ..old(self)@
            }),
    {
        let mailbox = match capacity {
            Some(c) => bounded_channel(c),
            None => channel(),
        };
        let a = Actor {
            mailbox,
            alive: true,
            parent,
            links: Vec::new(),
            watchers: Vec::new(),
            observed: if observed { Some(Vec::new()) } else { None },
        };
        proof {
            assert(a@ =~= fresh_actor(parent, capacity, observed));
        }
        self.actors.push(a);
        let pid = self.actors.len() as u64;
        proof {
            assert(self@.actors =~= old(self)@.actors.push(fresh_actor(parent, capacity, observed)));
            let v = self@;
            assert forall|p: u64| v.has(p) implies #[trigger] v.actor(p) == if p == pid {
                fresh_actor(parent, capacity, observed)
            } else {
                old(self)@.actor(p)
            } by {}
        }
        pid
    }

    /// Spawn an actor with an unbounded mailbox.
    pub fn spawn(&mut self) -> (r: u64)
        requires
            old(self).wf(),
            old(self)@.actors.len() + 1 < u64::MAX,
        ensures
            final(self).wf(),
            r == old(self)@.actors.len() + 1,
            final(self)@ == (RuntimeView {
                actors: old(self)@.actors.push(fresh_actor(None, None, false)),
                ..old(self)@
            }),
    {
        self.spawn_actor(None, None, false)
    }

    /// Spawn an actor whose user queue holds at most `capacity` messages.
    pub fn spawn_bounded(&mut self, capacity: usize) -> (r: u64)
        requires
            old(self).wf(),
            old(self)@.actors.len() + 1 < u64::MAX,
            capacity > 0,
        ensures
            final(self).wf(),
            r == old(self)@.actors.len() + 1,
            final(self)@ == (RuntimeView {
                actors: old(self)@.actors.push(fresh_actor(None, Some(capacity), false)),
                ..old(self)@
            }),
    {
        self.spawn_actor(None, Some(capacity), false)
    }

    /// Spawn an actor that keeps every message it receives.
    pub fn spawn_observed(&mut self) -> (r: u64)
        requires
            old(self).wf(),
            old(self)@.actors.len() + 1 < u64::MAX,
        ensures
            final(self).wf(),
            r == old(self)@.actors.len() + 1,
            final(self)@ == (RuntimeView {
                actors: old(self)@.actors.push(fresh_actor(None, None, true)),
                ..old(self)@
            }),
    {
        self.spawn_actor(None, None, true)
    }

    /// Spawn an actor that is stopped when `parent` exits; with a parent
    /// that is not alive there is nothing to tie it to, and `None` comes back.
    pub fn spawn_child(&mut self, parent: u64) -> (r: Option<u64>)
        requires
            old(self).wf(),
            old(self)@.actors.len() + 1 < u64::MAX,
        ensures
            final(self).wf(),
            !old(self)@.alive(parent) ==> r is None && final(self)@ == old(self)@,
            old(self)@.alive(parent) ==> r == Some((old(self)@.actors.len() + 1) as u64)
                && final(self)@ == (RuntimeView {
                actors: old(self)@.actors.push(fresh_actor(Some(parent), None, false)),
                ..old(self)@
            }),
    {
        if !self.is_alive(parent) {
            return None;
        }
        Some(self.spawn_actor(Some(parent), None, false))
    }

    /// Position of `pid` in the table.
    fn slot(&self, pid: u64) -> (r: Option<usize>)
        ensures
            match r {
                Some(i) => self@.has(pid) && i == pid - 1 && i < self.actors@.len()
                    && self@.actor(pid) == self.actors@[i as int]@,
                None => !self@.has(pid),
            },
    {
        let n = self.actors.len();
        if pid == 0 || pid - 1 >= n as u64 {
            return None;
        }
        let i = (pid - 1) as usize;
        Some(i)
    }

    /// Number of PIDs handed out so far; the next spawn gets this plus one.
    pub fn actor_count(&self) -> (r: usize)
        ensures
            r == self@.actors.len(),
    {
        self.actors.len()
    }

    pub fn is_alive(&self, pid: u64) -> (r: bool)
        ensures
            r == self@.alive(pid),
    {
        match self.slot(pid) {
            Some(i) => self.actors[i].alive,
            None => false,
        }
    }

    /// Deliver `msg` to a live actor's mailbox (see `MailboxView::send_step`).
    /// A message for a PID that is not alive is dropped and `Ok` returned.
    pub fn send(&mut self, pid: u64, msg: Message) -> (r: Result<(), Message>)
        requires
            old(self).wf(),
        ensures
            final(self).wf(),
            !old(self)@.alive(pid) ==> r is Ok && final(self)@ == old(self)@,
            old(self)@.alive(pid) ==> ({
                let (res, m) = old(self)@.actor(pid).mailbox.send_step(msg);
                r == res && final(self)@ == old(self)@.with_mailbox(pid, m)
            }),
            final(self)@ == old(self)@.deliver(pid, msg),
    {
        let i = match self.slot(pid) {
            Some(i) => i,
            None => { return Ok(()); },
        };
        if !self.actors[i].alive {
            return Ok(());
        }
        let ghost v0 = self@;
        let r = self.actors[i].mailbox.send(msg);
        proof {
            self.lemma_after_actor_update(v0, pid, i);
        }
        r
    }

    /// Link two distinct live actors: when either exits, the other gets an
    /// exit notice. Otherwise nothing happens.
    pub fn link(&mut self, a: u64, b: u64)
        requires
            old(self).wf(),
        ensures
            final(self).wf(),
            a != b && old(self)@.alive(a) && old(self)@.alive(b) ==> final(self)@
                == old(self)@.link_outcome(a, b),
            !(a != b && old(self)@.alive(a) && old(self)@.alive(b)) ==> final(self)@ == old(self)@,
    {
        if a == b || !self.is_alive(a) || !self.is_alive(b) {
            return;
        }
        let ghost v0 = self@;
        let i = match self.slot(a) {
            Some(i) => i,
            None => { return; },
        };
        let j = match self.slot(b) {
            Some(j) => j,
            None => { return; },
        };
        proof {
            assert(v0.actor(a).links.no_duplicates());
            assert(v0.actor(b).links.no_duplicates());
        }
        add_member(&mut self.actors[i].links, b);
        proof {
            self.lemma_after_actor_update(v0, a, i);
        }
        let ghost v1 = self@;
        add_member(&mut self.actors[j].links, a);
        proof {
            self.lemma_after_actor_update(v1, b, j);
            assert(self@.actors =~= v0.link_outcome(a, b).actors);
        }
    }

    /// Remove the link between `a` and `b`, if any.
    pub fn unlink(&mut self, a: u64, b: u64)
        requires
            old(self).wf(),
        ensures
            final(self).wf(),
            old(self)@.has(a) && old(self)@.has(b) ==> final(self)@ == old(self)@.unlink_outcome(a, b),
            !(old(self)@.has(a) && old(self)@.has(b)) ==> final(self)@ == old(self)@,
    {
        let (i, j) = match (self.slot(a), self.slot(b)) {
            (Some(i), Some(j)) => (i, j),
            _ => { return; },
        };
        let ghost v0 = self@;
        proof {
            assert(v0.actor(a).links.no_duplicates());
            assert(v0.actor(b).links.no_duplicates());
        }
        remove_member(&mut self.actors[i].links, b);
        proof {
            self.lemma_after_actor_update(v0, a, i);
        }
        let ghost v1 = self@;
        remove_member(&mut self.actors[j].links, a);
        proof {
            self.lemma_after_actor_update(v1, b, j);
            assert(self@.actors =~= v0.unlink_outcome(a, b).actors);
        }
    }

    /// Let `a` watch `b`: when `b` exits, `a` gets an exit notice; when `a`
    /// exits, `b` gets nothing. Only between distinct live actors.
    pub fn monitor(&mut self, a: u64, b: u64)
        requires
            old(self).wf(),
        ensures
            final(self).wf(),
            a != b && old(self)@.alive(a) && old(self)@.alive(b) ==> final(self)@
                == old(self)@.monitor_outcome(a, b),
            !(a != b && old(self)@.alive(a) && old(self)@.alive(b)) ==> final(self)@ == old(self)@,
    {
        if a == b || !self.is_alive(a) || !self.is_alive(b) {
            return;
        }
        let ghost v0 = self@;
        let j = match self.slot(b) {
            Some(j) => j,
            None => { return; },
        };
        proof {
            assert(v0.actor(b).watchers.no_duplicates());
        }
        add_member(&mut self.actors[j].watchers, a);
        proof {
            self.lemma_after_actor_update(v0, b, j);
            assert(self@.actors =~= v0.monitor_outcome(a, b).actors);
        }
    }

    proof fn lemma_after_actor_update(&self, v0: RuntimeView, pid: u64, i: usize)
        requires
            v0.well_formed(),
            v0.has(pid),
            i == pid - 1,
            self.actors@.len() == v0.actors.len(),
            forall|j: int| 0 <= j < self.actors@.len() && j != i ==> #[trigger] self.actors@[j]@ == v0.actors[j],
            forall|j: int| 0 <= j < self.actors@.len() ==> (#[trigger] self.actors@[j]).mailbox.wf(),
            self@.names == v0.names,
            self.actors@[i as int]@.alive == v0.actor(pid).alive,
            self.actors@[i as int]@.mailbox.closed == v0.actor(pid).mailbox.closed,
            self.actors@[i as int]@.parent == v0.actor(pid).parent,
            self.actors@[i as int]@.links.no_duplicates(),
            self.actors@[i as int]@.watchers.no_duplicates(),
            !self.actors@[i as int]@.links.contains(pid),
            !self.actors@[i as int]@.watchers.contains(pid),
        ensures
            self.wf(),
            self@ == (RuntimeView { actors: v0.actors.update(i as int, self.actors@[i as int]@), ..v0 }),
    {
        assert(self@.actors =~= v0.actors.update(i as int, self.actors@[i as int]@));
        lemma_wf_update(v0, pid, self.actors@[i as int]@);
    }

    /// Deliver `msg` to the actor registered under `name`; with no such
    /// name the message is handed back.
    pub fn send_named(&mut self, name: &str, msg: Message) -> (r: Result<(), Message>)
        requires
            old(self).wf(),
        ensures
            final(self).wf(),
            !old(self)@.names.contains_key(name@) ==> r == Err::<(), Message>(msg) && final(self)@ == old(self)@,
            old(self)@.names.contains_key(name@) ==> ({
                let pid = old(self)@.names[name@];
                let (res, m) = old(self)@.actor(pid).mailbox.send_step(msg);
                r == res && final(self)@ == old(self)@.with_mailbox(pid, m)
            }),
    {
        match self.names.resolve(name) {
            Some(pid) => self.send(pid, msg),
            None => Err(msg),
        }
    }

    /// Ask a live actor to replace its behavior by the one `handle` refers to.
    pub fn hot_swap(&mut self, pid: u64, handle: usize) -> (r: bool)
        requires
            old(self).wf(),
        ensures
            final(self).wf(),
            r == old(self)@.alive(pid),
            !old(self)@.alive(pid) ==> final(self)@ == old(self)@,
            old(self)@.alive(pid) ==> final(self)@ == old(self)@.with_mailbox(
                pid,
                MailboxView {
                    sys: old(self)@.actor(pid).mailbox.sys.push(SystemMessage::HotSwap(handle)),
                    ..old(self)@.actor(pid).mailbox
                },
            ),
    {
        let alive = self.is_alive(pid);
        let _ = self.send(pid, Message::System(SystemMessage::HotSwap(handle)));
        alive
    }

    /// Bind `name` to a live actor, replacing any earlier binding of the
    /// name and any other name of that actor; no effect for a PID that is
    /// not alive.
    pub fn register(&mut self, name: String, pid: u64)
        requires
            old(self).wf(),
        ensures
            final(self).wf(),
            final(self)@.actors == old(self)@.actors,
            old(self)@.alive(pid) ==> final(self)@.names == without_pid(old(self)@.names, pid).insert(name@, pid),
            !old(self)@.alive(pid) ==> final(self)@.names == old(self)@.names,
    {
        if !self.is_alive(pid) {
            return;
        }
        let ghost v0 = self@;
        self.names.unregister_pid(pid);
        self.names.register(name, pid);
        proof {
            let m = self@.names;
            assert forall|n: Seq<char>| #[trigger] m.contains_key(n) implies self@.alive(m[n]) by {
                if n != name@ {
                    assert(v0.names.contains_key(n));
                }
            }
            assert(self@.actors == v0.actors);
            lemma_wf_names(v0, m);
            assert(self@ == (RuntimeView { names: m, ..v0 }));
        }
    }

    /// Remove the binding of `name`; nothing happens if there is none.
    pub fn unregister(&mut self, name: &str)
        requires
            old(self).wf(),
        ensures
            final(self).wf(),
            final(self)@ == (RuntimeView { names: old(self)@.names.remove(name@), ..old(self)@ }),
    {
        let ghost v0 = self@;
        self.names.unregister(name);
        proof {
            let m = self@.names;
            assert forall|n: Seq<char>| #[trigger] m.contains_key(n) implies self@.alive(m[n]) by {
                assert(v0.names.contains_key(n));
            }
            assert(self@ =~= (RuntimeView { names: v0.names.remove(name@), ..v0 }));
            lemma_wf_names(v0, m);
        }
    }

    pub fn resolve(&self, name: &str) -> (r: Option<u64>)
        requires
            self.wf(),
        ensures
            self@.names.contains_key(name@) ==> r == Some(self@.names[name@]),
            !self@.names.contains_key(name@) ==> r is None,
            r matches Some(p) ==> self@.alive(p),
    {
        let r = self.names.resolve(name);
        proof {
            if self@.names.contains_key(name@) {
                assert(self@.alive(self@.names[name@]));
            }
        }
        r
    }

    /// Depth of the user queue of a live actor, stashed messages included.
    pub fn mailbox_size(&self, pid: u64) -> (r: Option<usize>)
        requires
            self.wf(),
        ensures
            !self@.alive(pid) ==> r is None,
            self@.alive(pid) ==> (r matches Some(n) && n == self@.actor(pid).mailbox.pending_users()),
    {
        match self.slot(pid) {
            Some(i) => {
                if self.actors[i].alive {
                    Some(self.actors[i].mailbox.len())
                } else {
                    None
                }
            },
            None => None,
        }
    }
}

} // verus!
