//! Timers: one-shot and periodic deliveries of a user payload to an actor.
//! The waiting is the caller's; this table decides what a due timer delivers.
use vstd::prelude::*;

verus! {

#[derive(Clone, Copy, Debug, PartialEq, Eq, Structural)]
pub enum TimerKind {
    /// Deliver once, after this many milliseconds.
    OneShot(u64),
    /// Deliver every this many milliseconds.
    Interval(u64),
}

#[derive(Clone, Debug, PartialEq, Eq)]
pub struct Timer {
    pub id: u64,
    pub target: u64,
    pub payload: Vec<u8>,
    pub kind: TimerKind,
}

pub struct TimerView {
    pub id: u64,
    pub target: u64,
    pub payload: Seq<u8>,
    pub kind: TimerKind,
}

impl View for Timer {
    type V = TimerView;

    open spec fn view(&self) -> TimerView {
        TimerView { id: self.id, target: self.target, payload: self.payload@, kind: self.kind }
    }
}

/// The timers that are armed; a fired one-shot or a cancelled timer is gone.
pub struct TimerWheel {
    next_id: u64,
    armed: Vec<Timer>,
}

pub open spec fn timer_index(s: Seq<TimerView>, id: u64) -> Option<int> {
    s.map_values(|t: TimerView| t.id).index_of_first(id)
}

impl View for TimerWheel {
    type V = Seq<TimerView>;

    closed spec fn view(&self) -> Seq<TimerView> {
        self.armed@.map_values(|t: Timer| t@)
    }
}

impl TimerWheel {
    /// Ids are handed out in increasing order, from 1.
    pub closed spec fn next(&self) -> u64 {
        self.next_id
    }

    pub closed spec fn wf(&self) -> bool {
        &&& self.next_id >= 1
        &&& forall|k: int| 0 <= k < self@.len() ==> 1 <= (#[trigger] self@[k]).id < self.next_id
        &&& self@.map_values(|t: TimerView| t.id).no_duplicates()
    }

    pub fn new() -> (r: TimerWheel)
        ensures
            r.wf(),
            r@.len() == 0,
            r.next() == 1,
    {
        let r = TimerWheel { next_id: 1, armed: Vec::new() };
        proof {
            assert(r@ =~= Seq::<TimerView>::empty());
            assert(r@.map_values(|t: TimerView| t.id) =~= Seq::<u64>::empty());
        }
        r
    }

    /// The id the next timer gets.
    pub fn next_id(&self) -> (r: u64)
        ensures
            r == self.next(),
    {
        self.next_id
    }

    fn arm(&mut self, target: u64, payload: Vec<u8>, kind: TimerKind) -> (r: u64)
        requires
            old(self).wf(),
            old(self).next() < u64::MAX,
        ensures
            final(self).wf(),
            r == old(self).next(),
            final(self).next() == r + 1,
            final(self)@ == old(self)@.push(TimerView { id: r, target, payload: payload@, kind }),
            timer_index(final(self)@, r) == Some(old(self)@.len() as int),
    {
        let id = self.next_id;
        let ghost ids0 = self@.map_values(|t: TimerView| t.id);
        self.armed.push(Timer { id, target, payload, kind });
        self.next_id = id + 1;
        proof {
            assert(self@ =~= old(self)@.push(TimerView { id, target, payload: payload@, kind }));
            let ids = self@.map_values(|t: TimerView| t.id);
            assert(ids =~= ids0.push(id));
            assert forall|a: int, b: int| 0 <= a < ids.len() && 0 <= b < ids.len() && a != b implies ids[a]
                != ids[b] by {
                if a < ids0.len() && b < ids0.len() {
                    assert(ids0[a] != ids0[b]);
                } else if a < ids0.len() {
                    assert(old(self)@[a].id < id);
                } else if b < ids0.len() {
                    assert(old(self)@[b].id < id);
                }
            }
            ids.index_of_first_ensures(id);
            assert(ids[ids0.len() as int] == id);
            if let Some(j) = ids.index_of_first(id) {
                if j < ids0.len() {
                    assert(old(self)@[j].id < id);
                }
            }
        }
        id
    }

    /// Arm a one-shot delivery of `payload` to `target` after `delay_ms`.
    pub fn send_after(&mut self, target: u64, delay_ms: u64, payload: Vec<u8>) -> (r: u64)
        requires
            old(self).wf(),
            old(self).next() < u64::MAX,
        ensures
            final(self).wf(),
            r == old(self).next(),
            final(self).next() == r + 1,
            final(self)@ == old(self)@.push(
                TimerView { id: r, target, payload: payload@, kind: TimerKind::OneShot(delay_ms) },
            ),
            timer_index(final(self)@, r) == Some(old(self)@.len() as int),
    {
        self.arm(target, payload, TimerKind::OneShot(delay_ms))
    }

    /// Arm a delivery of `payload` to `target` every `period_ms`.
    pub fn send_interval(&mut self, target: u64, period_ms: u64, payload: Vec<u8>) -> (r: u64)
        requires
            old(self).wf(),
            old(self).next() < u64::MAX,
        ensures
            final(self).wf(),
            r == old(self).next(),
            final(self).next() == r + 1,
            final(self)@ == old(self)@.push(
                TimerView { id: r, target, payload: payload@, kind: TimerKind::Interval(period_ms) },
            ),
            timer_index(final(self)@, r) == Some(old(self)@.len() as int),
    {
        self.arm(target, payload, TimerKind::Interval(period_ms))
    }

    fn find(&self, id: u64) -> (r: Option<usize>)
        ensures
            r matches Some(i) ==> timer_index(self@, id) == Some(i as int) && i < self@.len() && self@[i as int].id
                == id,
            r is None ==> timer_index(self@, id) is None,
    {
        let ghost ids = self@.map_values(|t: TimerView| t.id);
        let mut i: usize = 0;
        while i < self.armed.len()
            invariant
                0 <= i <= self@.len(),
                ids == self@.map_values(|t: TimerView| t.id),
                forall|k: int| 0 <= k < i ==> ids[k] != id,
            decreases self@.len() - i,
        {
            if self.armed[i].id == id {
                proof {
                    ids.index_of_first_ensures(id);
                    assert(ids[i as int] == id);
                }
                return Some(i);
            }
            i = i + 1;
        }
        proof {
            ids.index_of_first_ensures(id);
        }
        None
    }

    fn remove_at(&mut self, i: usize)
        requires
            old(self).wf(),
            i < old(self)@.len(),
        ensures
            final(self).wf(),
            final(self).next() == old(self).next(),
            final(self)@ == old(self)@.remove(i as int),
            timer_index(final(self)@, old(self)@[i as int].id) is None,
    {
        let ghost ids0 = self@.map_values(|t: TimerView| t.id);
        self.armed.remove(i);
        proof {
            assert(self@ =~= old(self)@.remove(i as int));
            let ids = self@.map_values(|t: TimerView| t.id);
            assert(ids =~= ids0.remove(i as int));
            assert forall|a: int, b: int| 0 <= a < ids.len() && 0 <= b < ids.len() && a != b implies ids[a]
                != ids[b] by {
                let a2 = if a < i { a } else { a + 1 };
                let b2 = if b < i { b } else { b + 1 };
                assert(ids0[a2] != ids0[b2]);
            }
            assert forall|k: int| 0 <= k < self@.len() implies 1 <= (#[trigger] self@[k]).id < self.next_id by {
                let k2 = if k < i { k } else { k + 1 };
                assert(self@[k] == old(self)@[k2]);
            }
            let gone = old(self)@[i as int].id;
            assert(ids0[i as int] == gone);
            ids.index_of_first_ensures(gone);
            if let Some(j) = ids.index_of_first(gone) {
                let j2 = if j < i { j } else { j + 1 };
                assert(ids[j] == ids0[j2]);
                assert(ids0[j2] != ids0[i as int]);
            }
        }
    }

    /// Disarm timer `id`; true if it was armed.
    pub fn cancel_timer(&mut self, id: u64) -> (r: bool)
        requires
            old(self).wf(),
        ensures
            final(self).wf(),
            final(self).next() == old(self).next(),
            r == timer_index(old(self)@, id) is Some,
            timer_index(old(self)@, id) matches Some(i) ==> final(self)@ == old(self)@.remove(i),
            timer_index(old(self)@, id) is None ==> final(self)@ == old(self)@,
            timer_index(final(self)@, id) is None,
    {
        match self.find(id) {
            Some(i) => {
                self.remove_at(i);
                true
            },
            None => false,
        }
    }

    /// Timer `id` is due. An armed timer whose target is alive delivers its
    /// payload to the target; a one-shot is then disarmed, an interval stays.
    /// A timer whose target is gone is disarmed and delivers nothing.
    pub fn fire(&mut self, id: u64, target_alive: bool) -> (r: Option<(u64, Vec<u8>)>)
        requires
            old(self).wf(),
        ensures
            final(self).wf(),
            final(self).next() == old(self).next(),
            timer_index(old(self)@, id) is None ==> r is None && final(self)@ == old(self)@,
            timer_index(old(self)@, id) matches Some(i) ==> ({
                let t = old(self)@[i];
                &&& target_alive ==> (r matches Some((p, b)) && p == t.target && b@ == t.payload)
                &&& !target_alive ==> r is None
                &&& (!target_alive || t.kind is OneShot) ==> final(self)@ == old(self)@.remove(i)
                    && timer_index(final(self)@, id) is None
                &&& (target_alive && t.kind is Interval) ==> final(self)@ == old(self)@
            }),
    {
        let i = match self.find(id) {
            Some(i) => i,
            None => { return None; },
        };
        let target = self.armed[i].target;
        let one_shot = match self.armed[i].kind {
            TimerKind::OneShot(_) => true,
            TimerKind::Interval(_) => false,
        };
        let payload = self.armed[i].payload.clone();
        proof {
            assert(payload@ =~= self@[i as int].payload);
        }
        if !target_alive || one_shot {
            self.remove_at(i);
        }
        if target_alive {
            Some((target, payload))
        } else {
            None
        }
    }
}

} // verus!
