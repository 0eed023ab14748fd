//! The reduction budget of a push actor: after `budget` user messages in a
//! row the actor yields to the executor. System messages cost nothing.
use crate::mailbox::{is_user, is_user_message, Message};
use vstd::prelude::*;

verus! {

/// Budget of an actor spawned without one.
pub const DEFAULT_BUDGET: usize = 100;

pub struct Reductions {
    budget: usize,
    used: usize,
}

impl Reductions {
    pub closed spec fn budget(&self) -> usize {
        self.budget
    }

    /// User messages handled since the last yield.
    pub closed spec fn used(&self) -> usize {
        self.used
    }

    pub closed spec fn wf(&self) -> bool {
        0 < self.budget && self.used < self.budget
    }

    /// A budget of 0 is taken as 1: the actor yields after every message.
    pub fn new(budget: usize) -> (r: Reductions)
        ensures
            r.wf(),
            r.budget() == if budget == 0 { 1 } else { budget },
            r.used() == 0,
    {
        Reductions { budget: if budget == 0 { 1 } else { budget }, used: 0 }
    }

    /// Account for one dispatched message; true when the actor must yield
    /// now.
    pub fn charge(&mut self, m: &Message) -> (yield_now: bool)
        requires
            old(self).wf(),
        ensures
            final(self).wf(),
            final(self).budget() == old(self).budget(),
            !is_user(*m) ==> !yield_now && final(self).used() == old(self).used(),
            is_user(*m) && old(self).used() + 1 == old(self).budget() ==> yield_now && final(self).used() == 0,
            is_user(*m) && old(self).used() + 1 < old(self).budget() ==> !yield_now && final(self).used()
                == old(self).used() + 1,
    {
        if !is_user_message(m) {
            return false;
        }
        if self.used + 1 == self.budget {
            self.used = 0;
            true
        } else {
            self.used = self.used + 1;
            false
        }
    }
}

} // verus!
