//! Supervision: a table from supervised PID to child specification, and the
//! restart decision taken when a supervised actor exits. Factories live with
//! the caller; a child specification names one by a key.
use vstd::prelude::*;

verus! {

#[derive(Clone, Copy, Debug, PartialEq, Eq, Structural)]
pub enum RestartStrategy {
    /// Replace only the child that exited.
    RestartOne,
    /// Stop and replace every child of the supervisor.
    RestartAll,
}

#[derive(Clone, Copy, Debug, PartialEq, Eq, Structural)]
pub struct ChildSpec {
    /// Key of the factory that makes a replacement actor.
    pub factory: u64,
    pub strategy: RestartStrategy,
}

/// What to do after a supervised actor exited.
#[derive(Clone, Debug, PartialEq, Eq)]
pub enum RestartPlan {
    /// The PID is not supervised here.
    Ignore,
    /// Call this factory and re-arm the entry of the dead PID.
    RestartOne { factory: u64 },
    /// Stop every listed child (the dead one included) and replace each with
    /// its factory.
    RestartAll { children: Vec<(u64, u64)> },
}

#[derive(Clone, Copy, Debug, PartialEq, Eq, Structural)]
pub enum StrategyError {
    InvalidStrategy,
}

/// Unicode lowercase of a string.
pub uninterp spec fn lower_of(s: Seq<char>) -> Seq<char>;

/// Relies on `str::to_lowercase`: the result depends on the characters alone.
#[verifier::external_body]
fn lowercase(s: &str) -> (r: String)
    ensures
        r@ == lower_of(s@),
{
    s.to_lowercase()
}

pub open spec fn strategy_of(t: Seq<char>) -> Option<RestartStrategy> {
    if t == "restartone"@ || t == "restart_one"@ || t == "one"@ {
        Some(RestartStrategy::RestartOne)
    } else if t == "restartall"@ || t == "restart_all"@ || t == "all"@ {
        Some(RestartStrategy::RestartAll)
    } else {
        None
    }
}

/// Whether two strings hold the same characters.
pub fn str_eq(a: &str, b: &str) -> (r: bool)
    ensures
        r == (a@ == b@),
{
    let n = a.unicode_len();
    if n != b.unicode_len() {
        return false;
    }
    let mut i: usize = 0;
    while i < n
        invariant
            n == a@.len(),
            n == b@.len(),
            0 <= i <= n,
            forall|k: int| 0 <= k < i ==> a@[k] == b@[k],
        decreases n - i,
    {
        if a.get_char(i) != b.get_char(i) {
            return false;
        }
        i = i + 1;
    }
    proof {
        assert(a@ =~= b@);
    }
    true
}

/// Reads a strategy name that is already in lower case.
pub fn parse_strategy_lower(t: &str) -> (r: Result<RestartStrategy, StrategyError>)
    ensures
        strategy_of(t@) matches Some(s) ==> r == Ok::<RestartStrategy, StrategyError>(s),
        strategy_of(t@) is None ==> r == Err::<RestartStrategy, StrategyError>(
            StrategyError::InvalidStrategy,
        ),
{
    proof {
        reveal_strlit("restartone");
        reveal_strlit("restart_one");
        reveal_strlit("one");
        reveal_strlit("restartall");
        reveal_strlit("restart_all");
        reveal_strlit("all");
    }
    if str_eq(t, "restartone") || str_eq(t, "restart_one") || str_eq(t, "one") {
        Ok(RestartStrategy::RestartOne)
    } else if str_eq(t, "restartall") || str_eq(t, "restart_all") || str_eq(t, "all") {
        Ok(RestartStrategy::RestartAll)
    } else {
        Err(StrategyError::InvalidStrategy)
    }
}

/// Reads a strategy name in any case: `restartone`, `restart_one` or `one`;
/// `restartall`, `restart_all` or `all`.
pub fn parse_strategy(s: &str) -> (r: Result<RestartStrategy, StrategyError>)
    ensures
        strategy_of(lower_of(s@)) matches Some(x) ==> r == Ok::<RestartStrategy, StrategyError>(x),
        strategy_of(lower_of(s@)) is None ==> r == Err::<RestartStrategy, StrategyError>(
            StrategyError::InvalidStrategy,
        ),
{
    let t = lowercase(s);
    parse_strategy_lower(t.as_str())
}

/// The entries once the factory of `old_pid` answered `outcome`: a new PID
/// not yet supervised (or the same PID) re-arms the entry in place; a
/// failure, or a PID that already has an entry, drops it.
pub open spec fn restarted(s: Seq<(u64, ChildSpec)>, old_pid: u64, outcome: Result<u64, String>) -> Seq<
    (u64, ChildSpec),
> {
    match entry_index(s, old_pid) {
        None => s,
        Some(i) => match outcome {
            Ok(new_pid) => if entry_index(s, new_pid) is None || new_pid == old_pid {
                s.update(i, (new_pid, s[i].1))
            } else {
                s.remove(i)
            },
            Err(_) => s.remove(i),
        },
    }
}

/// The entries once each factory answer of `outcomes` is applied in order.
pub open spec fn restarted_all(s: Seq<(u64, ChildSpec)>, outcomes: Seq<(u64, Result<u64, String>)>) -> Seq<
    (u64, ChildSpec),
>
    decreases outcomes.len(),
{
    if outcomes.len() == 0 {
        s
    } else {
        let prev = restarted_all(s, outcomes.drop_last());
        restarted(prev, outcomes.last().0, outcomes.last().1)
    }
}

pub struct Supervisor {
    children: Vec<(u64, ChildSpec)>,
}

pub open spec fn pids_of(s: Seq<(u64, ChildSpec)>) -> Seq<u64> {
    s.map_values(|e: (u64, ChildSpec)| e.0)
}

/// Index of the entry of `pid`, if any.
pub open spec fn entry_index(s: Seq<(u64, ChildSpec)>, pid: u64) -> Option<int> {
    pids_of(s).index_of_first(pid)
}

impl View for Supervisor {
    type V = Seq<(u64, ChildSpec)>;

    closed spec fn view(&self) -> Seq<(u64, ChildSpec)> {
        self.children@
    }
}

impl Supervisor {
    /// Each PID has at most one entry.
    pub open spec fn wf(&self) -> bool {
        pids_of(self@).no_duplicates()
    }

    pub fn new() -> (r: Supervisor)
        ensures
            r.wf(),
            r@ == Seq::<(u64, ChildSpec)>::empty(),
    {
        let r = Supervisor { children: Vec::new() };
        proof {
            assert(pids_of(r@) =~= Seq::<u64>::empty());
        }
        r
    }

    fn find(&self, pid: u64) -> (r: Option<usize>)
        ensures
            r matches Some(i) ==> entry_index(self@, pid) == Some(i as int) && i < self@.len()
                && self@[i as int].0 == pid,
            r is None ==> entry_index(self@, pid) is None,
    {
        let mut i: usize = 0;
        while i < self.children.len()
            invariant
                0 <= i <= self@.len(),
                forall|k: int| 0 <= k < i ==> (#[trigger] self@[k]).0 != pid,
            decreases self@.len() - i,
        {
            if self.children[i].0 == pid {
                proof {
                    pids_of(self@).index_of_first_ensures(pid);
                    assert(pids_of(self@)[i as int] == pid);
                }
                return Some(i);
            }
            i = i + 1;
        }
        proof {
            pids_of(self@).index_of_first_ensures(pid);
            if pids_of(self@).contains(pid) {
                let k = choose|k: int| 0 <= k < pids_of(self@).len() && pids_of(self@)[k] == pid;
                assert(self@[k].0 == pid);
            }
        }
        None
    }

    /// Supervise `pid` with `spec`, replacing any earlier entry of `pid` in
    /// place; a new entry goes last.
    pub fn add_child(&mut self, pid: u64, spec: ChildSpec)
        requires
            old(self).wf(),
        ensures
            final(self).wf(),
            entry_index(old(self)@, pid) matches Some(i) ==> final(self)@ == old(self)@.update(i, (pid, spec)),
            entry_index(old(self)@, pid) is None ==> final(self)@ == old(self)@.push((pid, spec)),
    {
        match self.find(pid) {
            Some(i) => {
                self.children.set(i, (pid, spec));
                proof {
                    assert(pids_of(self@) =~= pids_of(old(self)@));
                }
            },
            None => {
                self.children.push((pid, spec));
                proof {
                    pids_of(old(self)@).index_of_first_ensures(pid);
                    lemma_push_distinct(pids_of(old(self)@), pid);
                    assert(pids_of(self@) =~= pids_of(old(self)@).push(pid));
                }
            },
        }
    }

    pub fn children_count(&self) -> (r: usize)
        ensures
            r == self@.len(),
    {
        self.children.len()
    }

    /// The supervised PIDs, in the order of their entries.
    pub fn child_pids(&self) -> (r: Vec<u64>)
        ensures
            r@ == pids_of(self@),
    {
        let mut r: Vec<u64> = Vec::new();
        let mut i: usize = 0;
        while i < self.children.len()
            invariant
                0 <= i <= self@.len(),
                r@ == pids_of(self@.take(i as int)),
            decreases self@.len() - i,
        {
            r.push(self.children[i].0);
            i = i + 1;
            proof {
                assert(r@ =~= pids_of(self@.take(i as int)));
            }
        }
        proof {
            assert(self@.take(i as int) =~= self@);
        }
        r
    }

    /// The decision when `pid` has exited.
    pub fn on_exit(&self, pid: u64) -> (r: RestartPlan)
        requires
            self.wf(),
        ensures
            entry_index(self@, pid) is None ==> r == RestartPlan::Ignore,
            entry_index(self@, pid) matches Some(i) ==> ({
                let spec = self@[i].1;
                match spec.strategy {
                    RestartStrategy::RestartOne => r == (RestartPlan::RestartOne { factory: spec.factory }),
                    RestartStrategy::RestartAll => r matches RestartPlan::RestartAll { children } && children@
                        == self@.map_values(|e: (u64, ChildSpec)| (e.0, e.1.factory)),
                }
            }),
    {
        let i = match self.find(pid) {
            Some(i) => i,
            None => { return RestartPlan::Ignore; },
        };
        let spec = self.children[i].1;
        match spec.strategy {
            RestartStrategy::RestartOne => RestartPlan::RestartOne { factory: spec.factory },
            RestartStrategy::RestartAll => {
                let mut all: Vec<(u64, u64)> = Vec::new();
                let mut k: usize = 0;
                while k < self.children.len()
                    invariant
                        0 <= k <= self@.len(),
                        all@ == self@.take(k as int).map_values(|e: (u64, ChildSpec)| (e.0, e.1.factory)),
                    decreases self@.len() - k,
                {
                    let e = self.children[k];
                    all.push((e.0, e.1.factory));
                    k = k + 1;
                    proof {
                        assert(all@ =~= self@.take(k as int).map_values(
                            |e: (u64, ChildSpec)| (e.0, e.1.factory),
                        ));
                    }
                }
                proof {
                    assert(self@.take(k as int) =~= self@);
                }
                RestartPlan::RestartAll { children: all }
            },
        }
    }

    /// The factory of `old_pid` answered: with a new PID the entry is
    /// re-armed under it, in place; with a failure the entry is dropped and
    /// the dead PID stays dead.
    pub fn complete_restart(&mut self, old_pid: u64, outcome: Result<u64, String>)
        requires
            old(self).wf(),
        ensures
            final(self).wf(),
            final(self)@ == restarted(old(self)@, old_pid, outcome),
    {
        let i = match self.find(old_pid) {
            Some(i) => i,
            None => { return; },
        };
        let spec = self.children[i].1;
        let keep = match outcome {
            Ok(new_pid) => if new_pid == old_pid || self.find(new_pid).is_none() {
                Some(new_pid)
            } else {
                None
            },
            Err(_) => None,
        };
        proof {
            pids_of(old(self)@).index_of_first_ensures(old_pid);
        }
        match keep {
            Some(new_pid) => {
                self.children.set(i, (new_pid, spec));
                proof {
                    pids_of(old(self)@).index_of_first_ensures(new_pid);
                    let ids0 = pids_of(old(self)@);
                    let ids1 = pids_of(self@);
                    assert(ids1 =~= ids0.update(i as int, new_pid));
                    assert forall|a: int, b: int| 0 <= a < ids1.len() && 0 <= b < ids1.len() && a != b implies ids1[a]
                        != ids1[b] by {
                        if a != i && b != i {
                            assert(ids0[a] != ids0[b]);
                        } else if a == i {
                            if new_pid != old_pid {
                                assert(ids0[b] != new_pid);
                            } else {
                                assert(ids0[a] != ids0[b]);
                            }
                        } else {
                            if new_pid != old_pid {
                                assert(ids0[a] != new_pid);
                            } else {
                                assert(ids0[a] != ids0[b]);
                            }
                        }
                    }
                }
            },
            None => {
                self.children.remove(i);
                proof {
                    let ids0 = pids_of(old(self)@);
                    let ids1 = pids_of(self@);
                    assert(ids1 =~= ids0.remove(i as int));
                    assert forall|a: int, b: int| 0 <= a < ids1.len() && 0 <= b < ids1.len() && a != b implies ids1[a]
                        != ids1[b] by {
                        let a2 = if a < i { a } else { a + 1 };
                        let b2 = if b < i { b } else { b + 1 };
                        assert(ids0[a2] != ids0[b2]);
                    }
                }
            },
        }
    }
}

impl Supervisor {
    /// A restart of all children was carried out: `outcomes` holds, in
    /// order, each old PID with what its factory answered. The entries are
    /// re-armed or dropped one by one; the returned PIDs are the old
    /// siblings of `dead`, which are to be stopped.
    pub fn complete_restart_all(&mut self, dead: u64, outcomes: Vec<(u64, Result<u64, String>)>) -> (r: Vec<
        u64,
    >)
        requires
            old(self).wf(),
        ensures
            final(self).wf(),
            final(self)@ == restarted_all(old(self)@, outcomes@),
            r@ == outcomes@.map_values(|e: (u64, Result<u64, String>)| e.0).filter(|p: u64| p != dead),
    {
        let ghost all = outcomes@;
        let ghost olds = all.map_values(|e: (u64, Result<u64, String>)| e.0);
        let ghost keep = |p: u64| p != dead;
        let mut stops: Vec<u64> = Vec::new();
        let mut i: usize = 0;
        let n = outcomes.len();
        while i < n
            invariant
                0 <= i <= n,
                n == all.len(),
                all == outcomes@,
                olds == all.map_values(|e: (u64, Result<u64, String>)| e.0),
                keep == (|p: u64| p != dead),
                self.wf(),
                self@ == restarted_all(old(self)@, all.take(i as int)),
                stops@ == olds.take(i as int).filter(keep),
            decreases n - i,
        {
            let old_pid = outcomes[i].0;
            let outcome: Result<u64, String> = match &outcomes[i].1 {
                Ok(p) => Ok(*p),
                Err(e) => Err(e.clone()),
            };
            proof {
                assert(all[i as int] == (old_pid, outcome));
                assert(all.take(i + 1).drop_last() =~= all.take(i as int));
                assert(olds.take(i + 1).drop_last() =~= olds.take(i as int));
                assert(olds[i as int] == old_pid);
                reveal(Seq::filter);
            }
            self.complete_restart(old_pid, outcome);
            if old_pid != dead {
                stops.push(old_pid);
            }
            i = i + 1;
        }
        proof {
            assert(all.take(i as int) =~= all);
            assert(olds.take(i as int) =~= olds);
        }
        stops
    }
}

proof fn lemma_push_distinct(s: Seq<u64>, x: u64)
    requires
        s.no_duplicates(),
        !s.contains(x),
    ensures
        s.push(x).no_duplicates(),
{
    let t = s.push(x);
    assert forall|a: int, b: int| 0 <= a < t.len() && 0 <= b < t.len() && a != b implies t[a] != t[b] by {
        if a < s.len() && b < s.len() {
            assert(s[a] != s[b]);
        } else if a < s.len() {
            assert(s[a] != x);
        } else if b < s.len() {
            assert(s[b] != x);
        }
    }
}

} // verus!
