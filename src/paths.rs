//! Hierarchical names: slash-separated paths bound to PIDs, subscriptions on
//! a prefix, and supervisors scoped to a path.
use crate::supervisor::{
    entry_index, str_eq, ChildSpec, RestartPlan, RestartStrategy, Supervisor,
};
use vstd::prelude::*;

verus! {

#[derive(Clone, Copy, Debug, PartialEq, Eq, Structural)]
pub enum PathError {
    /// Empty, ends with a slash, or holds an empty segment.
    InvalidPath,
    /// No supervisor is scoped to that path.
    NoSupervisor,
}

/// A path is non-empty, does not end with `/`, and has no empty segment
/// between two slashes; it may start with `/`.
pub open spec fn valid_path(s: Seq<char>) -> bool {
    &&& s.len() > 0
    &&& s.last() != '/'
    &&& forall|i: int| 0 <= i < s.len() - 1 && #[trigger] s[i] == '/' ==> s[i + 1] != '/'
}

/// `prefix` is a proper ancestor of `path`.
pub open spec fn descends(path: Seq<char>, prefix: Seq<char>) -> bool {
    &&& prefix.len() < path.len()
    &&& path.take(prefix.len() as int) == prefix
    &&& path[prefix.len() as int] == '/'
}

/// `path` is an immediate child of `prefix`.
pub open spec fn direct_child(path: Seq<char>, prefix: Seq<char>) -> bool {
    &&& descends(path, prefix)
    &&& !path.skip(prefix.len() + 1 as int).contains('/')
}

/// The PID of the most recent binding of `path` in `s`.
pub open spec fn lookup(s: Seq<(Seq<char>, u64)>, path: Seq<char>) -> Option<u64>
    decreases s.len(),
{
    if s.len() == 0 {
        None
    } else if s.last().0 == path {
        Some(s.last().1)
    } else {
        lookup(s.drop_last(), path)
    }
}

/// Bindings other than those of `path`.
pub open spec fn not_path(path: Seq<char>) -> spec_fn((Seq<char>, u64)) -> bool {
    |e: (Seq<char>, u64)| e.0 != path
}

/// Bindings other than those of `pid`.
pub open spec fn not_pid(pid: u64) -> spec_fn((Seq<char>, u64)) -> bool {
    |e: (Seq<char>, u64)| e.1 != pid
}

/// Bindings of neither `path` nor `pid`.
pub open spec fn neither(path: Seq<char>, pid: u64) -> spec_fn((Seq<char>, u64)) -> bool {
    |e: (Seq<char>, u64)| e.1 != pid && e.0 != path
}

/// Bindings below `prefix`: immediate children only when `direct`.
pub open spec fn below(prefix: Seq<char>, direct: bool) -> spec_fn((Seq<char>, u64)) -> bool {
    |e: (Seq<char>, u64)|
        if direct {
            direct_child(e.0, prefix)
        } else {
            descends(e.0, prefix)
        }
}

/// Subscriptions whose prefix is `path` or an ancestor of it.
pub open spec fn covers(path: Seq<char>) -> spec_fn((Seq<char>, u64)) -> bool {
    |e: (Seq<char>, u64)| e.0 == path || descends(path, e.0)
}

proof fn lemma_filter_step(s: Seq<(Seq<char>, u64)>, i: int, pred: spec_fn((Seq<char>, u64)) -> bool)
    requires
        0 <= i < s.len(),
    ensures
        s.take(i + 1).filter(pred) == if pred(s[i]) {
            s.take(i).filter(pred).push(s[i])
        } else {
            s.take(i).filter(pred)
        },
{
    let t = s.take(i + 1);
    assert(t.drop_last() =~= s.take(i));
    assert(t.last() == s[i]);
    reveal(Seq::filter);
}

pub open spec fn entry_view(e: (String, u64)) -> (Seq<char>, u64) {
    (e.0@, e.1)
}

pub open spec fn entries_view(s: Seq<(String, u64)>) -> Seq<(Seq<char>, u64)> {
    s.map_values(|e: (String, u64)| entry_view(e))
}

pub struct PathRegistry {
    entries: Vec<(String, u64)>,
    watchers: Vec<(String, u64)>,
    supervisors: Vec<(String, Supervisor)>,
}

pub struct PathRegistryView {
    /// Bindings, oldest first.
    pub entries: Seq<(Seq<char>, u64)>,
    /// Subscriptions: a prefix and the subscribing PID.
    pub watchers: Seq<(Seq<char>, u64)>,
    /// Paths that have a supervisor, and its entries.
    pub supervisors: Seq<(Seq<char>, Seq<(u64, ChildSpec)>)>,
}

impl View for PathRegistry {
    type V = PathRegistryView;

    closed spec fn view(&self) -> PathRegistryView {
        PathRegistryView {
            entries: entries_view(self.entries@),
            watchers: entries_view(self.watchers@),
            supervisors: self.supervisors@.map_values(|e: (String, Supervisor)| (e.0@, e.1@)),
        }
    }
}

/// Index of the supervisor scoped to `path`, if any.
pub open spec fn supervisor_index(s: Seq<(Seq<char>, Seq<(u64, ChildSpec)>)>, path: Seq<char>) -> Option<
    int,
> {
    s.map_values(|e: (Seq<char>, Seq<(u64, ChildSpec)>)| e.0).index_of_first(path)
}

/// Whether `s` is a well-formed path.
pub fn is_valid_path(s: &str) -> (r: bool)
    ensures
        r == valid_path(s@),
{
    let n = s.unicode_len();
    if n == 0 {
        return false;
    }
    if s.get_char(n - 1) == '/' {
        return false;
    }
    let mut i: usize = 0;
    while i + 1 < n
        invariant
            n == s@.len(),
            n > 0,
            0 <= i < n,
            forall|k: int| 0 <= k < i && #[trigger] s@[k] == '/' ==> s@[k + 1] != '/',
        decreases n - i,
    {
        if s.get_char(i) == '/' && s.get_char(i + 1) == '/' {
            return false;
        }
        i = i + 1;
    }
    true
}

/// Whether `prefix` is a proper ancestor of `path`.
pub fn is_descendant(path: &str, prefix: &str) -> (r: bool)
    ensures
        r == descends(path@, prefix@),
{
    let n = path.unicode_len();
    let m = prefix.unicode_len();
    if m >= n {
        return false;
    }
    let mut i: usize = 0;
    while i < m
        invariant
            n == path@.len(),
            m == prefix@.len(),
            m < n,
            0 <= i <= m,
            forall|k: int| 0 <= k < i ==> path@[k] == prefix@[k],
        decreases m - i,
    {
        if path.get_char(i) != prefix.get_char(i) {
            proof {
                assert(path@.take(m as int)[i as int] != prefix@[i as int]);
            }
            return false;
        }
        i = i + 1;
    }
    proof {
        assert(path@.take(m as int) =~= prefix@);
    }
    path.get_char(m) == '/'
}

/// Whether `path` is an immediate child of `prefix`.
pub fn is_direct_child(path: &str, prefix: &str) -> (r: bool)
    ensures
        r == direct_child(path@, prefix@),
{
    if !is_descendant(path, prefix) {
        return false;
    }
    let n = path.unicode_len();
    let m = prefix.unicode_len();
    let mut i: usize = m + 1;
    while i < n
        invariant
            n == path@.len(),
            m == prefix@.len(),
            m < n,
            m + 1 <= i <= n,
            forall|k: int| m + 1 <= k < i ==> path@[k] != '/',
        decreases n - i,
    {
        if path.get_char(i) == '/' {
            proof {
                assert(path@.skip(m + 1 as int)[i - m - 1] == '/');
            }
            return false;
        }
        i = i + 1;
    }
    proof {
        let t = path@.skip(m + 1 as int);
        assert forall|k: int| 0 <= k < t.len() implies t[k] != '/' by {
            assert(t[k] == path@[k + m + 1]);
        }
    }
    true
}

fn keep_entry(e: &(String, u64), path: &str, pid: u64) -> (r: bool)
    ensures
        r == (e.1 != pid && e.0@ != path@),
{
    e.1 != pid && !str_eq(e.0.as_str(), path)
}

impl PathRegistryView {
    /// The bindings once `path` is bound to `pid`: earlier bindings of the
    /// path and of the PID are dropped, the new one goes last.
    pub open spec fn bound(self, path: Seq<char>, pid: u64) -> Seq<(Seq<char>, u64)> {
        self.entries.filter(neither(path, pid)).push((path, pid))
    }
}

impl PathRegistryView {
    /// Every path supervisor has at most one entry per PID.
    pub open spec fn wf(self) -> bool {
        forall|k: int|
            0 <= k < self.supervisors.len() ==> crate::supervisor::pids_of(
                (#[trigger] self.supervisors[k]).1,
            ).no_duplicates()
    }
}

impl PathRegistry {
    pub fn new() -> (r: PathRegistry)
        ensures
            r@.entries.len() == 0,
            r@.watchers.len() == 0,
            r@.supervisors.len() == 0,
    {
        PathRegistry { entries: Vec::new(), watchers: Vec::new(), supervisors: Vec::new() }
    }

    /// Bind a valid `path` to `pid`; every PID has at most one path and
    /// every path one PID.
    pub fn register_path(&mut self, path: String, pid: u64) -> (r: Result<(), PathError>)
        ensures
            !valid_path(path@) ==> r == Err::<(), PathError>(PathError::InvalidPath) && final(self)@
                == old(self)@,
            valid_path(path@) ==> r is Ok && final(self)@ == (PathRegistryView {
                entries: old(self)@.bound(path@, pid),
                ..old(self)@
            }),
    {
        if !is_valid_path(path.as_str()) {
            return Err(PathError::InvalidPath);
        }
        let ghost old_entries = old(self)@.entries;
        let ghost pred = neither(path@, pid);
        let mut kept: Vec<(String, u64)> = Vec::new();
        let mut i: usize = 0;
        while i < self.entries.len()
            invariant
                0 <= i <= self.entries@.len(),
                self@ == old(self)@,
                old_entries == entries_view(self.entries@),
                pred == neither(path@, pid),
                entries_view(kept@) == old_entries.take(i as int).filter(pred),
            decreases self.entries@.len() - i,
        {
            let ghost before = kept@;
            proof {
                lemma_filter_step(old_entries, i as int, pred);
                assert(old_entries[i as int] == entry_view(self.entries@[i as int]));
            }
            let keep = keep_entry(&self.entries[i], path.as_str(), pid);
            if keep {
                let e = (self.entries[i].0.clone(), self.entries[i].1);
                kept.push(e);
                proof {
                    assert(entries_view(kept@) =~= entries_view(before).push(entry_view(e)));
                }
            }
            i = i + 1;
        }
        proof {
            assert(old_entries.take(i as int) =~= old_entries);
        }
        let ghost before = kept@;
        let ghost pv = path@;
        kept.push((path, pid));
        proof {
            assert(entries_view(kept@) =~= entries_view(before).push((pv, pid)));
        }
        self.entries = kept;
        proof {
            assert(self@.entries == old(self)@.bound(pv, pid));
        }
        Ok(())
    }

    /// The PID bound to `path`, if any.
    pub fn whereis_path(&self, path: &str) -> (r: Option<u64>)
        ensures
            r == lookup(self@.entries, path@),
    {
        let ghost s = self@.entries;
        let mut r: Option<u64> = None;
        let mut i: usize = 0;
        while i < self.entries.len()
            invariant
                0 <= i <= self.entries@.len(),
                s == entries_view(self.entries@),
                r == lookup(s.take(i as int), path@),
            decreases self.entries@.len() - i,
        {
            if str_eq(self.entries[i].0.as_str(), path) {
                r = Some(self.entries[i].1);
            }
            i = i + 1;
            proof {
                assert(s.take(i as int).drop_last() =~= s.take(i - 1));
            }
        }
        proof {
            assert(s.take(i as int) =~= s);
        }
        r
    }

    /// Keep the bindings that `pred` accepts: those of another path when
    /// `by_path`, else those of another PID.
    fn retain_entries(&mut self, path: &str, pid: u64, by_path: bool, Ghost(pred): Ghost<
        spec_fn((Seq<char>, u64)) -> bool,
    >)
        requires
            forall|e: (Seq<char>, u64)| #[trigger] pred(e) == if by_path { e.0 != path@ } else { e.1 != pid },
        ensures
            final(self)@ == (PathRegistryView { entries: old(self)@.entries.filter(pred), ..old(self)@ }),
    {
        let ghost old_entries = old(self)@.entries;
        let mut kept: Vec<(String, u64)> = Vec::new();
        let mut i: usize = 0;
        while i < self.entries.len()
            invariant
                0 <= i <= self.entries@.len(),
                self@ == old(self)@,
                old_entries == entries_view(self.entries@),
                forall|e: (Seq<char>, u64)| #[trigger] pred(e) == if by_path { e.0 != path@ } else { e.1 != pid },
                entries_view(kept@) == old_entries.take(i as int).filter(pred),
            decreases self.entries@.len() - i,
        {
            let ghost before = kept@;
            proof {
                lemma_filter_step(old_entries, i as int, pred);
                assert(old_entries[i as int] == entry_view(self.entries@[i as int]));
            }
            let keep = if by_path {
                !str_eq(self.entries[i].0.as_str(), path)
            } else {
                self.entries[i].1 != pid
            };
            if keep {
                let e = (self.entries[i].0.clone(), self.entries[i].1);
                kept.push(e);
                proof {
                    assert(entries_view(kept@) =~= entries_view(before).push(entry_view(e)));
                }
            }
            i = i + 1;
        }
        proof {
            assert(old_entries.take(i as int) =~= old_entries);
        }
        self.entries = kept;
    }

    /// Remove the binding of `path`, if any.
    pub fn unregister_path(&mut self, path: &str)
        ensures
            final(self)@ == (PathRegistryView {
                entries: old(self)@.entries.filter(not_path(path@)),
                ..old(self)@
            }),
    {
        self.retain_entries(path, 0, true, Ghost(not_path(path@)));
    }

    /// Remove the bindings of `pid`, as when it exits.
    pub fn unregister_pid(&mut self, pid: u64)
        ensures
            final(self)@ == (PathRegistryView {
                entries: old(self)@.entries.filter(not_pid(pid)),
                ..old(self)@
            }),
    {
        self.retain_entries("", pid, false, Ghost(not_pid(pid)));
    }

    fn select(&self, prefix: &str, direct: bool) -> (r: Vec<(String, u64)>)
        ensures
            entries_view(r@) == self@.entries.filter(below(prefix@, direct)),
    {
        let ghost s = self@.entries;
        let ghost pred = below(prefix@, direct);
        let mut out: Vec<(String, u64)> = Vec::new();
        let mut i: usize = 0;
        while i < self.entries.len()
            invariant
                0 <= i <= self.entries@.len(),
                s == entries_view(self.entries@),
                pred == below(prefix@, direct),
                entries_view(out@) == s.take(i as int).filter(pred),
            decreases self.entries@.len() - i,
        {
            let ghost before = out@;
            proof {
                lemma_filter_step(s, i as int, pred);
                assert(s[i as int] == entry_view(self.entries@[i as int]));
            }
            let p = self.entries[i].0.as_str();
            let hit = if direct { is_direct_child(p, prefix) } else { is_descendant(p, prefix) };
            if hit {
                let e = (self.entries[i].0.clone(), self.entries[i].1);
                out.push(e);
                proof {
                    assert(entries_view(out@) =~= entries_view(before).push(entry_view(e)));
                }
            }
            i = i + 1;
        }
        proof {
            assert(s.take(i as int) =~= s);
        }
        out
    }

    /// Subscribe `subscriber` to bindings made or dropped under `prefix`.
    pub fn watch_path(&mut self, prefix: String, subscriber: u64) -> (r: Result<(), PathError>)
        ensures
            !valid_path(prefix@) ==> r == Err::<(), PathError>(PathError::InvalidPath) && final(self)@
                == old(self)@,
            valid_path(prefix@) ==> r is Ok && final(self)@ == (PathRegistryView {
                watchers: old(self)@.watchers.push((prefix@, subscriber)),
                ..old(self)@
            }),
    {
        if !is_valid_path(prefix.as_str()) {
            return Err(PathError::InvalidPath);
        }
        let ghost pv = prefix@;
        self.watchers.push((prefix, subscriber));
        proof {
            assert(self@.watchers =~= old(self)@.watchers.push((pv, subscriber)));
        }
        Ok(())
    }

    /// The subscribers to tell of a change at `path`, in the order they
    /// subscribed (one entry per subscription).
    pub fn watchers_of(&self, path: &str) -> (r: Vec<u64>)
        ensures
            r@ == self@.watchers.filter(covers(path@)).map_values(|e: (Seq<char>, u64)| e.1),
    {
        let ghost s = self@.watchers;
        let ghost pred = covers(path@);
        let mut out: Vec<u64> = Vec::new();
        let mut i: usize = 0;
        while i < self.watchers.len()
            invariant
                0 <= i <= self.watchers@.len(),
                s == entries_view(self.watchers@),
                pred == covers(path@),
                out@ == s.take(i as int).filter(pred).map_values(|e: (Seq<char>, u64)| e.1),
            decreases self.watchers@.len() - i,
        {
            proof {
                lemma_filter_step(s, i as int, pred);
                assert(s[i as int] == entry_view(self.watchers@[i as int]));
            }
            let p = self.watchers[i].0.as_str();
            let hit = str_eq(p, path) || is_descendant(path, p);
            if hit {
                out.push(self.watchers[i].1);
            }
            i = i + 1;
            proof {
                assert(out@ =~= s.take(i as int).filter(pred).map_values(|e: (Seq<char>, u64)| e.1));
            }
        }
        proof {
            assert(s.take(i as int) =~= s);
        }
        out
    }

    fn find_supervisor(&self, path: &str) -> (r: Option<usize>)
        ensures
            r matches Some(i) ==> supervisor_index(self@.supervisors, path@) == Some(i as int) && i
                < self@.supervisors.len(),
            r is None ==> supervisor_index(self@.supervisors, path@) is None,
    {
        let ghost keys = self@.supervisors.map_values(|e: (Seq<char>, Seq<(u64, ChildSpec)>)| e.0);
        let mut i: usize = 0;
        while i < self.supervisors.len()
            invariant
                0 <= i <= self.supervisors@.len(),
                keys == self@.supervisors.map_values(|e: (Seq<char>, Seq<(u64, ChildSpec)>)| e.0),
                forall|k: int| 0 <= k < i ==> keys[k] != path@,
            decreases self.supervisors@.len() - i,
        {
            if str_eq(self.supervisors[i].0.as_str(), path) {
                proof {
                    keys.index_of_first_ensures(path@);
                    assert(keys[i as int] == path@);
                }
                return Some(i);
            }
            i = i + 1;
        }
        proof {
            keys.index_of_first_ensures(path@);
        }
        None
    }

    /// Scope a supervisor to a valid `path`; nothing changes if there is one.
    pub fn create_path_supervisor(&mut self, path: String) -> (r: Result<(), PathError>)
        requires
            old(self)@.wf(),
        ensures
            final(self)@.wf(),
            !valid_path(path@) ==> r == Err::<(), PathError>(PathError::InvalidPath) && final(self)@
                == old(self)@,
            valid_path(path@) ==> r is Ok,
            valid_path(path@) && supervisor_index(old(self)@.supervisors, path@) is Some ==> final(self)@
                == old(self)@,
            valid_path(path@) && supervisor_index(old(self)@.supervisors, path@) is None ==> final(self)@
                == (PathRegistryView {
                supervisors: old(self)@.supervisors.push((path@, Seq::empty())),
                ..old(self)@
            }),
    {
        if !is_valid_path(path.as_str()) {
            return Err(PathError::InvalidPath);
        }
        if self.find_supervisor(path.as_str()).is_some() {
            return Ok(());
        }
        let ghost pv = path@;
        let sup = Supervisor::new();
        self.supervisors.push((path, sup));
        proof {
            assert(self@.supervisors =~= old(self)@.supervisors.push((pv, Seq::empty())));
            assert(crate::supervisor::pids_of(Seq::<(u64, ChildSpec)>::empty()) =~= Seq::<u64>::empty());
        }
        Ok(())
    }

    /// Drop the supervisor scoped to `path`, if any.
    pub fn remove_path_supervisor(&mut self, path: &str)
        requires
            old(self)@.wf(),
        ensures
            final(self)@.wf(),
            supervisor_index(old(self)@.supervisors, path@) matches Some(i) ==> final(self)@
                == (PathRegistryView { supervisors: old(self)@.supervisors.remove(i), ..old(self)@ }),
            supervisor_index(old(self)@.supervisors, path@) is None ==> final(self)@ == old(self)@,
    {
        match self.find_supervisor(path) {
            Some(i) => {
                self.supervisors.remove(i);
                proof {
                    assert(self@.supervisors =~= old(self)@.supervisors.remove(i as int));
                    assert forall|k: int| 0 <= k < self@.supervisors.len() implies crate::supervisor::pids_of(
                        (#[trigger] self@.supervisors[k]).1,
                    ).no_duplicates() by {
                        let k2 = if k < i { k } else { k + 1 };
                        assert(self@.supervisors[k] == old(self)@.supervisors[k2]);
                    }
                }
            },
            None => {},
        }
    }

    /// Put `pid` under the supervisor scoped to `path`.
    pub fn path_supervise(&mut self, path: &str, pid: u64, spec: ChildSpec) -> (r: Result<(), PathError>)
        requires
            old(self)@.wf(),
        ensures
            final(self)@.wf(),
            supervisor_index(old(self)@.supervisors, path@) is None ==> r == Err::<(), PathError>(
                PathError::NoSupervisor,
            ) && final(self)@ == old(self)@,
            supervisor_index(old(self)@.supervisors, path@) matches Some(i) ==> ({
                let c = old(self)@.supervisors[i].1;
                &&& r is Ok
                &&& final(self)@.entries == old(self)@.entries
                &&& final(self)@.watchers == old(self)@.watchers
                &&& final(self)@.supervisors.len() == old(self)@.supervisors.len()
                &&& forall|k: int|
                    0 <= k < old(self)@.supervisors.len() && k != i ==> final(self)@.supervisors[k]
                        == old(self)@.supervisors[k]
                &&& final(self)@.supervisors[i].0 == old(self)@.supervisors[i].0
                &&& entry_index(c, pid) matches Some(j) ==> final(self)@.supervisors[i].1 == c.update(
                    j,
                    (pid, spec),
                )
                &&& entry_index(c, pid) is None ==> final(self)@.supervisors[i].1 == c.push((pid, spec))
            }),
    {
        let i = match self.find_supervisor(path) {
            Some(i) => i,
            None => { return Err(PathError::NoSupervisor); },
        };
        proof {
            assert(self@.supervisors[i as int].1 == self.supervisors@[i as int].1@);
        }
        self.supervisors[i].1.add_child(pid, spec);
        proof {
            assert(self@.supervisors[i as int].1 == self.supervisors@[i as int].1@);
            assert(self@.entries == old(self)@.entries);
            assert(self@.watchers == old(self)@.watchers);
            assert forall|k: int| 0 <= k < self@.supervisors.len() implies crate::supervisor::pids_of(
                (#[trigger] self@.supervisors[k]).1,
            ).no_duplicates() by {
                if k != i {
                    assert(self@.supervisors[k] == old(self)@.supervisors[k]);
                }
            }
        }
        Ok(())
    }

    /// The PIDs under the supervisor scoped to `path`; empty if there is none.
    pub fn path_supervisor_children(&self, path: &str) -> (r: Vec<u64>)
        ensures
            supervisor_index(self@.supervisors, path@) matches Some(i) ==> r@ == crate::supervisor::pids_of(
                self@.supervisors[i].1,
            ),
            supervisor_index(self@.supervisors, path@) is None ==> r@.len() == 0,
    {
        match self.find_supervisor(path) {
            Some(i) => self.supervisors[i].1.child_pids(),
            None => Vec::new(),
        }
    }

    /// The decision of the supervisor scoped to `path` when `pid` exited.
    pub fn path_supervisor_on_exit(&self, path: &str, pid: u64) -> (r: RestartPlan)
        requires
            self@.wf(),
        ensures
            supervisor_index(self@.supervisors, path@) is None ==> r == RestartPlan::Ignore,
            supervisor_index(self@.supervisors, path@) matches Some(i) ==> ({
                let c = self@.supervisors[i].1;
                &&& entry_index(c, pid) is None ==> r == RestartPlan::Ignore
                &&& entry_index(c, pid) matches Some(j) ==> {
                    &&& c[j].1.strategy == RestartStrategy::RestartOne ==> r == (RestartPlan::RestartOne {
                        factory: c[j].1.factory,
                    })
                    &&& c[j].1.strategy == RestartStrategy::RestartAll ==> (r matches RestartPlan::RestartAll {
                        children,
                    } && children@ == c.map_values(|e: (u64, ChildSpec)| (e.0, e.1.factory)))
                }
            }),
    {
        match self.find_supervisor(path) {
            Some(i) => {
                proof {
                    assert(self@.supervisors[i as int].1 == self.supervisors@[i as int].1@);
                    assert(crate::supervisor::pids_of(self@.supervisors[i as int].1).no_duplicates());
                }
                self.supervisors[i].1.on_exit(pid)
            },
            None => RestartPlan::Ignore,
        }
    }

    /// Every binding whose path has `prefix` as a proper ancestor.
    pub fn list_children(&self, prefix: &str) -> (r: Vec<(String, u64)>)
        ensures
            entries_view(r@) == self@.entries.filter(below(prefix@, false)),
    {
        self.select(prefix, false)
    }

    /// Every binding whose path is an immediate child of `prefix`.
    pub fn list_children_direct(&self, prefix: &str) -> (r: Vec<(String, u64)>)
        ensures
            entries_view(r@) == self@.entries.filter(below(prefix@, true)),
    {
        self.select(prefix, true)
    }
}

} // verus!
