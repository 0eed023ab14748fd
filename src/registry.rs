//! Flat name registry: each name maps to one PID; the last writer wins.
use dashmap::DashMap;
use vstd::prelude::*;

verus! {

#[verifier::external_type_specification]
#[verifier::external_body]
#[verifier::reject_recursive_types(K)]
#[verifier::reject_recursive_types(V)]
#[verifier::reject_recursive_types(S)]
pub struct ExDashMap<K, V, S>(DashMap<K, V, S>);

/// Names, by their characters, and the PID each is bound to.
pub type NameMap = Map<Seq<char>, u64>;

/// The entries of a name table, by the characters of each name.
pub uninterp spec fn name_entries(m: DashMap<String, u64>) -> Map<Seq<char>, u64>;

/// Relies on `DashMap::new`: the map starts empty.
#[verifier::external_body]
fn table_new() -> (r: DashMap<String, u64>)
    ensures
        name_entries(r) == NameMap::empty(),
{
    DashMap::new()
}

/// Relies on `DashMap::insert`: the key now maps to the value, the other
/// entries stay.
#[verifier::external_body]
fn table_insert(m: &mut DashMap<String, u64>, name: String, pid: u64)
    ensures
        name_entries(*final(m)) == name_entries(*old(m)).insert(name@, pid),
{
    m.insert(name, pid);
}

/// Relies on `DashMap::get`: the value stored under the key, if any.
#[verifier::external_body]
fn table_get(m: &DashMap<String, u64>, name: &str) -> (r: Option<u64>)
    ensures
        name_entries(*m).contains_key(name@) ==> r == Some(name_entries(*m)[name@]),
        !name_entries(*m).contains_key(name@) ==> r is None,
{
    m.get(name).map(|p| *p)
}

/// Relies on `DashMap::remove`: the key no longer has an entry, the others
/// stay.
#[verifier::external_body]
fn table_remove(m: &mut DashMap<String, u64>, name: &str)
    ensures
        name_entries(*final(m)) == name_entries(*old(m)).remove(name@),
{
    m.remove(name);
}

/// Relies on `DashMap::retain`: exactly the entries for which the closure
/// answers true stay.
#[verifier::external_body]
fn table_drop_pid(m: &mut DashMap<String, u64>, pid: u64)
    ensures
        name_entries(*final(m)) == without_pid(name_entries(*old(m)), pid),
{
    m.retain(|_, v| keeps_entry(*v, pid));
}

/// An entry holding `v` survives the removal of `pid`.
pub fn keeps_entry(v: u64, pid: u64) -> (r: bool)
    ensures
        r == (v != pid),
{
    v != pid
}

/// `m` without the entries that map to `pid`.
pub open spec fn without_pid(m: Map<Seq<char>, u64>, pid: u64) -> Map<Seq<char>, u64> {
    m.restrict(m.dom().filter(|k: Seq<char>| m[k] != pid))
}

pub struct NameRegistry {
    names: DashMap<String, u64>,
}

impl View for NameRegistry {
    type V = Map<Seq<char>, u64>;

    closed spec fn view(&self) -> Map<Seq<char>, u64> {
        name_entries(self.names)
    }
}

impl NameRegistry {
    pub fn new() -> (r: NameRegistry)
        ensures
            r@ == Map::<Seq<char>, u64>::empty(),
    {
        NameRegistry { names: table_new() }
    }

    /// Bind `name` to `pid`, replacing any earlier binding of `name`.
    pub fn register(&mut self, name: String, pid: u64)
        ensures
            final(self)@ == old(self)@.insert(name@, pid),
    {
        table_insert(&mut self.names, name, pid);
    }

    pub fn resolve(&self, name: &str) -> (r: Option<u64>)
        ensures
            self@.contains_key(name@) ==> r == Some(self@[name@]),
            !self@.contains_key(name@) ==> r is None,
    {
        table_get(&self.names, name)
    }

    /// Remove the binding of `name`; nothing happens if there is none.
    pub fn unregister(&mut self, name: &str)
        ensures
            final(self)@ == old(self)@.remove(name@),
    {
        table_remove(&mut self.names, name);
    }

    /// Remove every binding to `pid`.
    pub fn unregister_pid(&mut self, pid: u64)
        ensures
            final(self)@ == without_pid(old(self)@, pid),
    {
        table_drop_pid(&mut self.names, pid);
    }
}

} // verus!
