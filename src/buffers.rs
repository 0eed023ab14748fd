//! Registry of out-of-band payload buffers: allocation hands out an id,
//! taking a buffer transfers it out of the registry, so it can be taken once.
use vstd::prelude::*;

verus! {

pub struct BufferRegistry {
    next_id: u64,
    entries: Vec<(u64, Vec<u8>)>,
}

pub open spec fn buffer_index(s: Seq<(u64, Seq<u8>)>, id: u64) -> Option<int> {
    s.map_values(|e: (u64, Seq<u8>)| e.0).index_of_first(id)
}

impl View for BufferRegistry {
    type V = Seq<(u64, Seq<u8>)>;

    closed spec fn view(&self) -> Seq<(u64, Seq<u8>)> {
        self.entries@.map_values(|e: (u64, Vec<u8>)| (e.0, e.1@))
    }
}

impl BufferRegistry {
    /// The id the next allocation gets; ids start at 1 and are not reused.
    pub closed spec fn next(&self) -> u64 {
        self.next_id
    }

    pub closed spec fn wf(&self) -> bool {
        &&& self.next_id >= 1
        &&& forall|k: int| 0 <= k < self@.len() ==> 1 <= (#[trigger] self@[k]).0 < self.next_id
        &&& self@.map_values(|e: (u64, Seq<u8>)| e.0).no_duplicates()
    }

    pub fn new() -> (r: BufferRegistry)
        ensures
            r.wf(),
            r@.len() == 0,
            r.next() == 1,
    {
        let r = BufferRegistry { next_id: 1, entries: Vec::new() };
        proof {
            assert(r@ =~= Seq::<(u64, Seq<u8>)>::empty());
            assert(r@.map_values(|e: (u64, Seq<u8>)| e.0) =~= Seq::<u64>::empty());
        }
        r
    }

    pub fn next_id(&self) -> (r: u64)
        ensures
            r == self.next(),
    {
        self.next_id
    }

    /// A new zero-filled buffer of `size` bytes.
    pub fn allocate(&mut self, size: usize) -> (r: u64)
        requires
            old(self).wf(),
            old(self).next() < u64::MAX,
        ensures
            final(self).wf(),
            r == old(self).next(),
            final(self).next() == r + 1,
            final(self)@ == old(self)@.push((r, Seq::new(size as nat, |k: int| 0u8))),
            buffer_index(final(self)@, r) == Some(old(self)@.len() as int),
    {
        let mut b: Vec<u8> = Vec::new();
        let mut i: usize = 0;
        while i < size
            invariant
                0 <= i <= size,
                b@ == Seq::new(i as nat, |k: int| 0u8),
            decreases size - i,
        {
            b.push(0u8);
            i = i + 1;
            proof {
                assert(b@ =~= Seq::new(i as nat, |k: int| 0u8));
            }
        }
        let id = self.next_id;
        let ghost ids0 = self@.map_values(|e: (u64, Seq<u8>)| e.0);
        let ghost bv = b@;
        self.entries.push((id, b));
        self.next_id = id + 1;
        proof {
            assert(self@ =~= old(self)@.push((id, bv)));
            let ids = self@.map_values(|e: (u64, Seq<u8>)| e.0);
            assert(ids =~= ids0.push(id));
            assert forall|a: int, c: int| 0 <= a < ids.len() && 0 <= c < ids.len() && a != c implies ids[a]
                != ids[c] by {
                if a < ids0.len() && c < ids0.len() {
                    assert(ids0[a] != ids0[c]);
                } else if a < ids0.len() {
                    assert(old(self)@[a].0 < id);
                } else if c < ids0.len() {
                    assert(old(self)@[c].0 < id);
                }
            }
            ids.index_of_first_ensures(id);
            assert(ids[ids0.len() as int] == id);
            if let Some(j) = ids.index_of_first(id) {
                if j < ids0.len() {
                    assert(old(self)@[j].0 < id);
                }
            }
        }
        id
    }

    fn find(&self, id: u64) -> (r: Option<usize>)
        ensures
            r matches Some(i) ==> buffer_index(self@, id) == Some(i as int) && i < self@.len() && self@[i as int].0
                == id,
            r is None ==> buffer_index(self@, id) is None,
    {
        let ghost ids = self@.map_values(|e: (u64, Seq<u8>)| e.0);
        let mut i: usize = 0;
        while i < self.entries.len()
            invariant
                0 <= i <= self@.len(),
                ids == self@.map_values(|e: (u64, Seq<u8>)| e.0),
                forall|k: int| 0 <= k < i ==> ids[k] != id,
            decreases self@.len() - i,
        {
            if self.entries[i].0 == id {
                proof {
                    ids.index_of_first_ensures(id);
                    assert(ids[i as int] == id);
                }
                return Some(i);
            }
            i = i + 1;
        }
        proof {
            ids.index_of_first_ensures(id);
        }
        None
    }

    /// Length of buffer `id`, if it is still here.
    pub fn len_of(&self, id: u64) -> (r: Option<usize>)
        ensures
            buffer_index(self@, id) matches Some(i) ==> (r matches Some(n) && n == self@[i].1.len()),
            buffer_index(self@, id) is None ==> r is None,
    {
        match self.find(id) {
            Some(i) => Some(self.entries[i].1.len()),
            None => None,
        }
    }

    /// Copy `data` into buffer `id` from `offset`; false, with nothing
    /// written, when the buffer is gone or too short.
    pub fn write(&mut self, id: u64, offset: usize, data: &[u8]) -> (r: bool)
        requires
            old(self).wf(),
        ensures
            final(self).wf(),
            final(self).next() == old(self).next(),
            buffer_index(old(self)@, id) is None ==> !r && final(self)@ == old(self)@,
            buffer_index(old(self)@, id) matches Some(i) ==> ({
                let b = old(self)@[i].1;
                &&& r == (offset + data@.len() <= b.len())
                &&& !r ==> final(self)@ == old(self)@
                &&& r ==> final(self)@ == old(self)@.update(
                    i,
                    (id, b.take(offset as int) + data@ + b.skip(offset + data@.len())),
                )
            }),
    {
        let i = match self.find(id) {
            Some(i) => i,
            None => { return false; },
        };
        let n = self.entries[i].1.len();
        if offset > n || data.len() > n - offset {
            return false;
        }
        let ghost b0 = self@[i as int].1;
        let ghost ids0 = self@.map_values(|e: (u64, Seq<u8>)| e.0);
        let mut k: usize = 0;
        while k < data.len()
            invariant
                i < self.entries@.len(),
                offset + data@.len() <= n,
                n == b0.len(),
                0 <= k <= data@.len(),
                self.entries@.len() == old(self).entries@.len(),
                self.next_id == old(self).next_id,
                forall|j: int| 0 <= j < self.entries@.len() && j != i ==> self.entries@[j] == old(self).entries@[j],
                self.entries@[i as int].0 == id,
                self.entries@[i as int].1@ == b0.take(offset as int) + data@.take(k as int) + b0.skip(offset + k),
            decreases data@.len() - k,
        {
            self.entries[i].1.set(offset + k, data[k]);
            k = k + 1;
            proof {
                assert(self.entries@[i as int].1@ =~= b0.take(offset as int) + data@.take(k as int) + b0.skip(
                    offset + k,
                ));
            }
        }
        proof {
            assert(data@.take(k as int) =~= data@);
            assert forall|j: int| 0 <= j < self@.len() implies #[trigger] self@[j].0 == old(self)@[j].0 by {
                if j != i {
                    assert(self.entries@[j] == old(self).entries@[j]);
                }
            }
            assert(self@ =~= old(self)@.update(
                i as int,
                (id, b0.take(offset as int) + data@ + b0.skip(offset + data@.len())),
            ));
            assert(self@.map_values(|e: (u64, Seq<u8>)| e.0) =~= ids0);
        }
        true
    }

    /// Take buffer `id` out of the registry; a second take finds nothing.
    pub fn take(&mut self, id: u64) -> (r: Option<Vec<u8>>)
        requires
            old(self).wf(),
        ensures
            final(self).wf(),
            final(self).next() == old(self).next(),
            buffer_index(old(self)@, id) is None ==> r is None && final(self)@ == old(self)@,
            buffer_index(old(self)@, id) matches Some(i) ==> (r matches Some(b) && b@ == old(self)@[i].1)
                && final(self)@ == old(self)@.remove(i),
            buffer_index(final(self)@, id) is None,
    {
        let i = match self.find(id) {
            Some(i) => i,
            None => { return None; },
        };
        let ghost ids0 = self@.map_values(|e: (u64, Seq<u8>)| e.0);
        let (_, b) = self.entries.remove(i);
        proof {
            assert(self@ =~= old(self)@.remove(i as int));
            let ids = self@.map_values(|e: (u64, Seq<u8>)| e.0);
            assert(ids =~= ids0.remove(i as int));
            assert forall|a: int, c: int| 0 <= a < ids.len() && 0 <= c < ids.len() && a != c implies ids[a]
                != ids[c] by {
                let a2 = if a < i { a } else { a + 1 };
                let c2 = if c < i { c } else { c + 1 };
                assert(ids0[a2] != ids0[c2]);
            }
            assert forall|k: int| 0 <= k < self@.len() implies 1 <= (#[trigger] self@[k]).0 < self.next_id by {
                let k2 = if k < i { k } else { k + 1 };
                assert(self@[k] == old(self)@[k2]);
            }
            assert(ids0[i as int] == id);
            ids.index_of_first_ensures(id);
            if let Some(j) = ids.index_of_first(id) {
                let j2 = if j < i { j } else { j + 1 };
                assert(ids[j] == ids0[j2]);
                assert(ids0[j2] != ids0[i as int]);
            }
        }
        Some(b)
    }

    /// Release buffer `id`; true if it was here.
    pub fn free(&mut self, id: u64) -> (r: bool)
        requires
            old(self).wf(),
        ensures
            final(self).wf(),
            final(self).next() == old(self).next(),
            r == buffer_index(old(self)@, id) is Some,
            buffer_index(old(self)@, id) matches Some(i) ==> final(self)@ == old(self)@.remove(i),
            buffer_index(old(self)@, id) is None ==> final(self)@ == old(self)@,
            buffer_index(final(self)@, id) is None,
    {
        self.take(id).is_some()
    }
}

} // verus!
