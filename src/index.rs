//! The in-memory index: from each live key to the offset of its latest value.

use vstd::prelude::*;

verus! {

/// What `m` holds for `k`, if anything.
pub open spec fn lookup(m: Map<Seq<u8>, u64>, k: Seq<u8>) -> Option<u64> {
    if m.contains_key(k) {
        Some(m[k])
    } else {
        None
    }
}

/// Whether `a` and `b` hold the same bytes.
pub fn same_bytes(a: &[u8], b: &[u8]) -> (r: bool)
    ensures
        r == (a@ == b@),
{
    if a.len() != b.len() {
        return false;
    }
    let mut i: usize = 0;
    while i < a.len()
        invariant
            a@.len() == b@.len(),
            i <= a@.len(),
            forall|j: int| 0 <= j < i ==> a@[j] == b@[j],
        decreases a@.len() - i,
    {
        if a[i] != b[i] {
            return false;
        }
        i = i + 1;
    }
    assert(a@ =~= b@);
    true
}

/// A map from keys to log offsets, kept as a list of entries with distinct keys.
pub struct KeyIndex {
    entries: Vec<(Vec<u8>, u64)>,
    model: Ghost<Map<Seq<u8>, u64>>,
}

impl View for KeyIndex {
    type V = Map<Seq<u8>, u64>;

    closed spec fn view(&self) -> Map<Seq<u8>, u64> {
        self.model@
    }
}

impl KeyIndex {
    /// The entries have distinct keys and hold exactly the map of the view.
    pub closed spec fn wf(&self) -> bool {
        &&& forall|i: int, j: int|
            0 <= i < j < self.entries@.len() ==> #[trigger] self.entries@[i].0@
                != #[trigger] self.entries@[j].0@
        &&& forall|i: int|
            0 <= i < self.entries@.len() ==> self.model@.contains_key(
                #[trigger] self.entries@[i].0@,
            ) && self.model@[self.entries@[i].0@] == self.entries@[i].1
        &&& forall|k: Seq<u8>|
            #[trigger] self.model@.contains_key(k) ==> exists|i: int|
                0 <= i < self.entries@.len() && #[trigger] self.entries@[i].0@ == k
    }

    /// An index with no keys.
    pub fn new() -> (r: KeyIndex)
        ensures
            r.wf(),
            r@ == Map::<Seq<u8>, u64>::empty(),
    {
        KeyIndex { entries: Vec::new(), model: Ghost(Map::empty()) }
    }

    /// The position of the entry for `key`.
    fn find(&self, key: &[u8]) -> (r: Option<usize>)
        requires
            self.wf(),
        ensures
            match r {
                Some(i) => i < self.entries@.len() && self.entries@[i as int].0@ == key@,
                None => !self@.contains_key(key@),
            },
    {
        let mut i: usize = 0;
        while i < self.entries.len()
            invariant
                self.wf(),
                i <= self.entries@.len(),
                forall|j: int| 0 <= j < i ==> #[trigger] self.entries@[j].0@ != key@,
            decreases self.entries@.len() - i,
        {
            if same_bytes(self.entries[i].0.as_slice(), key) {
                return Some(i);
            }
            i = i + 1;
        }
        None
    }

    /// The offset stored for `key`.
    pub fn get(&self, key: &[u8]) -> (r: Option<u64>)
        requires
            self.wf(),
        ensures
            r == lookup(self@, key@),
    {
        match self.find(key) {
            Some(i) => Some(self.entries[i].1),
            None => None,
        }
    }

    /// Removes `key`, returning the offset it had.
    pub fn remove(&mut self, key: &[u8]) -> (r: Option<u64>)
        requires
            old(self).wf(),
        ensures
            final(self).wf(),
            final(self)@ == old(self)@.remove(key@),
            r == lookup(old(self)@, key@),
    {
        match self.find(key) {
            Some(i) => {
                let ghost old_entries = self.entries@;
                let e = self.entries.remove(i);
                self.model = Ghost(self.model@.remove(key@));
                assert forall|j: int| 0 <= j < self.entries@.len() implies #[trigger] self.entries@[j]
                    == old_entries[if j < i { j } else { j + 1 }] by {}
                assert forall|k: Seq<u8>| #[trigger] self.model@.contains_key(k) implies exists|
                    j: int,
                | 0 <= j < self.entries@.len() && #[trigger] self.entries@[j].0@ == k by {
                    let j0 = choose|j: int| 0 <= j < old_entries.len() && #[trigger] old_entries[j].0@ == k;
                    if j0 < i {
                        assert(self.entries@[j0].0@ == k);
                    } else {
                        assert(self.entries@[j0 - 1].0@ == k);
                    }
                }
                Some(e.1)
            },
            None => {
                assert(self.model@ =~= self.model@.remove(key@));
                None
            },
        }
    }

    /// Sets the offset of `key`, returning the offset it had.
    pub fn insert(&mut self, key: Vec<u8>, offset: u64) -> (r: Option<u64>)
        requires
            old(self).wf(),
        ensures
            final(self).wf(),
            final(self)@ == old(self)@.insert(key@, offset),
            r == lookup(old(self)@, key@),
    {
        let r = self.remove(key.as_slice());
        let ghost mid = self.entries@;
        self.entries.push((key, offset));
        self.model = Ghost(self.model@.insert(key@, offset));
        assert forall|k: Seq<u8>| #[trigger] self.model@.contains_key(k) implies exists|j: int|
            0 <= j < self.entries@.len() && #[trigger] self.entries@[j].0@ == k by {
            if k == key@ {
                assert(self.entries@[mid.len() as int].0@ == k);
            } else {
                let j0 = choose|j: int| 0 <= j < mid.len() && #[trigger] mid[j].0@ == k;
                assert(self.entries@[j0].0@ == k);
            }
        }
        proof {
            assert(old(self)@.remove(key@).insert(key@, offset) =~= old(self)@.insert(key@, offset));
        }
        r
    }
}

} // verus!
