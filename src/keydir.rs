//! The in-memory index from each key to the location of its latest value.
use vstd::prelude::*;

verus! {

/// Where the latest value of a key lives on disk.
#[derive(Debug, Clone, Copy, PartialEq, Eq, Structural)]
pub struct KeydirEntry {
    /// Identifier of the data file (its creation number).
    pub file_id: u64,
    /// Length of the value in bytes.
    pub value_size: u32,
    /// Offset in the data file at which the value bytes begin.
    pub value_pos: u64,
    /// Write time of the record.
    pub timestamp: u64,
}

/// Compares two byte strings.
pub fn bytes_eq(a: &Vec<u8>, b: &Vec<u8>) -> (r: bool)
    ensures
        r == (a@ == b@),
{
    if a.len() != b.len() {
        return false;
    }
    let mut i: usize = 0;
    while i < a.len()
        invariant
            i <= a@.len() == b@.len(),
            a@.subrange(0, i as int) == b@.subrange(0, i as int),
        decreases a@.len() - i,
    {
        if a[i] != b[i] {
            assert(a@.subrange(0, i as int + 1)[i as int] != b@.subrange(0, i as int + 1)[i as int]);
            assert(a@[i as int] != b@[i as int]);
            return false;
        }
        assert(a@.subrange(0, i + 1) =~= a@.subrange(0, i as int).push(a@[i as int]));
        assert(b@.subrange(0, i + 1) =~= b@.subrange(0, i as int).push(b@[i as int]));
        i = i + 1;
    }
    assert(a@ =~= a@.subrange(0, i as int));
    assert(b@ =~= b@.subrange(0, i as int));
    true
}

/// The index: parallel vectors of distinct keys and their entries.
pub struct Keydir {
    keys: Vec<Vec<u8>>,
    entries: Vec<KeydirEntry>,
    map: Ghost<Map<Seq<u8>, KeydirEntry>>,
}

impl Keydir {
    pub closed spec fn view(&self) -> Map<Seq<u8>, KeydirEntry> {
        self.map@
    }

    pub closed spec fn wf(&self) -> bool {
        &&& self.keys@.len() == self.entries@.len()
        &&& forall|i: int, j: int|
            0 <= i < j < self.keys@.len() ==> self.keys@[i]@ != self.keys@[j]@
        &&& forall|i: int|
            0 <= i < self.keys@.len() ==> #[trigger] self.map@.contains_key(self.keys@[i]@)
                && self.map@[self.keys@[i]@] == self.entries@[i]
        &&& forall|k: Seq<u8>|
            #[trigger] self.map@.contains_key(k) ==> exists|i: int|
                0 <= i < self.keys@.len() && self.keys@[i]@ == k
    }

    pub fn new() -> (r: Keydir)
        ensures
            r.wf(),
            r@ == Map::<Seq<u8>, KeydirEntry>::empty(),
    {
        Keydir { keys: Vec::new(), entries: Vec::new(), map: Ghost(Map::empty()) }
    }

    fn find(&self, key: &Vec<u8>) -> (r: Option<usize>)
        requires
            self.wf(),
        ensures
            r matches Some(i) ==> i < self.keys@.len() && self.keys@[i as int]@ == key@,
            r is None ==> !self@.contains_key(key@),
    {
        let mut i: usize = 0;
        while i < self.keys.len()
            invariant
                self.wf(),
                i <= self.keys@.len(),
                forall|j: int| 0 <= j < i ==> self.keys@[j]@ != key@,
            decreases self.keys@.len() - i,
        {
            if bytes_eq(&self.keys[i], key) {
                return Some(i);
            }
            i = i + 1;
        }
        None
    }

    /// The entry of `key`, if it has one.
    pub fn get(&self, key: &Vec<u8>) -> (r: Option<KeydirEntry>)
        requires
            self.wf(),
        ensures
            r is Some <==> self@.contains_key(key@),
            r matches Some(e) ==> e == self@[key@],
    {
        match self.find(key) {
            Some(i) => {
                assert(self.map@.contains_key(self.keys@[i as int]@));
                Some(self.entries[i])
            },
            None => None,
        }
    }

    /// Sets the entry of `key`, replacing any earlier one.
    pub fn put(&mut self, key: Vec<u8>, entry: KeydirEntry)
        requires
            old(self).wf(),
        ensures
            final(self).wf(),
            final(self)@ == old(self)@.insert(key@, entry),
    {
        match self.find(&key) {
            Some(i) => {
                self.entries.set(i, entry);
                self.map = Ghost(self.map@.insert(key@, entry));
            },
            None => {
                self.keys.push(key);
                self.entries.push(entry);
                self.map = Ghost(self.map@.insert(self.keys@.last()@, entry));
                assert(forall|j: int|
                    0 <= j < self.keys@.len() - 1 ==> old(self).keys@[j] == self.keys@[j]);
            },
        }
        assert forall|i: int, j: int|
            0 <= i < j < self.keys@.len() implies self.keys@[i]@ != self.keys@[j]@ by {
            if j == old(self).keys@.len() {
                assert(old(self).keys@[i] == self.keys@[i]);
            }
        }
        assert forall|i: int| 0 <= i < self.keys@.len() implies #[trigger] self.map@.contains_key(
            self.keys@[i]@) && self.map@[self.keys@[i]@] == self.entries@[i] by {
            if i < old(self).keys@.len() {
                assert(old(self).map@.contains_key(old(self).keys@[i]@));
            }
        }
        assert forall|k: Seq<u8>| #[trigger] self.map@.contains_key(k) implies exists|i: int|
            0 <= i < self.keys@.len() && self.keys@[i]@ == k by {
            if k == key@ {
                let i = if self.keys@.len() == old(self).keys@.len() {
                    choose|i: int| 0 <= i < self.keys@.len() && self.keys@[i]@ == key@
                } else {
                    self.keys@.len() - 1
                };
                assert(0 <= i < self.keys@.len() && self.keys@[i]@ == k);
            } else {
                assert(old(self).map@.contains_key(k));
                let i = choose|i: int| 0 <= i < old(self).keys@.len() && old(self).keys@[i]@ == k;
                assert(self.keys@[i] == old(self).keys@[i]);
            }
        }
    }

    /// Number of keys in the index.
    pub fn len(&self) -> (r: usize)
        requires
            self.wf(),
        ensures
            r == self@.dom().len(),
    {
        proof {
            self.lemma_len();
        }
        self.keys.len()
    }

    proof fn lemma_len(&self)
        requires
            self.wf(),
        ensures
            self@.dom().len() == self.keys@.len(),
        decreases self.keys@.len(),
    {
        let ks = self.keys@.map_values(|k: Vec<u8>| k@);
        assert forall|k: Seq<u8>| self@.dom().contains(k) <==> ks.to_set().contains(k) by {
            if self@.dom().contains(k) {
                assert(self.map@.contains_key(k));
                let i = choose|i: int| 0 <= i < self.keys@.len() && self.keys@[i]@ == k;
                assert(ks[i] == k);
            }
            if ks.to_set().contains(k) {
                let i = choose|i: int| 0 <= i < ks.len() && ks[i] == k;
                assert(self.map@.contains_key(self.keys@[i]@));
            }
        }
        assert(self@.dom() =~= ks.to_set());
        assert forall|i: int, j: int| 0 <= i < j < ks.len() implies ks[i] != ks[j] by {}
        ks.unique_seq_to_set();
    }
}

} // verus!
