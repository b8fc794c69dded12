//! The engine: the keydir plus the active file's identity and length, with a
//! ghost model of every data file's bytes. The keydir is at every moment the
//! replay of those files, oldest first, so that recovery rebuilds it exactly.
use vstd::prelude::*;

use crate::codec::{encodable, encode, lemma_parse_extend, lemma_parse_shift, lemma_parse_window, lemma_round_trip, parse_at, record_bytes, Parsed, HEADER_LEN};
use crate::error::DatastoreError;
use crate::keydir::{Keydir, KeydirEntry};
use crate::recovery::{corrupt_count, entry_for, entry_ok_in, lemma_replay_appended_record, lemma_replay_entries, replay, replay_file, scan_end, valid_count, FileScan};

verus! {

/// The data files, oldest first: each is its identifier and its bytes.
pub type Disk = Seq<(u64, Seq<u8>)>;

/// The bytes of file `id` (empty if there is none).
pub open spec fn file_bytes(disk: Disk, id: u64) -> Seq<u8>
    decreases disk.len(),
{
    if disk.len() == 0 {
        Seq::empty()
    } else if disk.last().0 == id {
        disk.last().1
    } else {
        file_bytes(disk.drop_last(), id)
    }
}

pub open spec fn has_file(disk: Disk, id: u64) -> bool {
    exists|i: int| 0 <= i < disk.len() && disk[i].0 == id
}

/// File identifiers strictly increase, and every file fits 64-bit offsets.
pub open spec fn disk_ok(disk: Disk) -> bool {
    &&& forall|i: int, j: int| 0 <= i < j < disk.len() ==> disk[i].0 < disk[j].0
    &&& forall|i: int| 0 <= i < disk.len() ==> (#[trigger] disk[i]).1.len() <= u64::MAX
}

/// The index that replaying every file, oldest first, produces.
pub open spec fn replay_disk(disk: Disk) -> Map<Seq<u8>, KeydirEntry>
    decreases disk.len(),
{
    if disk.len() == 0 {
        Map::empty()
    } else {
        replay(replay_disk(disk.drop_last()), disk.last().0, disk.last().1, 0)
    }
}

/// Every entry of `kd` locates a valid record of its key in an existing file.
pub open spec fn entries_ok(kd: Map<Seq<u8>, KeydirEntry>, disk: Disk) -> bool {
    forall|k: Seq<u8>| #[trigger]
        kd.contains_key(k) ==> has_file(disk, kd[k].file_id) && entry_ok_in(
            file_bytes(disk, kd[k].file_id),
            k,
            kd[k],
        )
}

/// The value bytes that `e` locates.
pub open spec fn value_at(disk: Disk, e: KeydirEntry) -> Seq<u8> {
    file_bytes(disk, e.file_id).subrange(e.value_pos as int, e.value_pos + e.value_size)
}

/// What the store holds: each indexed key with the value its entry locates.
pub open spec fn contents(kd: Map<Seq<u8>, KeydirEntry>, disk: Disk) -> Map<Seq<u8>, Seq<u8>> {
    Map::new(|k: Seq<u8>| kd.contains_key(k), |k: Seq<u8>| value_at(disk, kd[k]))
}

/// What a store recovered from `disk` holds.
pub open spec fn recovered(disk: Disk) -> Map<Seq<u8>, Seq<u8>> {
    contents(replay_disk(disk), disk)
}

/// The identifier a new active file gets: the current time, or one past the
/// newest existing file if that is later.
pub open spec fn next_file_id(ids: Seq<u64>, now: u64) -> u64 {
    if ids.len() == 0 || ids.last() < now {
        now
    } else {
        (ids.last() + 1) as u64
    }
}

/// One data file handed to recovery.
pub struct Segment {
    pub id: u64,
    pub bytes: Vec<u8>,
}

pub open spec fn segments_disk(segments: Seq<Segment>) -> Disk {
    segments.map_values(|s: Segment| (s.id, s.bytes@))
}

pub open spec fn segment_ids(segments: Seq<Segment>) -> Seq<u64> {
    segments.map_values(|s: Segment| s.id)
}

/// Bytes to append to the active file, and where they go.
pub struct Append {
    pub file_id: u64,
    pub offset: u64,
    pub bytes: Vec<u8>,
}

/// A byte range of a data file holding one whole record.
#[derive(Debug, Clone, Copy, PartialEq, Eq, Structural)]
pub struct ReadSpan {
    pub file_id: u64,
    pub offset: u64,
    pub len: u64,
}

/// An open store: the keydir, the active file that takes new records, and
/// the bytes of every data file as the store has read and appended them.
pub struct Datastore {
    keydir: Keydir,
    active_id: u64,
    active_len: u64,
    disk: Ghost<Disk>,
}

impl Datastore {
    pub closed spec fn view(&self) -> Map<Seq<u8>, Seq<u8>> {
        contents(self.keydir@, self.disk@)
    }

    /// The data files as this store has written and read them.
    pub closed spec fn disk(&self) -> Disk {
        self.disk@
    }

    pub closed spec fn spec_active_id(&self) -> u64 {
        self.active_id
    }

    pub closed spec fn spec_active_len(&self) -> u64 {
        self.active_len
    }

    /// What a read of `key` from intact files gives: the value of the record
    /// that the index locates, if the key is indexed and that record decodes.
    pub closed spec fn stored_value(&self, key: Seq<u8>) -> Option<Seq<u8>> {
        if self.keydir@.contains_key(key) {
            let e = self.keydir@[key];
            match parse_at(file_bytes(self.disk@, e.file_id), e.value_pos - 20 - key.len()) {
                Parsed::Valid { value, .. } => Some(value),
                _ => None,
            }
        } else {
            None
        }
    }

    pub closed spec fn wf(&self) -> bool {
        &&& self.keydir.wf()
        &&& self.disk@.len() >= 1
        &&& self.disk@.last().0 == self.active_id
        &&& self.disk@.last().1.len() == self.active_len
        &&& disk_ok(self.disk@)
        &&& self.keydir@ == replay_disk(self.disk@)
        &&& scan_end(self.disk@.last().1, 0) == self.active_len
        &&& entries_ok(self.keydir@, self.disk@)
    }

    /// The active file's identifier.
    pub fn active_file_id(&self) -> (r: u64)
        ensures
            r == self.spec_active_id(),
    {
        self.active_id
    }

    /// The active file's length, the offset of the next record.
    pub fn active_len(&self) -> (r: u64)
        ensures
            r == self.spec_active_len(),
    {
        self.active_len
    }

    /// Number of live keys.
    pub fn len(&self) -> (r: usize)
        requires
            self.wf(),
        ensures
            r == self@.dom().len(),
    {
        assert(self@.dom() =~= self.keydir@.dom());
        self.keydir.len()
    }

    /// Rebuilds the index from the existing data files, oldest first, and
    /// names a new, empty active file. Fails with `ActiveFileCollision` when
    /// no identifier after the newest file is left.
    pub fn open(segments: Vec<Segment>, now: u64) -> (r: Result<
        (Datastore, Vec<FileScan>),
        DatastoreError,
    >)
        requires
            forall|i: int, j: int|
                0 <= i < j < segments@.len() ==> segments@[i].id < segments@[j].id,
        ensures
            r is Err <==> (segments@.len() > 0 && segments@.last().id == u64::MAX),
            r is Err ==> r == Err::<(Datastore, Vec<FileScan>), DatastoreError>(
                DatastoreError::ActiveFileCollision,
            ),
            r matches Ok((s, scans)) ==> {
                &&& s.wf()
                &&& s@ == recovered(segments_disk(segments@))
                &&& s.spec_active_id() == next_file_id(segment_ids(segments@), now)
                &&& s.spec_active_len() == 0
                &&& s.disk() == segments_disk(segments@).push(
                    (s.spec_active_id(), Seq::<u8>::empty()),
                )
                &&& scans@.len() == segments@.len()
                &&& forall|i: int|
                    0 <= i < scans@.len() ==> (#[trigger] scans@[i]).file_id == segments@[i].id
                        && scans@[i].records == valid_count(segments@[i].bytes@, 0)
                        && scans@[i].corrupt == corrupt_count(segments@[i].bytes@, 0)
                        && scans@[i].truncated_tail == (scan_end(segments@[i].bytes@, 0)
                        < segments@[i].bytes@.len())
            },
    {
        let n = segments.len();
        if n > 0 && segments[n - 1].id == u64::MAX {
            return Err(DatastoreError::ActiveFileCollision);
        }
        let ghost all = segments_disk(segments@);
        let (keydir, scans) = load_keydir(&segments);
        let id = if n == 0 || segments[n - 1].id < now {
            now
        } else {
            segments[n - 1].id + 1
        };
        let ghost disk = all.push((id, Seq::<u8>::empty()));
        proof {
            assert(segment_ids(segments@).len() == n);
            if n > 0 {
                assert(segment_ids(segments@).last() == segments@[n - 1].id);
            }
            assert forall|k: int| 0 <= k < all.len() implies all[k].0 != id by {
                assert(all[k].0 == segments@[k].id);
                if k < n - 1 {
                    assert(segments@[k].id < segments@[n - 1].id);
                }
            }
            lemma_push_empty(all, id, keydir@);
        }
        let s = Datastore { keydir, active_id: id, active_len: 0, disk: Ghost(disk) };
        Ok((s, scans))
    }

    /// Appends a record of `(key, value)` stamped `timestamp` to the active
    /// file's model and points the index at it. The caller writes the returned
    /// bytes at the returned offset. Fails with `RecordTooLarge`, changing
    /// nothing, when the sizes do not fit the header or the file's offsets.
    pub fn insert(&mut self, key: Vec<u8>, value: &Vec<u8>, timestamp: u64) -> (r: Result<
        Append,
        DatastoreError,
    >)
        requires
            old(self).wf(),
        ensures
            final(self).wf(),
            r is Ok <==> insertable(old(self).spec_active_len(), key@, value@),
            r matches Ok(a) ==> {
                &&& a.file_id == old(self).spec_active_id()
                &&& a.offset == old(self).spec_active_len()
                &&& a.bytes@ == record_bytes(timestamp, key@, value@)
                &&& final(self)@ == old(self)@.insert(key@, value@)
                &&& final(self).spec_active_id() == old(self).spec_active_id()
                &&& final(self).spec_active_len() == old(self).spec_active_len() + a.bytes@.len()
                &&& final(self).disk() == old(self).disk().drop_last().push(
                    (old(self).spec_active_id(), old(self).disk().last().1 + a.bytes@),
                )
            },
            r is Err ==> r == Err::<Append, DatastoreError>(DatastoreError::RecordTooLarge)
                && *final(self) == *old(self),
    {
        let kl = key.len();
        let vl = value.len();
        if kl > 0xFFFF_FFFFusize || vl > 0xFFFF_FFFFusize {
            return Err(DatastoreError::RecordTooLarge);
        }
        if kl > usize::MAX - HEADER_LEN || vl > usize::MAX - HEADER_LEN - kl {
            return Err(DatastoreError::RecordTooLarge);
        }
        let total = HEADER_LEN + kl + vl;
        if total as u64 > u64::MAX - self.active_len {
            return Err(DatastoreError::RecordTooLarge);
        }
        let bytes = encode(timestamp, &key, value);
        let offset = self.active_len;
        let entry = KeydirEntry {
            file_id: self.active_id,
            value_size: vl as u32,
            value_pos: offset + HEADER_LEN as u64 + kl as u64,
            timestamp,
        };
        proof {
            lemma_round_trip(timestamp, key@, value@);
            assert(entry == entry_for(self.active_id, offset as int, key@, value@, timestamp));
            lemma_append_record(self.disk@, self.keydir@, timestamp, key@, value@);
        }
        let ghost old_disk = self.disk@;
        self.keydir.put(key, entry);
        self.active_len = offset + total as u64;
        self.disk = Ghost(
            old_disk.drop_last().push((self.active_id, old_disk.last().1 + bytes@)),
        );
        Ok(Append { file_id: self.active_id, offset, bytes })
    }

    /// Where the record holding `key`'s current value lies.
    pub fn locate(&self, key: &Vec<u8>) -> (r: Option<ReadSpan>)
        requires
            self.wf(),
        ensures
            r is Some <==> self@.contains_key(key@),
            r matches Some(sp) ==> {
                &&& has_file(self.disk(), sp.file_id)
                &&& sp.offset + sp.len <= file_bytes(self.disk(), sp.file_id).len()
                &&& parse_at(
                    file_bytes(self.disk(), sp.file_id).subrange(
                        sp.offset as int,
                        sp.offset + sp.len,
                    ),
                    0,
                ) matches Parsed::Valid { key: k, value, len, .. } && k == key@ && value
                    == self@[key@] && len == sp.len
            },
    {
        match self.keydir.get(key) {
            None => None,
            Some(e) => {
                let ghost b = file_bytes(self.disk@, e.file_id);
                proof {
                    assert(self.keydir@.contains_key(key@));
                    let start = e.value_pos - 20 - key@.len();
                    lemma_parse_window(b, start);
                    lemma_disk_file_len(self.disk@, e.file_id);
                }
                let offset = e.value_pos - HEADER_LEN as u64 - key.len() as u64;
                let len = HEADER_LEN as u64 + key.len() as u64 + e.value_size as u64;
                Some(ReadSpan { file_id: e.file_id, offset, len })
            },
        }
    }

    /// What a read gives is what the store holds: the stored value of an
    /// indexed key is its value in the view, and an unindexed key has none.
    pub proof fn lemma_stored_value(&self, key: Seq<u8>)
        requires
            self.wf(),
        ensures
            self.stored_value(key) == if self@.contains_key(key) {
                Some(self@[key])
            } else {
                None::<Seq<u8>>
            },
    {
        if self.keydir@.contains_key(key) {
            assert(self@.contains_key(key));
        }
    }
}

/// Replays the data files, oldest first, into a fresh keydir, and reports
/// what each file held.
pub fn load_keydir(segments: &Vec<Segment>) -> (r: (Keydir, Vec<FileScan>))
    requires
        forall|i: int, j: int| 0 <= i < j < segments@.len() ==> segments@[i].id < segments@[j].id,
    ensures
        r.0.wf(),
        r.0@ == replay_disk(segments_disk(segments@)),
        entries_ok(r.0@, segments_disk(segments@)),
        disk_ok(segments_disk(segments@)),
        r.1@.len() == segments@.len(),
        forall|i: int|
            0 <= i < r.1@.len() ==> (#[trigger] r.1@[i]).file_id == segments@[i].id
                && r.1@[i].records == valid_count(segments@[i].bytes@, 0)
                && r.1@[i].corrupt == corrupt_count(segments@[i].bytes@, 0)
                && r.1@[i].truncated_tail == (scan_end(segments@[i].bytes@, 0)
                < segments@[i].bytes@.len()),
{
    let n = segments.len();
    let ghost all = segments_disk(segments@);
    let mut keydir = Keydir::new();
    let mut scans: Vec<FileScan> = Vec::new();
    let mut i: usize = 0;
    proof {
        assert(all.subrange(0, 0) =~= Seq::<(u64, Seq<u8>)>::empty());
    }
    while i < n
        invariant
            n == segments@.len(),
            all == segments_disk(segments@),
            forall|a: int, b: int|
                0 <= a < b < segments@.len() ==> segments@[a].id < segments@[b].id,
            i <= n,
            forall|k: int| 0 <= k < i ==> (#[trigger] segments@[k]).bytes@.len() <= u64::MAX,
            keydir.wf(),
            keydir@ == replay_disk(all.subrange(0, i as int)),
            entries_ok(keydir@, all.subrange(0, i as int)),
            scans@.len() == i,
            forall|k: int|
                0 <= k < i ==> (#[trigger] scans@[k]).file_id == segments@[k].id
                    && scans@[k].records == valid_count(segments@[k].bytes@, 0)
                    && scans@[k].corrupt == corrupt_count(segments@[k].bytes@, 0)
                    && scans@[k].truncated_tail == (scan_end(segments@[k].bytes@, 0)
                    < segments@[k].bytes@.len()),
        decreases n - i,
    {
        let _len = segments[i].bytes.len();
        let ghost prefix = all.subrange(0, i as int);
        let ghost next = all.subrange(0, i + 1);
        let scan = replay_file(&mut keydir, segments[i].id, &segments[i].bytes);
        scans.push(scan);
        proof {
            assert(next =~= prefix.push(all[i as int]));
            assert(next.drop_last() =~= prefix);
            assert(all[i as int] == (segments@[i as int].id, segments@[i as int].bytes@));
            assert forall|k: int| 0 <= k < prefix.len() implies prefix[k].0 != all[i as int].0 by {
                assert(prefix[k] == all[k]);
            }
            lemma_entries_ok_push(prefix, all[i as int], replay_disk(prefix));
        }
        i = i + 1;
    }
    proof {
        assert(all.subrange(0, n as int) =~= all);
        lemma_segments_disk_ok(segments@);
    }
    (keydir, scans)
}

/// The sizes of a record fit its header, the machine and the active file.
pub open spec fn insertable(active_len: u64, key: Seq<u8>, value: Seq<u8>) -> bool {
    &&& encodable(key, value)
    &&& 20 + key.len() + value.len() <= usize::MAX
    &&& active_len + 20 + key.len() + value.len() <= u64::MAX
}

/// The value in a record read back from a data file for `key`. Anything but
/// one whole, checksum-valid record of that key is a `CorruptRecord`.
pub fn value_from_record(key: &Vec<u8>, bytes: &Vec<u8>) -> (r: Result<Vec<u8>, DatastoreError>)
    ensures
        match parse_at(bytes@, 0) {
            Parsed::Valid { key: k, value, len, .. } => if k == key@ && len == bytes@.len() {
                r matches Ok(v) && v@ == value
            } else {
                r == Err::<Vec<u8>, DatastoreError>(DatastoreError::CorruptRecord)
            },
            _ => r == Err::<Vec<u8>, DatastoreError>(DatastoreError::CorruptRecord),
        },
{
    match crate::codec::decode_at(bytes, 0) {
        crate::codec::Decoded::Valid { record, len } => {
            if len == bytes.len() && crate::keydir::bytes_eq(&record.key, key) {
                Ok(record.value)
            } else {
                Err(DatastoreError::CorruptRecord)
            }
        },
        _ => Err(DatastoreError::CorruptRecord),
    }
}

// ---------------------------------------------------------------------------
// Lemmas on the disk model
// ---------------------------------------------------------------------------

proof fn lemma_segments_disk_ok(segments: Seq<Segment>)
    requires
        forall|i: int, j: int| 0 <= i < j < segments.len() ==> segments[i].id < segments[j].id,
        forall|i: int| 0 <= i < segments.len() ==> (#[trigger] segments[i]).bytes@.len() <= u64::MAX,
    ensures
        disk_ok(segments_disk(segments)),
{
    let d = segments_disk(segments);
    assert forall|i: int| 0 <= i < d.len() implies (#[trigger] d[i]).1.len() <= u64::MAX by {
        assert(d[i].1 == segments[i].bytes@);
    }
}

proof fn lemma_file_bytes_push(d: Disk, x: (u64, Seq<u8>), id: u64)
    ensures
        file_bytes(d.push(x), id) == if x.0 == id {
            x.1
        } else {
            file_bytes(d, id)
        },
        has_file(d.push(x), id) <==> has_file(d, id) || x.0 == id,
{
    assert(d.push(x).drop_last() =~= d);
    if has_file(d, id) {
        let i = choose|i: int| 0 <= i < d.len() && d[i].0 == id;
        assert(d.push(x)[i] == d[i]);
    }
    if has_file(d.push(x), id) {
        let i = choose|i: int| 0 <= i < d.push(x).len() && d.push(x)[i].0 == id;
        if i < d.len() {
            assert(d[i] == d.push(x)[i]);
        }
    }
    if x.0 == id {
        assert(d.push(x)[d.len() as int] == x);
    }
}

proof fn lemma_file_bytes_in(d: Disk, id: u64)
    requires
        has_file(d, id),
    ensures
        exists|i: int| 0 <= i < d.len() && d[i].0 == id && d[i].1 == file_bytes(d, id),
    decreases d.len(),
{
    if d.last().0 != id {
        let i = choose|i: int| 0 <= i < d.len() && d[i].0 == id;
        assert(d.drop_last()[i] == d[i]);
        lemma_file_bytes_in(d.drop_last(), id);
        let j = choose|j: int|
            0 <= j < d.drop_last().len() && d.drop_last()[j].0 == id && d.drop_last()[j].1
                == file_bytes(d.drop_last(), id);
        assert(d[j] == d.drop_last()[j]);
    } else {
        assert(d[d.len() - 1] == d.last());
    }
}

proof fn lemma_disk_file_len(d: Disk, id: u64)
    requires
        disk_ok(d),
        has_file(d, id),
    ensures
        file_bytes(d, id).len() <= u64::MAX,
{
    lemma_file_bytes_in(d, id);
    let i = choose|i: int| 0 <= i < d.len() && d[i].0 == id && d[i].1 == file_bytes(d, id);
    assert(d[i].1.len() <= u64::MAX);
}

/// Replaying one more file, with a fresh identifier, keeps every entry valid.
proof fn lemma_entries_ok_push(prefix: Disk, x: (u64, Seq<u8>), m: Map<Seq<u8>, KeydirEntry>)
    requires
        m == replay_disk(prefix),
        entries_ok(m, prefix),
        forall|k: int| 0 <= k < prefix.len() ==> prefix[k].0 != x.0,
        x.1.len() <= u64::MAX,
    ensures
        replay_disk(prefix.push(x)) == replay(m, x.0, x.1, 0),
        entries_ok(replay(m, x.0, x.1, 0), prefix.push(x)),
{
    let d = prefix.push(x);
    assert(d.drop_last() =~= prefix);
    let r = replay(m, x.0, x.1, 0);
    lemma_replay_entries(m, x.0, x.1, 0);
    assert forall|k: Seq<u8>| #[trigger] r.contains_key(k) implies has_file(d, r[k].file_id)
        && entry_ok_in(file_bytes(d, r[k].file_id), k, r[k]) by {
        lemma_file_bytes_push(prefix, x, r[k].file_id);
        if m.contains_key(k) && r[k] == m[k] {
            if r[k].file_id == x.0 {
                let i = choose|i: int| 0 <= i < prefix.len() && prefix[i].0 == x.0;
            }
        }
    }
}

/// A new, empty active file changes neither the index nor the contents.
proof fn lemma_push_empty(all: Disk, id: u64, m: Map<Seq<u8>, KeydirEntry>)
    requires
        m == replay_disk(all),
        entries_ok(m, all),
        disk_ok(all),
        forall|k: int| 0 <= k < all.len() ==> all[k].0 != id,
        all.len() > 0 ==> all.last().0 < id,
    ensures
        replay_disk(all.push((id, Seq::<u8>::empty()))) == m,
        entries_ok(m, all.push((id, Seq::<u8>::empty()))),
        disk_ok(all.push((id, Seq::<u8>::empty()))),
        contents(m, all.push((id, Seq::<u8>::empty()))) == contents(m, all),
{
    let x = (id, Seq::<u8>::empty());
    let d = all.push(x);
    lemma_entries_ok_push(all, x, m);
    assert(replay(m, id, Seq::<u8>::empty(), 0) == m);
    assert forall|k: Seq<u8>| m.contains_key(k) implies value_at(d, m[k]) == value_at(all, m[k]) by {
        lemma_file_bytes_push(all, x, m[k].file_id);
        if m[k].file_id == id {
            let i = choose|i: int| 0 <= i < all.len() && all[i].0 == id;
        }
    }
    assert(contents(m, d) =~= contents(m, all));
    assert forall|i: int, j: int| 0 <= i < j < d.len() implies d[i].0 < d[j].0 by {
        if j == all.len() {
            assert(all[i] == d[i]);
            if i < all.len() - 1 {
                assert(all[i].0 < all[all.len() - 1].0);
            }
        } else {
            assert(all[i] == d[i] && all[j] == d[j]);
        }
    }
    assert forall|i: int| 0 <= i < d.len() implies (#[trigger] d[i]).1.len() <= u64::MAX by {
        if i < all.len() {
            assert(all[i] == d[i]);
        }
    }
}

/// An entry into a file stays valid, with the same value, when bytes are
/// appended to that file.
proof fn lemma_entry_ok_extend(b: Seq<u8>, x: Seq<u8>, k: Seq<u8>, e: KeydirEntry)
    requires
        entry_ok_in(b, k, e),
    ensures
        entry_ok_in(b + x, k, e),
        e.value_pos + e.value_size <= b.len(),
        (b + x).subrange(e.value_pos as int, e.value_pos + e.value_size) == b.subrange(
            e.value_pos as int,
            e.value_pos + e.value_size,
        ),
{
    let start = e.value_pos - 20 - k.len();
    lemma_parse_extend(b, x, start);
    assert((b + x).subrange(e.value_pos as int, e.value_pos + e.value_size) =~= b.subrange(
        e.value_pos as int,
        e.value_pos + e.value_size,
    ));
}

/// Appending a record to the active (last) file sets its key's entry, keeps
/// every entry valid, and adds the pair to the contents.
#[verifier::rlimit(80)]
proof fn lemma_append_record(
    d: Disk,
    m: Map<Seq<u8>, KeydirEntry>,
    timestamp: u64,
    key: Seq<u8>,
    value: Seq<u8>,
)
    requires
        d.len() >= 1,
        disk_ok(d),
        m == replay_disk(d),
        entries_ok(m, d),
        scan_end(d.last().1, 0) == d.last().1.len(),
        encodable(key, value),
        d.last().1.len() + record_bytes(timestamp, key, value).len() <= u64::MAX,
    ensures
        ({
            let a = d.last().0;
            let b = d.last().1;
            let r = record_bytes(timestamp, key, value);
            let d2 = d.drop_last().push((a, b + r));
            let m2 = m.insert(key, entry_for(a, b.len() as int, key, value, timestamp));
            &&& replay_disk(d2) == m2
            &&& entries_ok(m2, d2)
            &&& disk_ok(d2)
            &&& scan_end(b + r, 0) == (b + r).len()
            &&& contents(m2, d2) == contents(m, d).insert(key, value)
        }),
{
    let a = d.last().0;
    let b = d.last().1;
    let r = record_bytes(timestamp, key, value);
    let c = b + r;
    let pre = d.drop_last();
    let d2 = pre.push((a, c));
    let e = entry_for(a, b.len() as int, key, value, timestamp);
    let m2 = m.insert(key, e);
    assert(d =~= pre.push((a, b)));
    assert(d2.drop_last() =~= pre);
    lemma_replay_appended_record(replay_disk(pre), a, b, timestamp, key, value);
    lemma_round_trip(timestamp, key, value);
    lemma_parse_shift(b, r, 0);
    assert forall|id: u64| file_bytes(d2, id) == if id == a {
        c
    } else {
        file_bytes(d, id)
    } && (has_file(d2, id) <==> has_file(d, id)) by {
        lemma_file_bytes_push(pre, (a, c), id);
        lemma_file_bytes_push(pre, (a, b), id);
    }
    // the new entry
    let ks = key.len() as int;
    assert(e.value_pos == b.len() + 20 + ks);
    assert(e.value_size == value.len());
    assert(c.subrange(b.len() + 20 + ks, c.len() as int) =~= r.subrange(20 + ks, r.len() as int));
    assert(entry_ok_in(c, key, e));
    assert(has_file(d, a)) by {
        assert(d[d.len() - 1].0 == a);
    }
    assert forall|k: Seq<u8>| #[trigger] m2.contains_key(k) implies has_file(d2, m2[k].file_id)
        && entry_ok_in(file_bytes(d2, m2[k].file_id), k, m2[k]) by {
        if k != key {
            assert(m.contains_key(k));
            if m[k].file_id == a {
                lemma_entry_ok_extend(b, r, k, m[k]);
            }
        }
    }
    assert forall|k: Seq<u8>| m2.contains_key(k) implies value_at(d2, m2[k]) == (if k == key {
        value
    } else {
        value_at(d, m[k])
    }) by {
        if k != key {
            assert(m.contains_key(k));
            if m[k].file_id == a {
                lemma_entry_ok_extend(b, r, k, m[k]);
            }
        } else {
            assert(c.subrange(e.value_pos as int, e.value_pos + e.value_size) =~= value);
        }
    }
    assert(contents(m2, d2) =~= contents(m, d).insert(key, value));
    assert forall|i: int| 0 <= i < d2.len() implies (#[trigger] d2[i]).1.len() <= u64::MAX by {
        if i < pre.len() {
            assert(d2[i] == d[i]);
        }
    }
    assert forall|i: int, j: int| 0 <= i < j < d2.len() implies d2[i].0 < d2[j].0 by {
        assert(d2[i].0 == d[i].0 && d2[j].0 == d[j].0);
    }
}

// ---------------------------------------------------------------------------
// Laws of the store
// ---------------------------------------------------------------------------

/// Read-your-write: once an insert of `value` under `key` has taken the store
/// from `s` to `t`, a read of `key` from the files gives `value`.
pub proof fn lemma_read_your_write(s: Datastore, t: Datastore, key: Seq<u8>, value: Seq<u8>)
    requires
        s.wf(),
        t.wf(),
        t@ == s@.insert(key, value),
    ensures
        t.stored_value(key) == Some(value),
{
    t.lemma_stored_value(key);
}

/// Last write wins: after inserting `v1` and then `v2` under `key`, a read
/// gives `v2`.
pub proof fn lemma_last_write_wins(
    s: Datastore,
    t: Datastore,
    u: Datastore,
    key: Seq<u8>,
    v1: Seq<u8>,
    v2: Seq<u8>,
)
    requires
        s.wf(),
        t.wf(),
        u.wf(),
        t@ == s@.insert(key, v1),
        u@ == t@.insert(key, v2),
    ensures
        u.stored_value(key) == Some(v2),
{
    u.lemma_stored_value(key);
}

/// Recovery restores the store: replaying the files that a store has written,
/// whether it was closed or stopped abruptly, gives back exactly what it held;
/// keys never inserted stay absent.
pub proof fn lemma_recovery_restores(s: Datastore)
    requires
        s.wf(),
    ensures
        recovered(s.disk()) == s@,
{
}

/// Reopening gives the same contents: a store `t` opened on the files of a
/// store `s` (as `Datastore::open` promises of its result) holds what `s` held.
pub proof fn lemma_reopen_same_contents(s: Datastore, segments: Seq<Segment>, t: Datastore)
    requires
        s.wf(),
        segments_disk(segments) == s.disk(),
        t@ == recovered(segments_disk(segments)),
    ensures
        t@ == s@,
{
    lemma_recovery_restores(s);
}

} // verus!
