//! Replaying a data file into the keydir: records are read from offset 0 in
//! order; a checksum mismatch skips that record, a truncated tail ends the
//! file, and every valid record overwrites its key's entry.
use vstd::prelude::*;

use crate::codec::{decode_at, parse_at, record_bytes, encodable, lemma_parse_extend, lemma_parse_shift, lemma_prefix_truncated, lemma_round_trip, Decoded, Parsed, HEADER_LEN};
use crate::keydir::{Keydir, KeydirEntry};

verus! {

/// The keydir entry of a valid record found at `pos` of file `file_id`.
pub open spec fn entry_for(
    file_id: u64,
    pos: int,
    key: Seq<u8>,
    value: Seq<u8>,
    timestamp: u64,
) -> KeydirEntry {
    KeydirEntry {
        file_id,
        value_size: value.len() as u32,
        value_pos: (pos + 20 + key.len()) as u64,
        timestamp,
    }
}

/// The index after replaying the records of `b` from `pos` on top of `m`.
pub open spec fn replay(m: Map<Seq<u8>, KeydirEntry>, file_id: u64, b: Seq<u8>, pos: int) -> Map<
    Seq<u8>,
    KeydirEntry,
>
    decreases b.len() - pos,
{
    if pos < 0 || pos >= b.len() {
        m
    } else {
        match parse_at(b, pos) {
            Parsed::Truncated => m,
            Parsed::Corrupt { len } => replay(m, file_id, b, pos + len),
            Parsed::Valid { timestamp, key, value, len } => replay(
                m.insert(key, entry_for(file_id, pos, key, value, timestamp)),
                file_id,
                b,
                pos + len,
            ),
        }
    }
}

/// Where the scan of `b` from `pos` stops: the end of the file, or the
/// start of a truncated tail.
pub open spec fn scan_end(b: Seq<u8>, pos: int) -> int
    decreases b.len() - pos,
{
    if pos < 0 || pos >= b.len() {
        pos
    } else {
        match parse_at(b, pos) {
            Parsed::Truncated => pos,
            Parsed::Corrupt { len } => scan_end(b, pos + len),
            Parsed::Valid { len, .. } => scan_end(b, pos + len),
        }
    }
}

/// Number of valid records that the scan of `b` from `pos` replays.
pub open spec fn valid_count(b: Seq<u8>, pos: int) -> nat
    decreases b.len() - pos,
{
    if pos < 0 || pos >= b.len() {
        0
    } else {
        match parse_at(b, pos) {
            Parsed::Truncated => 0,
            Parsed::Corrupt { len } => valid_count(b, pos + len),
            Parsed::Valid { len, .. } => 1 + valid_count(b, pos + len),
        }
    }
}

/// Number of corrupt records that the scan of `b` from `pos` skips.
pub open spec fn corrupt_count(b: Seq<u8>, pos: int) -> nat
    decreases b.len() - pos,
{
    if pos < 0 || pos >= b.len() {
        0
    } else {
        match parse_at(b, pos) {
            Parsed::Truncated => 0,
            Parsed::Corrupt { len } => 1 + corrupt_count(b, pos + len),
            Parsed::Valid { len, .. } => corrupt_count(b, pos + len),
        }
    }
}

/// `e` locates, in the file bytes `b`, a valid record of key `k` whose value
/// is `b[e.value_pos .. e.value_pos + e.value_size]`.
pub open spec fn entry_ok_in(b: Seq<u8>, k: Seq<u8>, e: KeydirEntry) -> bool {
    let start = e.value_pos - 20 - k.len();
    &&& 0 <= start
    &&& parse_at(b, start) == Parsed::Valid {
        timestamp: e.timestamp,
        key: k,
        value: b.subrange(e.value_pos as int, e.value_pos + e.value_size),
        len: (20 + k.len() + e.value_size) as nat,
    }
}

/// What replaying one data file found.
#[derive(Debug, Clone, Copy, PartialEq, Eq, Structural)]
pub struct FileScan {
    pub file_id: u64,
    /// Valid records replayed into the keydir.
    pub records: usize,
    /// Records skipped for a checksum mismatch.
    pub corrupt: usize,
    /// Whether the file ends in an incomplete record, which was ignored.
    pub truncated_tail: bool,
}

/// Replays every record of `b`, the bytes of data file `file_id`, into `kd`.
pub fn replay_file(kd: &mut Keydir, file_id: u64, b: &Vec<u8>) -> (r: FileScan)
    requires
        old(kd).wf(),
    ensures
        final(kd).wf(),
        final(kd)@ == replay(old(kd)@, file_id, b@, 0),
        r.file_id == file_id,
        r.records == valid_count(b@, 0),
        r.corrupt == corrupt_count(b@, 0),
        r.truncated_tail == (scan_end(b@, 0) < b@.len()),
{
    let ghost m0 = kd@;
    let mut pos: usize = 0;
    let mut records: usize = 0;
    let mut corrupt: usize = 0;
    let mut truncated_tail = false;
    while pos < b.len() && !truncated_tail
        invariant
            kd.wf(),
            pos <= b@.len(),
            truncated_tail ==> pos < b@.len() && parse_at(b@, pos as int) == Parsed::Truncated,
            records + corrupt <= pos,
            replay(m0, file_id, b@, 0) == replay(kd@, file_id, b@, pos as int),
            scan_end(b@, 0) == scan_end(b@, pos as int),
            valid_count(b@, 0) == records + valid_count(b@, pos as int),
            corrupt_count(b@, 0) == corrupt + corrupt_count(b@, pos as int),
        decreases b@.len() - pos + if truncated_tail { 0int } else { 1int },
    {
        match decode_at(b, pos) {
            Decoded::Truncated => {
                truncated_tail = true;
            },
            Decoded::Corrupt { len } => {
                pos = pos + len;
                corrupt = corrupt + 1;
            },
            Decoded::Valid { record, len } => {
                let entry = KeydirEntry {
                    file_id,
                    value_size: record.value.len() as u32,
                    value_pos: (pos + HEADER_LEN + record.key.len()) as u64,
                    timestamp: record.timestamp,
                };
                assert(entry == entry_for(file_id, pos as int, record.key@, record.value@, record.timestamp));
                kd.put(record.key, entry);
                pos = pos + len;
                records = records + 1;
            },
        }
    }
    assert(replay(kd@, file_id, b@, pos as int) == kd@);
    assert(valid_count(b@, pos as int) == 0);
    assert(corrupt_count(b@, pos as int) == 0);
    assert(scan_end(b@, pos as int) == pos);
    FileScan { file_id, records, corrupt, truncated_tail }
}

// ---------------------------------------------------------------------------
// Laws of the scan
// ---------------------------------------------------------------------------

/// If the scan of `b` from `pos` reaches the end of `b`, appending bytes to
/// `b` leaves what was replayed unchanged and continues from the old end.
pub proof fn lemma_replay_append(
    m: Map<Seq<u8>, KeydirEntry>,
    file_id: u64,
    b: Seq<u8>,
    x: Seq<u8>,
    pos: int,
)
    requires
        0 <= pos,
        scan_end(b, pos) == b.len(),
    ensures
        replay(m, file_id, b + x, pos) == replay(replay(m, file_id, b, pos), file_id, b + x, b.len() as int),
        scan_end(b + x, pos) == scan_end(b + x, b.len() as int),
        valid_count(b + x, pos) == valid_count(b, pos) + valid_count(b + x, b.len() as int),
        corrupt_count(b + x, pos) == corrupt_count(b, pos) + corrupt_count(b + x, b.len() as int),
    decreases b.len() - pos,
{
    if pos < b.len() {
        lemma_parse_extend(b, x, pos);
        match parse_at(b, pos) {
            Parsed::Truncated => {},
            Parsed::Corrupt { len } => {
                lemma_replay_append(m, file_id, b, x, pos + len);
            },
            Parsed::Valid { timestamp, key, value, len } => {
                lemma_replay_append(
                    m.insert(key, entry_for(file_id, pos, key, value, timestamp)),
                    file_id,
                    b,
                    x,
                    pos + len,
                );
            },
        }
    }
}

/// Every entry that replaying `b` sets locates a valid record of its key in
/// `b`; the other entries are those of `m`.
pub proof fn lemma_replay_entries(
    m: Map<Seq<u8>, KeydirEntry>,
    file_id: u64,
    b: Seq<u8>,
    pos: int,
)
    requires
        b.len() <= u64::MAX,
    ensures
        forall|k: Seq<u8>| #[trigger]
            replay(m, file_id, b, pos).contains_key(k) ==> (m.contains_key(k) && replay(
                m,
                file_id,
                b,
                pos,
            )[k] == m[k]) || (replay(m, file_id, b, pos)[k].file_id == file_id && entry_ok_in(
                b,
                k,
                replay(m, file_id, b, pos)[k],
            )),
    decreases b.len() - pos,
{
    if pos < 0 || pos >= b.len() {
        assert(replay(m, file_id, b, pos) == m);
    } else {
        match parse_at(b, pos) {
            Parsed::Truncated => {},
            Parsed::Corrupt { len } => {
                lemma_replay_entries(m, file_id, b, pos + len);
                assert(replay(m, file_id, b, pos) == replay(m, file_id, b, pos + len));
            },
            Parsed::Valid { timestamp, key, value, len } => {
                let e = entry_for(file_id, pos, key, value, timestamp);
                let m2 = m.insert(key, e);
                lemma_replay_entries(m2, file_id, b, pos + len);
                let ks = key.len() as int;
                assert(pos + 20 + ks <= b.len());
                assert(e.value_pos == pos + 20 + ks);
                assert(value.len() <= u32::MAX);
                assert(e.value_size == value.len());
                assert(e.value_pos - 20 - key.len() == pos);
                assert(entry_ok_in(b, key, e));
                let r = replay(m, file_id, b, pos);
                assert(r == replay(m2, file_id, b, pos + len));
                assert forall|k: Seq<u8>| #[trigger] r.contains_key(k) implies (m.contains_key(k)
                    && r[k] == m[k]) || (r[k].file_id == file_id && entry_ok_in(b, k, r[k])) by {
                    if m2.contains_key(k) && r[k] == m2[k] && k == key {
                        assert(r[k] == e);
                    }
                }
            },
        }
    }
}

/// A truncated tail is ignored: appending a proper prefix of an encoded
/// record to a file whose records are all complete changes neither the
/// replayed index nor the count of records, and the scan stops at the old end.
pub proof fn lemma_truncated_tail_ignored(
    m: Map<Seq<u8>, KeydirEntry>,
    file_id: u64,
    b: Seq<u8>,
    timestamp: u64,
    key: Seq<u8>,
    value: Seq<u8>,
    n: int,
)
    requires
        scan_end(b, 0) == b.len(),
        encodable(key, value),
        0 <= n < record_bytes(timestamp, key, value).len(),
    ensures
        replay(m, file_id, b + record_bytes(timestamp, key, value).subrange(0, n), 0) == replay(
            m,
            file_id,
            b,
            0,
        ),
        valid_count(b + record_bytes(timestamp, key, value).subrange(0, n), 0) == valid_count(b, 0),
        scan_end(b + record_bytes(timestamp, key, value).subrange(0, n), 0) == b.len(),
{
    let t = record_bytes(timestamp, key, value).subrange(0, n);
    lemma_replay_append(m, file_id, b, t, 0);
    lemma_prefix_truncated(timestamp, key, value, n);
    lemma_parse_shift(b, t, 0);
}

/// A complete record with a broken checksum is skipped on its own: the scan
/// replays what precedes it and resumes right after it.
pub proof fn lemma_corrupt_record_skipped(
    m: Map<Seq<u8>, KeydirEntry>,
    file_id: u64,
    before: Seq<u8>,
    bad: Seq<u8>,
    after: Seq<u8>,
)
    requires
        scan_end(before, 0) == before.len(),
        parse_at(bad, 0) == (Parsed::Corrupt { len: bad.len() }),
    ensures
        replay(m, file_id, before + bad + after, 0) == replay(
            replay(m, file_id, before, 0),
            file_id,
            before + bad + after,
            (before.len() + bad.len()) as int,
        ),
{
    let tail = bad + after;
    assert(before + bad + after =~= before + tail);
    lemma_replay_append(m, file_id, before, tail, 0);
    lemma_parse_extend(bad, after, 0);
    lemma_parse_shift(before, tail, 0);
}

/// Appending an encoded record to a file whose records are all complete
/// replays as the old index with that record's entry set.
pub proof fn lemma_replay_appended_record(
    m: Map<Seq<u8>, KeydirEntry>,
    file_id: u64,
    b: Seq<u8>,
    timestamp: u64,
    key: Seq<u8>,
    value: Seq<u8>,
)
    requires
        scan_end(b, 0) == b.len(),
        encodable(key, value),
    ensures
        replay(m, file_id, b + record_bytes(timestamp, key, value), 0) == replay(m, file_id, b, 0).insert(
            key,
            entry_for(file_id, b.len() as int, key, value, timestamp),
        ),
        scan_end(b + record_bytes(timestamp, key, value), 0) == b.len() + record_bytes(
            timestamp,
            key,
            value,
        ).len(),
{
    let r = record_bytes(timestamp, key, value);
    let m1 = replay(m, file_id, b, 0);
    let e = entry_for(file_id, b.len() as int, key, value, timestamp);
    let c = b + r;
    lemma_replay_append(m, file_id, b, r, 0);
    lemma_round_trip(timestamp, key, value);
    lemma_parse_shift(b, r, 0);
    let p = b.len() as int;
    assert(parse_at(c, p) == (Parsed::Valid { timestamp, key, value, len: r.len() }));
    assert(r.len() >= 20);
    assert(p < c.len());
    assert(replay(m1, file_id, c, p) == replay(m1.insert(key, e), file_id, c, p + r.len()));
    assert(replay(m1.insert(key, e), file_id, c, p + r.len()) == m1.insert(key, e));
    assert(scan_end(c, p) == scan_end(c, p + r.len()));
}

} // verus!
