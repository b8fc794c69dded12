//! The on-disk record: a 20-byte header (checksum, timestamp, key size,
//! value size, all big-endian) followed by the key and the value bytes.
use vstd::prelude::*;

use crate::error::DatastoreError;

verus! {

/// Length of the fixed record header: checksum (4), timestamp (8),
/// key size (4) and value size (4).
pub const HEADER_LEN: usize = 20;

/// Reflected CRC-32 polynomial (IEEE 802.3).
pub const CRC_POLY: u32 = 0xEDB8_8320;

// ---------------------------------------------------------------------------
// Big-endian integers
// ---------------------------------------------------------------------------

pub open spec fn u32_bytes(n: u32) -> Seq<u8> {
    seq![(n >> 24u32) as u8, (n >> 16u32) as u8, (n >> 8u32) as u8, n as u8]
}

pub open spec fn u32_of(s: Seq<u8>) -> u32 {
    ((s[0] as u32) << 24u32) | ((s[1] as u32) << 16u32) | ((s[2] as u32) << 8u32) | (s[3] as u32)
}

pub open spec fn u64_bytes(n: u64) -> Seq<u8> {
    seq![
        (n >> 56u64) as u8,
        (n >> 48u64) as u8,
        (n >> 40u64) as u8,
        (n >> 32u64) as u8,
        (n >> 24u64) as u8,
        (n >> 16u64) as u8,
        (n >> 8u64) as u8,
        n as u8,
    ]
}

pub open spec fn u64_of(s: Seq<u8>) -> u64 {
    ((s[0] as u64) << 56u64) | ((s[1] as u64) << 48u64) | ((s[2] as u64) << 40u64) | ((s[3] as u64)
        << 32u64) | ((s[4] as u64) << 24u64) | ((s[5] as u64) << 16u64) | ((s[6] as u64) << 8u64)
        | (s[7] as u64)
}

pub proof fn lemma_u32_round_trip(n: u32)
    ensures
        u32_of(u32_bytes(n)) == n,
{
    let s = u32_bytes(n);
    let (a, b, c, d) = (s[0], s[1], s[2], s[3]);
    assert(a == (n >> 24u32) as u8 && b == (n >> 16u32) as u8 && c == (n >> 8u32) as u8 && d
        == n as u8);
    assert(((a as u32) << 24u32) | ((b as u32) << 16u32) | ((c as u32) << 8u32) | (d as u32) == n)
        by (bit_vector)
        requires
            a == (n >> 24u32) as u8,
            b == (n >> 16u32) as u8,
            c == (n >> 8u32) as u8,
            d == n as u8,
    ;
}

pub proof fn lemma_u64_round_trip(n: u64)
    ensures
        u64_of(u64_bytes(n)) == n,
{
    let s = u64_bytes(n);
    let (a, b, c, d, e, f, g, h) = (s[0], s[1], s[2], s[3], s[4], s[5], s[6], s[7]);
    assert(((a as u64) << 56u64) | ((b as u64) << 48u64) | ((c as u64) << 40u64) | ((d as u64)
        << 32u64) | ((e as u64) << 24u64) | ((f as u64) << 16u64) | ((g as u64) << 8u64) | (h as u64)
        == n) by (bit_vector)
        requires
            a == (n >> 56u64) as u8,
            b == (n >> 48u64) as u8,
            c == (n >> 40u64) as u8,
            d == (n >> 32u64) as u8,
            e == (n >> 24u64) as u8,
            f == (n >> 16u64) as u8,
            g == (n >> 8u64) as u8,
            h == n as u8,
    ;
}

fn read_u32(b: &Vec<u8>, pos: usize) -> (r: u32)
    requires
        pos + 4 <= b@.len(),
    ensures
        r == u32_of(b@.subrange(pos as int, pos + 4)),
{
    let _n = b.len();
    let s = Ghost(b@.subrange(pos as int, pos + 4));
    assert(s@[0] == b@[pos as int] && s@[1] == b@[pos + 1] && s@[2] == b@[pos + 2] && s@[3]
        == b@[pos + 3]);
    ((b[pos] as u32) << 24u32) | ((b[pos + 1] as u32) << 16u32) | ((b[pos + 2] as u32) << 8u32) | (
    b[pos + 3] as u32)
}

fn read_u64(b: &Vec<u8>, pos: usize) -> (r: u64)
    requires
        pos + 8 <= b@.len(),
    ensures
        r == u64_of(b@.subrange(pos as int, pos + 8)),
{
    let _n = b.len();
    let s = Ghost(b@.subrange(pos as int, pos + 8));
    assert(s@[0] == b@[pos as int] && s@[1] == b@[pos + 1] && s@[2] == b@[pos + 2] && s@[3]
        == b@[pos + 3] && s@[4] == b@[pos + 4] && s@[5] == b@[pos + 5] && s@[6] == b@[pos + 6]
        && s@[7] == b@[pos + 7]);
    ((b[pos] as u64) << 56u64) | ((b[pos + 1] as u64) << 48u64) | ((b[pos + 2] as u64) << 40u64) | (
    (b[pos + 3] as u64) << 32u64) | ((b[pos + 4] as u64) << 24u64) | ((b[pos + 5] as u64) << 16u64)
        | ((b[pos + 6] as u64) << 8u64) | (b[pos + 7] as u64)
}

fn push_u32(out: &mut Vec<u8>, n: u32)
    ensures
        final(out)@ == old(out)@ + u32_bytes(n),
{
    out.push((n >> 24u32) as u8);
    out.push((n >> 16u32) as u8);
    out.push((n >> 8u32) as u8);
    out.push(n as u8);
    assert(final(out)@ =~= old(out)@ + u32_bytes(n));
}

fn push_u64(out: &mut Vec<u8>, n: u64)
    ensures
        final(out)@ == old(out)@ + u64_bytes(n),
{
    out.push((n >> 56u64) as u8);
    out.push((n >> 48u64) as u8);
    out.push((n >> 40u64) as u8);
    out.push((n >> 32u64) as u8);
    out.push((n >> 24u64) as u8);
    out.push((n >> 16u64) as u8);
    out.push((n >> 8u64) as u8);
    out.push(n as u8);
    assert(final(out)@ =~= old(out)@ + u64_bytes(n));
}

fn push_bytes(out: &mut Vec<u8>, src: &Vec<u8>)
    ensures
        final(out)@ == old(out)@ + src@,
{
    let ghost start = out@;
    let mut i: usize = 0;
    while i < src.len()
        invariant
            i <= src@.len(),
            out@ == start + src@.subrange(0, i as int),
        decreases src@.len() - i,
    {
        out.push(src[i]);
        i = i + 1;
        assert(out@ =~= start + src@.subrange(0, i as int));
    }
    assert(src@.subrange(0, i as int) =~= src@);
}

// ---------------------------------------------------------------------------
// Checksum (CRC-32, IEEE)
// ---------------------------------------------------------------------------

/// One bit step of the reflected CRC-32 register.
pub open spec fn crc_shift(c: u32) -> u32 {
    if c & 1u32 == 1u32 {
        (c >> 1u32) ^ CRC_POLY
    } else {
        c >> 1u32
    }
}

/// The register after absorbing one byte.
pub open spec fn crc_byte(c: u32, b: u8) -> u32 {
    let x1 = crc_shift(c ^ (b as u32));
    let x2 = crc_shift(x1);
    let x3 = crc_shift(x2);
    let x4 = crc_shift(x3);
    let x5 = crc_shift(x4);
    let x6 = crc_shift(x5);
    let x7 = crc_shift(x6);
    crc_shift(x7)
}

/// The register after absorbing every byte of `s`, left to right.
pub open spec fn crc_register(s: Seq<u8>) -> u32
    decreases s.len(),
{
    if s.len() == 0 {
        0xFFFF_FFFFu32
    } else {
        crc_byte(crc_register(s.drop_last()), s.last())
    }
}

/// The CRC-32 checksum of `s`.
pub open spec fn checksum(s: Seq<u8>) -> u32 {
    !crc_register(s)
}

fn crc_shift_exec(c: u32) -> (r: u32)
    ensures
        r == crc_shift(c),
{
    if c & 1u32 == 1u32 {
        (c >> 1u32) ^ CRC_POLY
    } else {
        c >> 1u32
    }
}

fn crc_byte_exec(c: u32, b: u8) -> (r: u32)
    ensures
        r == crc_byte(c, b),
{
    let mut x: u32 = c ^ (b as u32);
    x = crc_shift_exec(x);
    x = crc_shift_exec(x);
    x = crc_shift_exec(x);
    x = crc_shift_exec(x);
    x = crc_shift_exec(x);
    x = crc_shift_exec(x);
    x = crc_shift_exec(x);
    crc_shift_exec(x)
}

/// CRC-32 of the bytes `b[start..end]`.
pub fn checksum_of(b: &Vec<u8>, start: usize, end: usize) -> (r: u32)
    requires
        start <= end <= b@.len(),
    ensures
        r == checksum(b@.subrange(start as int, end as int)),
{
    let mut c: u32 = 0xFFFF_FFFFu32;
    let mut i: usize = start;
    while i < end
        invariant
            start <= i <= end <= b@.len(),
            c == crc_register(b@.subrange(start as int, i as int)),
        decreases end - i,
    {
        let ghost prev = b@.subrange(start as int, i as int);
        c = crc_byte_exec(c, b[i]);
        i = i + 1;
        let ghost cur = b@.subrange(start as int, i as int);
        assert(cur.drop_last() =~= prev);
    }
    !c
}

// ---------------------------------------------------------------------------
// Records
// ---------------------------------------------------------------------------

/// A decoded record.
pub struct Record {
    pub timestamp: u64,
    pub key: Vec<u8>,
    pub value: Vec<u8>,
}

/// Everything after the checksum field: timestamp, sizes, key, value.
pub open spec fn record_body(timestamp: u64, key: Seq<u8>, value: Seq<u8>) -> Seq<u8> {
    u64_bytes(timestamp) + u32_bytes(key.len() as u32) + u32_bytes(value.len() as u32) + key + value
}

/// The exact bytes of the record for `(timestamp, key, value)`.
pub open spec fn record_bytes(timestamp: u64, key: Seq<u8>, value: Seq<u8>) -> Seq<u8> {
    let body = record_body(timestamp, key, value);
    u32_bytes(checksum(body)) + body
}

/// Sizes that the header can carry.
pub open spec fn encodable(key: Seq<u8>, value: Seq<u8>) -> bool {
    key.len() <= u32::MAX && value.len() <= u32::MAX
}

/// What is found at a position of a byte sequence.
pub enum Parsed {
    /// Fewer bytes remain than the header, or than the sizes it declares.
    Truncated,
    /// A complete record of `len` bytes whose checksum does not match.
    Corrupt { len: nat },
    /// A complete, checksum-valid record of `len` bytes.
    Valid { timestamp: u64, key: Seq<u8>, value: Seq<u8>, len: nat },
}

/// The record that starts at `pos` in `b`.
pub open spec fn parse_at(b: Seq<u8>, pos: int) -> Parsed {
    if pos < 0 || pos + 20 > b.len() {
        Parsed::Truncated
    } else {
        let ks = u32_of(b.subrange(pos + 12, pos + 16)) as int;
        let vs = u32_of(b.subrange(pos + 16, pos + 20)) as int;
        let len = 20 + ks + vs;
        if pos + len > b.len() {
            Parsed::Truncated
        } else if u32_of(b.subrange(pos, pos + 4)) != checksum(b.subrange(pos + 4, pos + len)) {
            Parsed::Corrupt { len: len as nat }
        } else {
            Parsed::Valid {
                timestamp: u64_of(b.subrange(pos + 4, pos + 12)),
                key: b.subrange(pos + 20, pos + 20 + ks),
                value: b.subrange(pos + 20 + ks, pos + len),
                len: len as nat,
            }
        }
    }
}

/// The executable counterpart of `Parsed`.
pub enum Decoded {
    Truncated,
    Corrupt { len: usize },
    Valid { record: Record, len: usize },
}

impl Decoded {
    pub open spec fn view(&self) -> Parsed {
        match self {
            Decoded::Truncated => Parsed::Truncated,
            Decoded::Corrupt { len } => Parsed::Corrupt { len: *len as nat },
            Decoded::Valid { record, len } => Parsed::Valid {
                timestamp: record.timestamp,
                key: record.key@,
                value: record.value@,
                len: *len as nat,
            },
        }
    }
}

fn copy_range(b: &Vec<u8>, start: usize, end: usize) -> (r: Vec<u8>)
    requires
        start <= end <= b@.len(),
    ensures
        r@ == b@.subrange(start as int, end as int),
{
    let mut out: Vec<u8> = Vec::new();
    let mut i: usize = start;
    while i < end
        invariant
            start <= i <= end <= b@.len(),
            out@ == b@.subrange(start as int, i as int),
        decreases end - i,
    {
        out.push(b[i]);
        i = i + 1;
        assert(out@ =~= b@.subrange(start as int, i as int));
    }
    out
}

/// Reads the record that starts at `pos`, never trusting the declared sizes
/// beyond the bytes available.
pub fn decode_at(b: &Vec<u8>, pos: usize) -> (r: Decoded)
    requires
        pos <= b@.len(),
    ensures
        r@ == parse_at(b@, pos as int),
        r matches Decoded::Corrupt { len } ==> pos + len <= b@.len(),
        r matches Decoded::Valid { len, .. } ==> pos + len <= b@.len(),
{
    let remaining = b.len() - pos;
    if remaining < HEADER_LEN {
        return Decoded::Truncated;
    }
    let ks = read_u32(b, pos + 12) as usize;
    let vs = read_u32(b, pos + 16) as usize;
    if remaining - HEADER_LEN < ks || remaining - HEADER_LEN - ks < vs {
        return Decoded::Truncated;
    }
    let len = HEADER_LEN + ks + vs;
    let stored = read_u32(b, pos);
    let computed = checksum_of(b, pos + 4, pos + len);
    if stored != computed {
        return Decoded::Corrupt { len };
    }
    let timestamp = read_u64(b, pos + 4);
    let key = copy_range(b, pos + HEADER_LEN, pos + HEADER_LEN + ks);
    let value = copy_range(b, pos + HEADER_LEN + ks, pos + len);
    Decoded::Valid { record: Record { timestamp, key, value }, len }
}

/// Decodes the record at the start of `bytes`. A header or payload that runs
/// past the end, or a checksum mismatch, is a `CorruptRecord`.
pub fn decode(bytes: &Vec<u8>) -> (r: Result<Record, DatastoreError>)
    ensures
        match parse_at(bytes@, 0) {
            Parsed::Valid { timestamp, key, value, .. } => r matches Ok(rec) && rec.timestamp
                == timestamp && rec.key@ == key && rec.value@ == value,
            _ => r == Err::<Record, DatastoreError>(DatastoreError::CorruptRecord),
        },
{
    match decode_at(bytes, 0) {
        Decoded::Valid { record, .. } => Ok(record),
        _ => Err(DatastoreError::CorruptRecord),
    }
}

/// Encodes one record: header, then key, then value.
pub fn encode(timestamp: u64, key: &Vec<u8>, value: &Vec<u8>) -> (r: Vec<u8>)
    requires
        encodable(key@, value@),
        key@.len() + value@.len() + 20 <= usize::MAX,
    ensures
        r@ == record_bytes(timestamp, key@, value@),
{
    let mut body: Vec<u8> = Vec::new();
    push_u64(&mut body, timestamp);
    push_u32(&mut body, key.len() as u32);
    push_u32(&mut body, value.len() as u32);
    push_bytes(&mut body, key);
    push_bytes(&mut body, value);
    assert(body@ =~= record_body(timestamp, key@, value@));
    let sum = checksum_of(&body, 0, body.len());
    assert(body@.subrange(0, body@.len() as int) =~= body@);
    let mut out: Vec<u8> = Vec::new();
    push_u32(&mut out, sum);
    push_bytes(&mut out, &body);
    assert(out@ =~= record_bytes(timestamp, key@, value@));
    out
}

// ---------------------------------------------------------------------------
// Laws of the format
// ---------------------------------------------------------------------------

/// Decoding an encoded record gives back its timestamp, key and value, with
/// a matching checksum, and it spans exactly the encoded bytes.
pub proof fn lemma_round_trip(timestamp: u64, key: Seq<u8>, value: Seq<u8>)
    requires
        encodable(key, value),
    ensures
        parse_at(record_bytes(timestamp, key, value), 0) == (Parsed::Valid {
            timestamp,
            key,
            value,
            len: record_bytes(timestamp, key, value).len(),
        }),
{
    let body = record_body(timestamp, key, value);
    let r = record_bytes(timestamp, key, value);
    let ks = key.len() as int;
    let vs = value.len() as int;
    assert(r.len() == 20 + ks + vs);
    assert(r.subrange(0, 4) =~= u32_bytes(checksum(body)));
    assert(r.subrange(4, 12) =~= u64_bytes(timestamp));
    assert(r.subrange(12, 16) =~= u32_bytes(key.len() as u32));
    assert(r.subrange(16, 20) =~= u32_bytes(value.len() as u32));
    lemma_u32_round_trip(checksum(body));
    lemma_u64_round_trip(timestamp);
    lemma_u32_round_trip(key.len() as u32);
    lemma_u32_round_trip(value.len() as u32);
    assert(r.subrange(4, r.len() as int) =~= body);
    assert(r.subrange(20, 20 + ks) =~= key);
    assert(r.subrange(20 + ks, r.len() as int) =~= value);
}

/// A record reads the same wherever its bytes are placed: what precedes it
/// does not matter.
pub proof fn lemma_parse_shift(pre: Seq<u8>, b: Seq<u8>, pos: int)
    requires
        0 <= pos,
    ensures
        parse_at(pre + b, pre.len() + pos) == parse_at(b, pos),
{
    let c = pre + b;
    let p = pre.len() + pos;
    if pos + 20 <= b.len() {
        assert(c.subrange(p + 12, p + 16) =~= b.subrange(pos + 12, pos + 16));
        assert(c.subrange(p + 16, p + 20) =~= b.subrange(pos + 16, pos + 20));
        let ks = u32_of(b.subrange(pos + 12, pos + 16)) as int;
        let vs = u32_of(b.subrange(pos + 16, pos + 20)) as int;
        let len = 20 + ks + vs;
        if pos + len <= b.len() {
            assert(c.subrange(p, p + 4) =~= b.subrange(pos, pos + 4));
            assert(c.subrange(p + 4, p + len) =~= b.subrange(pos + 4, pos + len));
            assert(c.subrange(p + 4, p + 12) =~= b.subrange(pos + 4, pos + 12));
            assert(c.subrange(p + 20, p + 20 + ks) =~= b.subrange(pos + 20, pos + 20 + ks));
            assert(c.subrange(p + 20 + ks, p + len) =~= b.subrange(pos + 20 + ks, pos + len));
        }
    }
}

/// A complete record (valid or not) reads the same whatever follows it.
pub proof fn lemma_parse_extend(b: Seq<u8>, x: Seq<u8>, pos: int)
    requires
        parse_at(b, pos) != Parsed::Truncated,
    ensures
        parse_at(b + x, pos) == parse_at(b, pos),
{
    let c = b + x;
    assert(c.subrange(pos + 12, pos + 16) =~= b.subrange(pos + 12, pos + 16));
    assert(c.subrange(pos + 16, pos + 20) =~= b.subrange(pos + 16, pos + 20));
    let ks = u32_of(b.subrange(pos + 12, pos + 16)) as int;
    let vs = u32_of(b.subrange(pos + 16, pos + 20)) as int;
    let len = 20 + ks + vs;
    assert(c.subrange(pos, pos + 4) =~= b.subrange(pos, pos + 4));
    assert(c.subrange(pos + 4, pos + len) =~= b.subrange(pos + 4, pos + len));
    assert(c.subrange(pos + 4, pos + 12) =~= b.subrange(pos + 4, pos + 12));
    assert(c.subrange(pos + 20, pos + 20 + ks) =~= b.subrange(pos + 20, pos + 20 + ks));
    assert(c.subrange(pos + 20 + ks, pos + len) =~= b.subrange(pos + 20 + ks, pos + len));
}

/// A complete record of `len` bytes reads the same from its own bytes alone.
pub proof fn lemma_parse_window(b: Seq<u8>, pos: int)
    requires
        0 <= pos,
        parse_at(b, pos) != Parsed::Truncated,
    ensures
        parse_at(b, pos) matches Parsed::Valid { len, .. } ==> parse_at(
            b.subrange(pos, pos + len),
            0,
        ) == parse_at(b, pos),
        parse_at(b, pos) matches Parsed::Corrupt { len } ==> parse_at(
            b.subrange(pos, pos + len),
            0,
        ) == parse_at(b, pos),
{
    let ks = u32_of(b.subrange(pos + 12, pos + 16)) as int;
    let vs = u32_of(b.subrange(pos + 16, pos + 20)) as int;
    let len = 20 + ks + vs;
    let pre = b.subrange(0, pos);
    let w = b.subrange(pos, pos + len);
    let post = b.subrange(pos + len, b.len() as int);
    assert(b =~= pre + w + post);
    lemma_parse_shift(pre, w + post, 0);
    assert(pre + (w + post) =~= b);
    lemma_parse_shift(Seq::<u8>::empty(), w, 0);
    assert(parse_at(w + post, 0) != Parsed::Truncated);
    lemma_parse_extend(w, post, 0);
}

/// Damage confined to the key or value bytes of an encoded record, when it
/// changes the checksum, leaves a complete record of the same length that
/// reads as corrupt.
pub proof fn lemma_payload_damage_is_corrupt(
    timestamp: u64,
    key: Seq<u8>,
    value: Seq<u8>,
    i: int,
    byte: u8,
)
    requires
        encodable(key, value),
        20 <= i < record_bytes(timestamp, key, value).len(),
        checksum(record_bytes(timestamp, key, value).update(i, byte).subrange(
            4,
            record_bytes(timestamp, key, value).len() as int,
        )) != checksum(record_body(timestamp, key, value)),
    ensures
        parse_at(record_bytes(timestamp, key, value).update(i, byte), 0) == (Parsed::Corrupt {
            len: record_bytes(timestamp, key, value).len(),
        }),
{
    let r = record_bytes(timestamp, key, value);
    let d = r.update(i, byte);
    lemma_round_trip(timestamp, key, value);
    assert(d.subrange(0, 4) =~= r.subrange(0, 4));
    assert(d.subrange(12, 16) =~= r.subrange(12, 16));
    assert(d.subrange(16, 20) =~= r.subrange(16, 20));
    assert(r.subrange(0, 4) =~= u32_bytes(checksum(record_body(timestamp, key, value))));
    lemma_u32_round_trip(checksum(record_body(timestamp, key, value)));
}

/// A proper prefix of an encoded record reads as truncated.
pub proof fn lemma_prefix_truncated(timestamp: u64, key: Seq<u8>, value: Seq<u8>, n: int)
    requires
        encodable(key, value),
        0 <= n < record_bytes(timestamp, key, value).len(),
    ensures
        parse_at(record_bytes(timestamp, key, value).subrange(0, n), 0) == Parsed::Truncated,
{
    let r = record_bytes(timestamp, key, value);
    let t = r.subrange(0, n);
    lemma_round_trip(timestamp, key, value);
    if n >= 20 {
        assert(t.subrange(12, 16) =~= r.subrange(12, 16));
        assert(t.subrange(16, 20) =~= r.subrange(16, 20));
    }
}

} // verus!
