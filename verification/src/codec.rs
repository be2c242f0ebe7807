//! The record codec: bit-exact encoding and decoding of log records.
//!
//! A record is laid out as
//! `[key_len: u8][value_len: u8][key][value][expiry: u64 LE][tombstone: u8][checksum: u32 LE]`,
//! 15 bytes of fixed overhead plus the key and value bytes. The checksum
//! covers the payload region (key, value, expiry and tombstone bytes) and is
//! recomputed and compared on every decode. An expiry word of 0 on disk
//! stands for "no expiry" and decodes back to `None`.

use crate::checksum::checksum_bytes;
use crate::checksum::lemma_checksum_sensitive;
use crate::checksum::spec_checksum;
use vstd::bytes::*;
use vstd::prelude::*;
use vstd::slice::slice_subrange;
use vstd::slice::slice_to_vec;

verus! {

/// The failure taxonomy of the storage core.
///
/// `Truncated`: fewer bytes were available than a record's declared layout
/// requires; benign at the true end of a log. `CorruptRecord`: a
/// length-complete record whose stored checksum does not match the recomputed
/// one; always fatal. `OversizedField`: a key or value longer than one length
/// byte can address, rejected before anything is written.
#[derive(Clone, Copy, Debug, PartialEq, Eq, Structural)]
pub enum StorageError {
    Truncated,
    CorruptRecord,
    OversizedField,
}

/// The mathematical model of a record: what a `Record` denotes.
#[verifier::ext_equal]
pub struct RecordModel {
    pub key: Seq<u8>,
    pub value: Seq<u8>,
    pub timestamp: Option<u64>,
    pub tombstone: bool,
    pub checksum: u32,
}

impl RecordModel {
    /// A well-formed record: both variable fields fit in one length byte,
    /// the expiry never collides with the on-disk "no expiry" sentinel, and
    /// the checksum field is the checksum of the payload.
    pub open spec fn wf(self) -> bool {
        &&& self.key.len() <= 255
        &&& self.value.len() <= 255
        &&& self.timestamp != Some(0u64)
        &&& self.checksum == spec_checksum(
            spec_payload(self.key, self.value, self.timestamp, self.tombstone),
        )
    }

    /// The encoded size of this record.
    pub open spec fn size(self) -> int {
        15 + self.key.len() as int + self.value.len() as int
    }
}

/// The unit persisted in the log: a key/value pair with optional expiry,
/// a tombstone flag, and the integrity checksum over the other fields.
#[derive(Debug)]
pub struct Record {
    pub key: Vec<u8>,
    pub value: Vec<u8>,
    pub timestamp: Option<u64>,
    pub tombstone: bool,
    pub checksum: u32,
}

impl View for Record {
    type V = RecordModel;

    open spec fn view(&self) -> RecordModel {
        RecordModel {
            key: self.key@,
            value: self.value@,
            timestamp: self.timestamp,
            tombstone: self.tombstone,
            checksum: self.checksum,
        }
    }
}

/// The 8-byte word a record's optional expiry is persisted as: 0 stands for
/// "no expiry".
pub open spec fn spec_timestamp_word(ts: Option<u64>) -> u64 {
    match ts {
        None => 0u64,
        Some(t) => t,
    }
}

/// An expiry normalised away from the on-disk sentinel: `Some(0)` means the
/// same as `None` and is stored as `None`.
pub open spec fn spec_norm_timestamp(ts: Option<u64>) -> Option<u64> {
    if ts == Some(0u64) {
        None
    } else {
        ts
    }
}

/// The checksummed region of an encoded record: key, value, expiry word and
/// tombstone byte.
pub open spec fn spec_payload(key: Seq<u8>, value: Seq<u8>, ts: Option<u64>, tombstone: bool) -> Seq<
    u8,
> {
    key + value + spec_u64_to_le_bytes(spec_timestamp_word(ts)) + seq![
        if tombstone {
            1u8
        } else {
            0u8
        },
    ]
}

/// The encoded bytes of a record.
pub open spec fn spec_encode(m: RecordModel) -> Seq<u8>
    recommends
        m.wf(),
{
    let payload = spec_payload(m.key, m.value, m.timestamp, m.tombstone);
    seq![m.key.len() as u8, m.value.len() as u8] + payload + spec_u32_to_le_bytes(
        spec_checksum(payload),
    )
}

/// Decoding one record from the front of `bytes`; trailing bytes are
/// ignored, so the same function describes both whole-buffer and streaming
/// decoding.
pub open spec fn spec_decode(bytes: Seq<u8>) -> Result<RecordModel, StorageError> {
    if bytes.len() < 2 {
        Err(StorageError::Truncated)
    } else {
        let kl = bytes[0] as int;
        let vl = bytes[1] as int;
        if bytes.len() < 15 + kl + vl {
            Err(StorageError::Truncated)
        } else {
            let payload = bytes.subrange(2, 11 + kl + vl);
            let stored = spec_u32_from_le_bytes(bytes.subrange(11 + kl + vl, 15 + kl + vl));
            if stored != spec_checksum(payload) {
                Err(StorageError::CorruptRecord)
            } else {
                let ts_word = spec_u64_from_le_bytes(bytes.subrange(2 + kl + vl, 10 + kl + vl));
                Ok(
                    RecordModel {
                        key: bytes.subrange(2, 2 + kl),
                        value: bytes.subrange(2 + kl, 2 + kl + vl),
                        timestamp: if ts_word == 0 {
                            None
                        } else {
                            Some(ts_word)
                        },
                        tombstone: bytes[10 + kl + vl] != 0,
                        checksum: stored,
                    },
                )
            }
        }
    }
}

/// The model a decode result denotes, for stating contracts.
pub open spec fn spec_result_model(r: Result<Record, StorageError>) -> Result<
    RecordModel,
    StorageError,
> {
    match r {
        Ok(rec) => Ok(rec@),
        Err(e) => Err(e),
    }
}

impl Record {
    /// Builds a record from its fields, normalising the expiry and computing
    /// the checksum over the encoded payload.
    pub fn new(key: &[u8], value: &[u8], timestamp: Option<u64>, tombstone: bool) -> (r: Record)
        requires
            key@.len() <= 255,
            value@.len() <= 255,
        ensures
            r@ == (RecordModel {
                key: key@,
                value: value@,
                timestamp: spec_norm_timestamp(timestamp),
                tombstone: tombstone,
                checksum: spec_checksum(
                    spec_payload(key@, value@, spec_norm_timestamp(timestamp), tombstone),
                ),
            }),
            r@.wf(),
    {
        let ts = match timestamp {
            Some(t) => if t == 0 {
                None
            } else {
                Some(t)
            },
            None => None,
        };
        let payload = make_payload(key, value, ts, tombstone);
        let ck = checksum_bytes(payload.as_slice());
        Record {
            key: slice_to_vec(key),
            value: slice_to_vec(value),
            timestamp: ts,
            tombstone: tombstone,
            checksum: ck,
        }
    }

    /// Encodes this record into its on-disk byte layout.
    pub fn to_buffer(&self) -> (buf: Vec<u8>)
        requires
            self.key@.len() <= 255,
            self.value@.len() <= 255,
        ensures
            buf@ == spec_encode(self@),
            buf@.len() == self@.size(),
    {
        let mut buf: Vec<u8> = Vec::new();
        buf.push(self.key.len() as u8);
        buf.push(self.value.len() as u8);
        let payload = make_payload(
            self.key.as_slice(),
            self.value.as_slice(),
            self.timestamp,
            self.tombstone,
        );
        let ck = checksum_bytes(payload.as_slice());
        buf.extend_from_slice(payload.as_slice());
        let ck_bytes = u32_to_le_bytes(ck);
        buf.extend_from_slice(ck_bytes.as_slice());
        proof {
            assert(buf@ =~= spec_encode(self@));
        }
        buf
    }
}

/// Builds the checksummed payload region: key, value, expiry word, tombstone
/// byte.
fn make_payload(key: &[u8], value: &[u8], timestamp: Option<u64>, tombstone: bool) -> (p: Vec<u8>)
    requires
        key@.len() <= 255,
        value@.len() <= 255,
    ensures
        p@ == spec_payload(key@, value@, timestamp, tombstone),
        p@.len() == key@.len() + value@.len() + 9,
{
    let mut p: Vec<u8> = Vec::new();
    p.extend_from_slice(key);
    p.extend_from_slice(value);
    let ts_word: u64 = match timestamp {
        Some(t) => t,
        None => 0,
    };
    let ts_bytes = u64_to_le_bytes(ts_word);
    p.extend_from_slice(ts_bytes.as_slice());
    p.push(if tombstone {
        1
    } else {
        0
    });
    proof {
        assert(p@ =~= spec_payload(key@, value@, timestamp, tombstone));
    }
    p
}

/// Decodes and validates one record from the front of `buffer`; bytes past
/// the record's declared layout are ignored.
pub fn parse_key_value_from_buffer(buffer: &[u8]) -> (r: Result<Record, StorageError>)
    ensures
        spec_result_model(r) == spec_decode(buffer@),
{
    if buffer.len() < 2 {
        return Err(StorageError::Truncated);
    }
    let kl = buffer[0] as usize;
    let vl = buffer[1] as usize;
    let size = 15 + kl + vl;
    if buffer.len() < size {
        return Err(StorageError::Truncated);
    }
    let payload = slice_subrange(buffer, 2, 11 + kl + vl);
    let computed = checksum_bytes(payload);
    let stored = u32_from_le_bytes(slice_subrange(buffer, 11 + kl + vl, 15 + kl + vl));
    if stored != computed {
        return Err(StorageError::CorruptRecord);
    }
    let key = slice_to_vec(slice_subrange(buffer, 2, 2 + kl));
    let value = slice_to_vec(slice_subrange(buffer, 2 + kl, 2 + kl + vl));
    let ts_word = u64_from_le_bytes(slice_subrange(buffer, 2 + kl + vl, 10 + kl + vl));
    let timestamp = if ts_word == 0 {
        None
    } else {
        Some(ts_word)
    };
    let tombstone = buffer[10 + kl + vl] != 0;
    Ok(
        Record {
            key: key,
            value: value,
            timestamp: timestamp,
            tombstone: tombstone,
            checksum: stored,
        },
    )
}

/// Shape of an encoded well-formed record: its length, its two length
/// bytes, and its payload and checksum regions.
pub proof fn lemma_encode_shape(m: RecordModel)
    requires
        m.wf(),
    ensures
        spec_encode(m).len() == m.size(),
        spec_encode(m)[0] == m.key.len() as u8,
        spec_encode(m)[1] == m.value.len() as u8,
        spec_encode(m).subrange(2, m.size() - 4) == spec_payload(
            m.key,
            m.value,
            m.timestamp,
            m.tombstone,
        ),
        spec_encode(m).subrange(m.size() - 4, m.size()) == spec_u32_to_le_bytes(m.checksum),
{
    lemma_auto_spec_u64_to_from_le_bytes();
    lemma_auto_spec_u32_to_from_le_bytes();
    let payload = spec_payload(m.key, m.value, m.timestamp, m.tombstone);
    assert(spec_encode(m).subrange(2, m.size() - 4) =~= payload);
    assert(spec_encode(m).subrange(m.size() - 4, m.size()) =~= spec_u32_to_le_bytes(m.checksum));
}

/// Round trip: decoding the encoding of any well-formed record yields that
/// record.
pub proof fn lemma_round_trip(m: RecordModel)
    requires
        m.wf(),
    ensures
        spec_decode(spec_encode(m)) == Ok::<RecordModel, StorageError>(m),
{
    lemma_auto_spec_u64_to_from_le_bytes();
    lemma_auto_spec_u32_to_from_le_bytes();
    lemma_encode_shape(m);
    let e = spec_encode(m);
    let kl = m.key.len() as int;
    let vl = m.value.len() as int;
    let payload = spec_payload(m.key, m.value, m.timestamp, m.tombstone);
    assert(e.subrange(2, 11 + kl + vl) =~= payload);
    assert(e.subrange(11 + kl + vl, 15 + kl + vl) =~= spec_u32_to_le_bytes(m.checksum));
    assert(e.subrange(2, 2 + kl) =~= m.key);
    assert(e.subrange(2 + kl, 2 + kl + vl) =~= m.value);
    assert(e.subrange(2 + kl + vl, 10 + kl + vl) =~= spec_u64_to_le_bytes(
        spec_timestamp_word(m.timestamp),
    ));
    assert(e[10 + kl + vl] == if m.tombstone {
        1u8
    } else {
        0u8
    });
    match spec_decode(e) {
        Ok(mm) => {
            assert(mm =~= m);
        },
        Err(_) => {
            assert(false);
        },
    }
}

/// Decoding looks only at one record's bytes: appending anything after a
/// decodable record does not change what is decoded.
pub proof fn lemma_decode_extend(s: Seq<u8>, t: Seq<u8>)
    requires
        spec_decode(s) is Ok,
    ensures
        spec_decode(s + t) == spec_decode(s),
{
    let c = s + t;
    let kl = s[0] as int;
    let vl = s[1] as int;
    assert(c[0] == s[0]);
    assert(c[1] == s[1]);
    assert(c.subrange(2, 11 + kl + vl) =~= s.subrange(2, 11 + kl + vl));
    assert(c.subrange(11 + kl + vl, 15 + kl + vl) =~= s.subrange(11 + kl + vl, 15 + kl + vl));
    assert(c.subrange(2, 2 + kl) =~= s.subrange(2, 2 + kl));
    assert(c.subrange(2 + kl, 2 + kl + vl) =~= s.subrange(2 + kl, 2 + kl + vl));
    assert(c.subrange(2 + kl + vl, 10 + kl + vl) =~= s.subrange(2 + kl + vl, 10 + kl + vl));
    assert(c[10 + kl + vl] == s[10 + kl + vl]);
    match (spec_decode(c), spec_decode(s)) {
        (Ok(a), Ok(b)) => {
            assert(a =~= b);
        },
        _ => {
            assert(false);
        },
    }
}

/// Decoding looks only at one record's bytes: cutting a decodable prefix
/// down to exactly the record's declared size does not change what is
/// decoded.
pub proof fn lemma_decode_restrict(s: Seq<u8>)
    requires
        spec_decode(s) is Ok,
    ensures
        spec_decode(s.take(15 + s[0] as int + s[1] as int)) == spec_decode(s),
{
    let kl = s[0] as int;
    let vl = s[1] as int;
    let c = s.take(15 + kl + vl);
    assert(c[0] == s[0]);
    assert(c[1] == s[1]);
    assert(c.subrange(2, 11 + kl + vl) =~= s.subrange(2, 11 + kl + vl));
    assert(c.subrange(11 + kl + vl, 15 + kl + vl) =~= s.subrange(11 + kl + vl, 15 + kl + vl));
    assert(c.subrange(2, 2 + kl) =~= s.subrange(2, 2 + kl));
    assert(c.subrange(2 + kl, 2 + kl + vl) =~= s.subrange(2 + kl, 2 + kl + vl));
    assert(c.subrange(2 + kl + vl, 10 + kl + vl) =~= s.subrange(2 + kl + vl, 10 + kl + vl));
    assert(c[10 + kl + vl] == s[10 + kl + vl]);
    match (spec_decode(c), spec_decode(s)) {
        (Ok(a), Ok(b)) => {
            assert(a =~= b);
        },
        _ => {
            assert(false);
        },
    }
}

/// Truncation detection: decoding any strict prefix of a well-formed
/// record's encoding reports truncation, never corruption and never success.
pub proof fn lemma_truncation_detected(m: RecordModel, n: int)
    requires
        m.wf(),
        0 <= n < m.size(),
    ensures
        spec_decode(spec_encode(m).take(n)) == Err::<RecordModel, StorageError>(
            StorageError::Truncated,
        ),
{
    lemma_encode_shape(m);
    let e = spec_encode(m);
    let p = e.take(n);
    if n >= 2 {
        assert(p[0] == e[0]);
        assert(p[1] == e[1]);
    }
}

/// Corruption detection: changing any single byte in the payload region
/// (key, value, expiry or tombstone bytes) of a well-formed record's
/// encoding makes decoding report corruption.
pub proof fn lemma_byte_change_corrupt(m: RecordModel, i: int, b: u8)
    requires
        m.wf(),
        2 <= i < m.size() - 4,
        b != spec_encode(m)[i],
    ensures
        spec_decode(spec_encode(m).update(i, b)) == Err::<RecordModel, StorageError>(
            StorageError::CorruptRecord,
        ),
{
    lemma_auto_spec_u32_to_from_le_bytes();
    lemma_encode_shape(m);
    let e = spec_encode(m);
    let f = e.update(i, b);
    let kl = m.key.len() as int;
    let vl = m.value.len() as int;
    let payload = spec_payload(m.key, m.value, m.timestamp, m.tombstone);
    assert(f[0] == e[0]);
    assert(f[1] == e[1]);
    assert(f.subrange(11 + kl + vl, 15 + kl + vl) =~= spec_u32_to_le_bytes(m.checksum));
    assert(e.subrange(2, 11 + kl + vl) =~= payload);
    assert(f.subrange(2, 11 + kl + vl) =~= payload.update(i - 2, b));
    assert(payload[i - 2] == e[i]);
    lemma_checksum_sensitive(payload, i - 2, b);
}

/// Corruption detection, stated for single-bit flips: flipping any one bit
/// in the payload region of a well-formed record's encoding makes decoding
/// report corruption.
pub proof fn lemma_bit_flip_corrupt(m: RecordModel, i: int, bit: u8)
    requires
        m.wf(),
        2 <= i < m.size() - 4,
        bit < 8,
    ensures
        spec_decode(spec_encode(m).update(i, spec_encode(m)[i] ^ (1u8 << bit))) == Err::<
            RecordModel,
            StorageError,
        >(StorageError::CorruptRecord),
{
    let x = spec_encode(m)[i];
    assert((x ^ (1u8 << bit)) != x) by (bit_vector)
        requires
            bit < 8,
    ;
    lemma_byte_change_corrupt(m, i, x ^ (1u8 << bit));
}

/// Decodes one record from `bytes` starting at `cursor`; on success the
/// cursor is left immediately after the record, so repeated calls walk a log
/// sequentially. On failure the cursor does not move.
pub fn parse_key_value_from_reader(bytes: &[u8], cursor: &mut usize) -> (r: Result<
    Record,
    StorageError,
>)
    requires
        *old(cursor) <= bytes@.len(),
    ensures
        spec_result_model(r) == spec_decode(bytes@.subrange(*old(cursor) as int, bytes@.len() as int)),
        match r {
            Ok(rec) => *final(cursor) == *old(cursor) + rec@.size(),
            Err(_) => *final(cursor) == *old(cursor),
        },
{
    let tail = slice_subrange(bytes, *cursor, bytes.len());
    let r = parse_key_value_from_buffer(tail);
    match r {
        Ok(rec) => {
            *cursor = *cursor + 15 + rec.key.len() + rec.value.len();
            Ok(rec)
        },
        Err(e) => Err(e),
    }
}

} // verus!
