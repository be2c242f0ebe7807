//! The storage engine: composes the codec, the append-only log and the
//! in-memory index into the put/get/update/delete operations, startup
//! recovery by full log replay, and time-based expiry sweeps.
//!
//! A write encodes a record, appends it to the log, and points the index at
//! the appended byte range. A read looks the key up in the index, reads that
//! exact byte range back and decodes it. Recovery rebuilds the index by
//! decoding the log from the start, later records superseding earlier ones
//! (last-writer-wins) and tombstones removing their key.

use crate::checksum::spec_checksum;
use crate::clock::current_time_seconds;
use crate::codec::lemma_decode_extend;
use crate::codec::lemma_decode_restrict;
use crate::codec::lemma_round_trip;
use crate::codec::parse_key_value_from_buffer;
use crate::codec::parse_key_value_from_reader;
use crate::codec::spec_decode;
use crate::codec::spec_encode;
use crate::codec::spec_norm_timestamp;
use crate::codec::spec_payload;
use crate::codec::Record;
use crate::codec::RecordModel;
use crate::codec::StorageError;
use crate::index::lex_lt;
use crate::index::spec_sweep;
use crate::index::Index;
use crate::index::IndexEntry;
use crate::log::Log;
use vstd::prelude::*;
use vstd::slice::slice_to_vec;

verus! {

/// A live index entry is consistent with the log: it addresses a complete,
/// checksum-valid, non-tombstone record for exactly that key, and carries
/// that record's expiry.
pub open spec fn spec_entry_ok(log: Seq<u8>, k: Seq<u8>, e: IndexEntry) -> bool {
    &&& e.0 + e.1 <= log.len()
    &&& match spec_decode(log.subrange(e.0 as int, e.0 + e.1)) {
        Ok(rm) => {
            &&& rm.key == k
            &&& !rm.tombstone
            &&& rm.size() == e.1
            &&& rm.timestamp == e.3
            &&& !e.2
        },
        Err(_) => false,
    }
}

/// The value stored by the record an index entry addresses.
pub open spec fn spec_value_at(log: Seq<u8>, e: IndexEntry) -> Seq<u8> {
    match spec_decode(log.subrange(e.0 as int, e.0 + e.1)) {
        Ok(rm) => rm.value,
        Err(_) => Seq::empty(),
    }
}

/// What one replayed record does to the index under rebuild: a tombstone
/// removes its key, any other record becomes the key's latest entry.
pub open spec fn spec_apply_record(
    m: Map<Seq<u8>, IndexEntry>,
    rm: RecordModel,
    off: int,
) -> Map<Seq<u8>, IndexEntry> {
    if rm.tombstone {
        m.remove(rm.key)
    } else {
        m.insert(rm.key, (off as u64, rm.size() as u64, false, rm.timestamp))
    }
}

/// How a full log replay ends: `Complete` when every byte belongs to a
/// decoded record, `Partial` when a truncated tail was cut off cleanly, and
/// `Fail` on a corrupt record.
#[verifier::ext_equal]
pub enum ReplayOutcome {
    Complete(Map<Seq<u8>, IndexEntry>),
    Partial(Map<Seq<u8>, IndexEntry>),
    Fail,
}

/// Replay of `log` from offset `off` onward, starting from index map `m`.
pub open spec fn spec_replay_from(log: Seq<u8>, off: int, m: Map<Seq<u8>, IndexEntry>) -> ReplayOutcome
    decreases log.len() - off,
    when 0 <= off <= log.len()
{
    if off == log.len() {
        ReplayOutcome::Complete(m)
    } else {
        match spec_decode(log.subrange(off, log.len() as int)) {
            Err(StorageError::Truncated) => ReplayOutcome::Partial(m),
            Err(_) => ReplayOutcome::Fail,
            Ok(rm) => spec_replay_from(log, off + rm.size(), spec_apply_record(m, rm, off)),
        }
    }
}

/// Replay of a whole log from its start, as recovery performs it.
pub open spec fn spec_replay(log: Seq<u8>) -> ReplayOutcome {
    spec_replay_from(log, 0, Map::empty())
}

/// The record a write persists for the given arguments.
pub open spec fn spec_write_model(
    key: Seq<u8>,
    value: Seq<u8>,
    timestamp: Option<u64>,
    tombstone: bool,
) -> RecordModel {
    RecordModel {
        key: key,
        value: value,
        timestamp: spec_norm_timestamp(timestamp),
        tombstone: tombstone,
        checksum: spec_checksum(
            spec_payload(key, value, spec_norm_timestamp(timestamp), tombstone),
        ),
    }
}

/// The storage engine: an append-only log and the index over it.
pub struct SStStorage {
    index: Index,
    log: Log,
}

/// What a successful non-tombstone write does: the encoded record is
/// appended at the log's old end and the index points the key at it.
pub open spec fn spec_put_effect(
    pre: SStStorage,
    post: SStStorage,
    key: Seq<u8>,
    value: Seq<u8>,
    timestamp: Option<u64>,
) -> bool {
    let rm = spec_write_model(key, value, timestamp, false);
    &&& post.spec_log() == pre.spec_log() + spec_encode(rm)
    &&& post.spec_index() == pre.spec_index().insert(
        key,
        (pre.spec_log().len() as u64, rm.size() as u64, false, spec_norm_timestamp(timestamp)),
    )
}

/// What a delete does: nothing if the key is absent; otherwise a tombstone
/// record is appended and the key leaves the index.
pub open spec fn spec_delete_effect(pre: SStStorage, post: SStStorage, key: Seq<u8>) -> bool {
    if pre.spec_index().contains_key(key) {
        let rm = spec_write_model(key, Seq::empty(), None, true);
        &&& post.spec_log() == pre.spec_log() + spec_encode(rm)
        &&& post.spec_index() == pre.spec_index().remove(key)
    } else {
        post == pre
    }
}

/// Appending bytes after a record leaves every entry that addressed the old
/// log intact.
proof fn lemma_entry_ok_extend(log: Seq<u8>, t: Seq<u8>, k: Seq<u8>, e: IndexEntry)
    requires
        spec_entry_ok(log, k, e),
    ensures
        spec_entry_ok(log + t, k, e),
{
    assert((log + t).subrange(e.0 as int, e.0 + e.1) =~= log.subrange(e.0 as int, e.0 + e.1));
}

/// Appending one well-formed record to a cleanly replayable log replays to
/// the same index with that one record applied at the old end.
proof fn lemma_replay_from_append(log: Seq<u8>, off: int, m: Map<Seq<u8>, IndexEntry>, rm: RecordModel)
    requires
        0 <= off <= log.len(),
        rm.wf(),
        spec_replay_from(log, off, m) is Complete,
    ensures
        spec_replay_from(log + spec_encode(rm), off, m) == ReplayOutcome::Complete(
            spec_apply_record(spec_replay_from(log, off, m)->Complete_0, rm, log.len() as int),
        ),
    decreases log.len() - off,
{
    crate::codec::lemma_encode_shape(rm);
    let whole = log + spec_encode(rm);
    if off == log.len() {
        let rest = whole.subrange(off, whole.len() as int);
        assert(rest =~= spec_encode(rm));
        lemma_round_trip(rm);
        assert(spec_replay_from(whole, off, m) == spec_replay_from(
            whole,
            off + rm.size(),
            spec_apply_record(m, rm, off),
        ));
    } else {
        let rest = log.subrange(off, log.len() as int);
        match spec_decode(rest) {
            Err(StorageError::Truncated) => {
                assert(false);
            },
            Err(_) => {
                assert(false);
            },
            Ok(r0) => {
                let rest2 = whole.subrange(off, whole.len() as int);
                assert(rest2 =~= rest + spec_encode(rm));
                lemma_decode_extend(rest, spec_encode(rm));
                lemma_replay_from_append(log, off + r0.size(), spec_apply_record(m, r0, off), rm);
            },
        }
    }
}

impl SStStorage {
    /// The index the engine holds, as a map from key to entry.
    pub closed spec fn spec_index(self) -> Map<Seq<u8>, IndexEntry> {
        self.index@
    }

    /// The log bytes the engine holds.
    pub closed spec fn spec_log(self) -> Seq<u8> {
        self.log@
    }

    /// The index's own invariant (one entry per key).
    pub closed spec fn index_inv(self) -> bool {
        self.index.inv()
    }

    /// The engine's invariant: the index is well formed and every live
    /// entry addresses a valid, live record of its own key.
    pub open spec fn wf(self) -> bool {
        &&& self.index_inv()
        &&& forall|k: Seq<u8>| #[trigger]
            self.spec_index().contains_key(k) ==> spec_entry_ok(
                self.spec_log(),
                k,
                self.spec_index()[k],
            )
    }

    /// The engine's observable contents: each live key mapped to the value
    /// of its most recent record.
    pub open spec fn contents(self) -> Map<Seq<u8>, Seq<u8>> {
        Map::new(
            |k: Seq<u8>| self.spec_index().contains_key(k),
            |k: Seq<u8>| spec_value_at(self.spec_log(), self.spec_index()[k]),
        )
    }

    /// The index agrees with a full replay of the log: what recovery over
    /// these log bytes would rebuild is exactly this index.
    pub open spec fn synced(self) -> bool {
        spec_replay(self.spec_log()) == ReplayOutcome::Complete(self.spec_index())
    }

    /// A fresh engine over a log: the index starts empty, so a log with
    /// prior records needs `load_db_from_disk` before reads.
    pub fn new(log: Log) -> (r: SStStorage)
        ensures
            r.spec_log() == log@,
            r.spec_index() == Map::<Seq<u8>, IndexEntry>::empty(),
            r.wf(),
            log@.len() == 0 ==> r.synced(),
    {
        let r = SStStorage { index: Index::new(), log: log };
        proof {
            if r.spec_log().len() == 0 {
                assert(spec_replay(r.spec_log()) == ReplayOutcome::Complete(
                    Map::<Seq<u8>, IndexEntry>::empty(),
                ));
            }
        }
        r
    }

    /// The log, for reading raw bytes back and for mirroring appends to a
    /// durable medium.
    pub fn log(&self) -> (r: &Log)
        ensures
            r@ == self.spec_log(),
    {
        &self.log
    }

    /// The number of live keys.
    pub fn index_len(&self) -> (r: usize)
        requires
            self.wf(),
        ensures
            r == self.spec_index().dom().len(),
    {
        self.index.len()
    }

    /// Whether a key is live.
    pub fn contains_key(&self, key: &[u8]) -> (r: bool)
        requires
            self.wf(),
        ensures
            r == self.spec_index().contains_key(key@),
    {
        self.index.contains_key(key)
    }

    /// The index entry for a key, if the key is live.
    pub fn get_entry(&self, key: &[u8]) -> (r: Option<IndexEntry>)
        requires
            self.wf(),
        ensures
            match r {
                Some(e) => self.spec_index().contains_key(key@) && self.spec_index()[key@] == e,
                None => !self.spec_index().contains_key(key@),
            },
    {
        self.index.get(key)
    }

    /// Points the index at a record already in the log. The entry must
    /// address a valid live record for the key: this is the maintenance
    /// primitive writes and recovery build the index with.
    pub fn insert_key(&mut self, key: Vec<u8>, value: IndexEntry)
        requires
            old(self).wf(),
            spec_entry_ok(old(self).spec_log(), key@, value),
        ensures
            final(self).wf(),
            final(self).spec_log() == old(self).spec_log(),
            final(self).spec_index() == old(self).spec_index().insert(key@, value),
    {
        self.index.insert(key, value);
        proof {
            assert forall|k: Seq<u8>| #[trigger]
                self.spec_index().contains_key(k) implies spec_entry_ok(
                self.spec_log(),
                k,
                self.spec_index()[k],
            ) by {
                if k != key@ {
                    assert(old(self).spec_index().contains_key(k));
                }
            }
        }
    }

    /// Encodes a record and appends it to the log; unless the record is a
    /// tombstone, the index is pointed at the appended range. Fails only
    /// when the key or value cannot fit one length byte, in which case
    /// nothing is written.
    pub fn write(
        &mut self,
        key: &[u8],
        value: &[u8],
        mark_as_deleted: bool,
        timestamp: Option<u64>,
    ) -> (r: Result<(), StorageError>)
        requires
            old(self).wf(),
        ensures
            final(self).wf(),
            match r {
                Ok(()) => {
                    let rm = spec_write_model(key@, value@, timestamp, mark_as_deleted);
                    &&& key@.len() <= 255 && value@.len() <= 255
                    &&& final(self).spec_log() == old(self).spec_log() + spec_encode(rm)
                    &&& if mark_as_deleted {
                        final(self).spec_index() == old(self).spec_index()
                    } else {
                        spec_put_effect(*old(self), *final(self), key@, value@, timestamp)
                    }
                    &&& (old(self).synced() ==> spec_replay(final(self).spec_log())
                        == ReplayOutcome::Complete(
                        spec_apply_record(
                            old(self).spec_index(),
                            rm,
                            old(self).spec_log().len() as int,
                        ),
                    ))
                    &&& (old(self).synced() && !mark_as_deleted ==> final(self).synced())
                },
                Err(e) => {
                    &&& e == StorageError::OversizedField
                    &&& (key@.len() > 255 || value@.len() > 255)
                    &&& *final(self) == *old(self)
                },
            },
    {
        if key.len() > 255 || value.len() > 255 {
            return Err(StorageError::OversizedField);
        }
        let rec = Record::new(key, value, timestamp, mark_as_deleted);
        let buf = rec.to_buffer();
        let ghost rm = rec@;
        let ghost old_log = self.log@;
        let offset = self.log.append(buf.as_slice());
        let length = buf.len() as u64;
        proof {
            lemma_round_trip(rm);
            assert(self.log@.subrange(offset as int, offset + length as int) =~= spec_encode(rm));
            assert forall|k: Seq<u8>| #[trigger]
                old(self).spec_index().contains_key(k) implies spec_entry_ok(
                self.log@,
                k,
                old(self).spec_index()[k],
            ) by {
                lemma_entry_ok_extend(old_log, spec_encode(rm), k, old(self).spec_index()[k]);
            }
            if old(self).synced() {
                lemma_replay_from_append(old_log, 0, Map::empty(), rm);
            }
        }
        if !mark_as_deleted {
            self.index.insert(slice_to_vec(key), (offset, length, false, rec.timestamp));
        }
        Ok(())
    }

    /// Looks a key up and reads its value back from the log. Absent keys
    /// read as `None`; present keys always decode, because the engine's
    /// invariant ties every index entry to a valid record.
    pub fn read(&self, key: &[u8]) -> (r: Result<Option<Vec<u8>>, StorageError>)
        requires
            self.wf(),
        ensures
            match r {
                Ok(Some(v)) => self.contents().contains_key(key@) && v@ == self.contents()[key@],
                Ok(None) => !self.contents().contains_key(key@),
                Err(_) => false,
            },
    {
        match self.index.get(key) {
            None => Ok(None),
            Some(e) => {
                proof {
                    assert(self.spec_index().contains_key(key@));
                    assert(spec_entry_ok(self.spec_log(), key@, e));
                }
                let bytes = match self.log.read_at(e.0, e.1) {
                    Ok(b) => b,
                    Err(err) => {
                        proof {
                            assert(false);
                        }
                        return Err(err);
                    },
                };
                match parse_key_value_from_buffer(bytes.as_slice()) {
                    Ok(rec) => Ok(Some(rec.value)),
                    Err(err) => {
                        proof {
                            assert(false);
                        }
                        Err(err)
                    },
                }
            },
        }
    }

    /// Rewrites an existing key; a no-op that still succeeds when the key
    /// is absent, so unlike `write` this never creates a new key.
    pub fn update(
        &mut self,
        key: &[u8],
        updated_value: &[u8],
        mark_as_deleted: bool,
        timestamp: Option<u64>,
    ) -> (r: Result<(), StorageError>)
        requires
            old(self).wf(),
        ensures
            final(self).wf(),
            !old(self).spec_index().contains_key(key@) ==> *final(self) == *old(self) && r
                == Ok::<(), StorageError>(()),
            old(self).spec_index().contains_key(key@) ==> match r {
                Ok(()) => {
                    let rm = spec_write_model(key@, updated_value@, timestamp, mark_as_deleted);
                    &&& updated_value@.len() <= 255
                    &&& final(self).spec_log() == old(self).spec_log() + spec_encode(rm)
                    &&& if mark_as_deleted {
                        final(self).spec_index() == old(self).spec_index()
                    } else {
                        spec_put_effect(*old(self), *final(self), key@, updated_value@, timestamp)
                    }
                    &&& (old(self).synced() && !mark_as_deleted ==> final(self).synced())
                },
                Err(e) => {
                    &&& e == StorageError::OversizedField
                    &&& updated_value@.len() > 255
                    &&& *final(self) == *old(self)
                },
            },
    {
        if self.index.contains_key(key) {
            proof {
                assert(self.spec_index().contains_key(key@));
                assert(spec_entry_ok(self.spec_log(), key@, self.spec_index()[key@]));
                assert(key@.len() <= 255);
            }
            self.write(key, updated_value, mark_as_deleted, timestamp)
        } else {
            Ok(())
        }
    }

    /// Deletes a live key: appends a tombstone record (empty value, no
    /// expiry) for future replay, then removes the key from the index. A
    /// no-op that still succeeds when the key is absent.
    pub fn delete_key(&mut self, key: &[u8]) -> (r: Result<(), StorageError>)
        requires
            old(self).wf(),
        ensures
            final(self).wf(),
            r == Ok::<(), StorageError>(()),
            spec_delete_effect(*old(self), *final(self), key@),
            old(self).synced() ==> final(self).synced(),
    {
        if self.index.contains_key(key) {
            proof {
                assert(self.spec_index().contains_key(key@));
                assert(spec_entry_ok(self.spec_log(), key@, self.spec_index()[key@]));
                assert(key@.len() <= 255);
            }
            let empty: Vec<u8> = Vec::new();
            let res = self.write(key, empty.as_slice(), true, Some(0));
            match res {
                Ok(()) => {},
                Err(_) => {
                    proof {
                        assert(false);
                    }
                },
            }
            let ghost mid = *self;
            proof {
                assert(empty@ =~= Seq::<u8>::empty());
            }
            self.index.remove(key);
            proof {
                assert forall|k: Seq<u8>| #[trigger]
                    self.spec_index().contains_key(k) implies spec_entry_ok(
                    self.spec_log(),
                    k,
                    self.spec_index()[k],
                ) by {
                    assert(mid.spec_index().contains_key(k));
                    assert(spec_entry_ok(mid.spec_log(), k, mid.spec_index()[k]));
                }
            }
            Ok(())
        } else {
            Ok(())
        }
    }

    /// Rebuilds the index by replaying the whole log from offset 0. A
    /// truncated tail (an interrupted last write) ends the replay cleanly;
    /// a corrupt record aborts the whole recovery and leaves the index
    /// empty, fail closed. Expiry sweeps are not persisted, so keys swept
    /// before a restart come back live here; a caller that uses expiry
    /// should run `expire_sweep` again after recovering.
    #[verifier::loop_isolation(false)]
    pub fn load_db_from_disk(&mut self) -> (r: Result<(), StorageError>)
        ensures
            final(self).wf(),
            final(self).spec_log() == old(self).spec_log(),
            match r {
                Ok(()) => {
                    &&& !(spec_replay(old(self).spec_log()) is Fail)
                    &&& (spec_replay(old(self).spec_log()) matches ReplayOutcome::Complete(m)
                        ==> final(self).spec_index() == m && final(self).synced())
                    &&& (spec_replay(old(self).spec_log()) matches ReplayOutcome::Partial(m)
                        ==> final(self).spec_index() == m)
                },
                Err(e) => {
                    &&& e == StorageError::CorruptRecord
                    &&& spec_replay(old(self).spec_log()) is Fail
                    &&& final(self).spec_index() == Map::<Seq<u8>, IndexEntry>::empty()
                },
            },
    {
        self.index.clear();
        let bytes = slice_to_vec(self.log.as_byte_slice());
        let ghost l = self.log@;
        let mut cursor: usize = 0;
        loop
            invariant
                self.log@ == l,
                cursor <= l.len(),
                self.index.inv(),
                forall|k: Seq<u8>| #[trigger]
                    self.index@.contains_key(k) ==> spec_entry_ok(l, k, self.index@[k]),
                spec_replay_from(l, cursor as int, self.index@) == spec_replay(l),
            decreases l.len() - cursor,
        {
            let off = cursor;
            let ghost cursor0 = cursor as int;
            let ghost m0 = self.index@;
            let res = parse_key_value_from_reader(bytes.as_slice(), &mut cursor);
            let ghost rest = l.subrange(cursor0, l.len() as int);
            match res {
                Ok(rec) => {
                    let ghost rm = rec@;
                    proof {
                        assert(spec_decode(rest) == Ok::<RecordModel, StorageError>(rm));
                        assert(cursor0 < l.len());
                        lemma_decode_restrict(rest);
                        assert(rest.take(rm.size()) =~= l.subrange(cursor0, cursor0 + rm.size()));
                    }
                    let size = 15 + rec.key.len() + rec.value.len();
                    if rec.tombstone {
                        self.index.remove(rec.key.as_slice());
                    } else {
                        let entry: IndexEntry = (off as u64, size as u64, false, rec.timestamp);
                        self.index.insert(rec.key, entry);
                        proof {
                            assert(spec_entry_ok(l, rm.key, entry));
                            assert forall|k: Seq<u8>| #[trigger]
                                self.index@.contains_key(k) implies spec_entry_ok(
                                l,
                                k,
                                self.index@[k],
                            ) by {
                                if k != rm.key {
                                    assert(m0.contains_key(k));
                                }
                            }
                        }
                    }
                    proof {
                        assert(self.index@ == spec_apply_record(m0, rm, cursor0));
                        assert(spec_replay_from(l, cursor0, m0) == spec_replay_from(
                            l,
                            cursor0 + rm.size(),
                            spec_apply_record(m0, rm, cursor0),
                        ));
                        assert(cursor == cursor0 + rm.size());
                    }
                },
                Err(e) => {
                    match e {
                        StorageError::Truncated => {
                            proof {
                                if cursor0 == l.len() {
                                    assert(spec_replay(l) == ReplayOutcome::Complete(self.index@));
                                } else {
                                    assert(spec_decode(rest) == Err::<RecordModel, StorageError>(
                                        StorageError::Truncated,
                                    ));
                                    assert(spec_replay(l) == ReplayOutcome::Partial(self.index@));
                                }
                            }
                            return Ok(());
                        },
                        _ => {
                            proof {
                                assert(cursor0 < l.len());
                                assert(spec_replay(l) == ReplayOutcome::Fail);
                            }
                            self.index.clear();
                            return Err(StorageError::CorruptRecord);
                        },
                    }
                },
            }
        }
    }

    /// Removes from the index every entry whose expiry is set and has
    /// passed by `now`; entries with no expiry are untouched. Only the
    /// index changes: the log keeps the swept records.
    pub fn expire_sweep(&mut self, now: u64)
        requires
            old(self).wf(),
        ensures
            final(self).wf(),
            final(self).spec_log() == old(self).spec_log(),
            final(self).spec_index() == spec_sweep(old(self).spec_index(), now),
    {
        self.index.retain_unexpired(now);
        proof {
            assert forall|k: Seq<u8>| #[trigger]
                self.spec_index().contains_key(k) implies spec_entry_ok(
                self.spec_log(),
                k,
                self.spec_index()[k],
            ) by {
                assert(old(self).spec_index().contains_key(k));
            }
        }
    }

    /// Sweeps expired keys against the clock's current reading.
    pub fn cleanup_expired_keys(&mut self) -> (r: Result<(), StorageError>)
        requires
            old(self).wf(),
        ensures
            final(self).wf(),
            final(self).spec_log() == old(self).spec_log(),
            r == Ok::<(), StorageError>(()),
            exists|now: u64|
                final(self).spec_index() == spec_sweep(old(self).spec_index(), now),
    {
        let now = current_time_seconds();
        self.expire_sweep(now);
        proof {
            assert(self.spec_index() == spec_sweep(old(self).spec_index(), now));
        }
        Ok(())
    }

    /// Every live pair as (key, current value, expiry), in ascending key
    /// order: a full-scan side capability for front ends.
    #[verifier::loop_isolation(false)]
    pub fn list_all(&self) -> (r: Vec<(Vec<u8>, Vec<u8>, Option<u64>)>)
        requires
            self.wf(),
        ensures
            r@.len() == self.spec_index().dom().len(),
            forall|i: int, j: int|
                0 <= i < j < r@.len() ==> lex_lt((#[trigger] r@[i]).0@, (#[trigger] r@[j]).0@),
            forall|i: int|
                0 <= i < r@.len() ==> {
                    &&& self.spec_index().contains_key((#[trigger] r@[i]).0@)
                    &&& r@[i].1@ == self.contents()[r@[i].0@]
                    &&& r@[i].2 == self.spec_index()[r@[i].0@].3
                },
            forall|k: Seq<u8>| #[trigger]
                self.spec_index().contains_key(k) ==> exists|i: int|
                    0 <= i < r@.len() && r@[i].0@ == k,
    {
        let keys = self.index.keys();
        let n = keys.len();
        let mut out: Vec<(Vec<u8>, Vec<u8>, Option<u64>)> = Vec::new();
        let mut i: usize = 0;
        while i < n
            invariant
                out@.len() == i,
                i <= n,
                forall|j: int| 0 <= j < i ==> (#[trigger] out@[j]).0@ == keys@[j]@,
                forall|j: int|
                    0 <= j < i ==> (#[trigger] out@[j]).1@ == self.contents()[keys@[j]@]
                        && out@[j].2 == self.spec_index()[keys@[j]@].3,
            decreases n - i,
        {
            let key_slice = keys[i].as_slice();
            let e = match self.index.get(key_slice) {
                Some(e) => e,
                None => {
                    proof {
                        assert(false);
                    }
                    (0, 0, false, None)
                },
            };
            let v = match self.read(key_slice) {
                Ok(Some(v)) => v,
                _ => {
                    proof {
                        assert(false);
                    }
                    Vec::new()
                },
            };
            out.push((slice_to_vec(key_slice), v, e.3));
            i = i + 1;
        }
        proof {
            assert forall|k: Seq<u8>| #[trigger]
                self.spec_index().contains_key(k) implies exists|j: int|
                0 <= j < out@.len() && out@[j].0@ == k by {
                let j = choose|j: int| 0 <= j < keys@.len() && (#[trigger] keys@[j])@ == k;
                assert(out@[j].0@ == k);
            }
        }
        out
    }
}

/// Last-writer-wins: writing key `k` with value `a` and then value `b`
/// leaves the store reading `b` for `k`; the index, a map over keys, holds
/// exactly one entry for `k`.
pub proof fn lemma_last_writer_wins(
    e0: SStStorage,
    e1: SStStorage,
    e2: SStStorage,
    k: Seq<u8>,
    a: Seq<u8>,
    b: Seq<u8>,
    ts1: Option<u64>,
    ts2: Option<u64>,
)
    requires
        k.len() <= 255,
        b.len() <= 255,
        e2.spec_log().len() <= u64::MAX,
        spec_put_effect(e0, e1, k, a, ts1),
        spec_put_effect(e1, e2, k, b, ts2),
    ensures
        e2.contents().contains_key(k),
        e2.contents()[k] == b,
{
    let rm = spec_write_model(k, b, ts2, false);
    lemma_round_trip(rm);
    crate::codec::lemma_encode_shape(rm);
    assert(e2.spec_log().subrange(
        e1.spec_log().len() as int,
        e1.spec_log().len() + rm.size(),
    ) =~= spec_encode(rm));
}

/// Delete after put: once `k` is deleted, the store no longer reads a
/// value for `k`.
pub proof fn lemma_delete_then_get(
    e0: SStStorage,
    e1: SStStorage,
    e2: SStStorage,
    k: Seq<u8>,
    v: Seq<u8>,
    ts: Option<u64>,
)
    requires
        spec_put_effect(e0, e1, k, v, ts),
        spec_delete_effect(e1, e2, k),
    ensures
        !e2.contents().contains_key(k),
{
}

/// Replay equivalence: two engines whose indexes both agree with a full
/// replay of the same log bytes hold the same index and read the same
/// contents. Rebuilding over a written log reproduces the writer's state.
pub proof fn lemma_replay_equivalence(a: SStStorage, b: SStStorage)
    requires
        a.synced(),
        b.synced(),
        a.spec_log() == b.spec_log(),
    ensures
        a.spec_index() == b.spec_index(),
        a.contents() == b.contents(),
{
    assert(a.contents() =~= b.contents());
}

/// Fail-closed corruption handling: a log holding one valid record
/// followed by a bit-flipped copy of a second record replays to `Fail`, so
/// recovery reports corruption and keeps neither record.
pub proof fn lemma_corrupt_tail_fail_closed(r1: RecordModel, r2: RecordModel, i: int, bit: u8)
    requires
        r1.wf(),
        r2.wf(),
        2 <= i < r2.size() - 4,
        bit < 8,
    ensures
        spec_replay(
            spec_encode(r1) + spec_encode(r2).update(i, spec_encode(r2)[i] ^ (1u8 << bit)),
        ) == ReplayOutcome::Fail,
{
    crate::codec::lemma_encode_shape(r1);
    crate::codec::lemma_encode_shape(r2);
    let e1 = spec_encode(r1);
    let bad = spec_encode(r2).update(i, spec_encode(r2)[i] ^ (1u8 << bit));
    let l = e1 + bad;
    lemma_round_trip(r1);
    crate::codec::lemma_bit_flip_corrupt(r2, i, bit);
    lemma_decode_extend(e1, bad);
    assert(l.subrange(0, l.len() as int) =~= l);
    assert(l.subrange(r1.size(), l.len() as int) =~= bad);
    let m1 = spec_apply_record(Map::empty(), r1, 0);
    assert(spec_replay_from(l, 0, Map::empty()) == spec_replay_from(l, r1.size(), m1));
    assert(spec_replay_from(l, r1.size(), m1) == ReplayOutcome::Fail);
}

} // verus!
