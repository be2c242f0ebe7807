//! The append-only log: ordered byte storage with offset-addressed reads.
//!
//! The log is the single source of truth for the store's contents; its length
//! is the only record of how much data exists. It is held in memory as a
//! byte vector; a front end that keeps it on a durable medium loads the bytes
//! at startup and mirrors every appended suffix back out.

use crate::codec::StorageError;
use vstd::prelude::*;

verus! {

/// An append-only sequence of bytes. Bytes are never rewritten or removed;
/// updates and deletions are expressed as new appended records.
pub struct Log {
    data: Vec<u8>,
}

impl View for Log {
    type V = Seq<u8>;

    closed spec fn view(&self) -> Seq<u8> {
        self.data@
    }
}

impl Log {
    /// An empty log.
    pub fn new() -> (r: Log)
        ensures
            r@ == Seq::<u8>::empty(),
    {
        Log { data: Vec::new() }
    }

    /// A log over previously persisted bytes.
    pub fn from_bytes(data: Vec<u8>) -> (r: Log)
        ensures
            r@ == data@,
    {
        Log { data }
    }

    /// The log's length: its end-of-file position, where the next append
    /// lands.
    pub fn len(&self) -> (r: u64)
        ensures
            r == self@.len(),
    {
        self.data.len() as u64
    }

    /// The raw log bytes, for sequential scans and for mirroring to a
    /// durable medium.
    pub fn as_byte_slice(&self) -> (r: &[u8])
        ensures
            r@ == self@,
    {
        self.data.as_slice()
    }

    /// Appends bytes at the end and returns the offset they were written
    /// at, which is always the log's prior end position.
    pub fn append(&mut self, bytes: &[u8]) -> (offset: u64)
        ensures
            final(self)@ == old(self)@ + bytes@,
            offset == old(self)@.len(),
    {
        let offset = self.data.len() as u64;
        self.data.extend_from_slice(bytes);
        offset
    }

    /// Reads exactly `length` bytes starting at `offset`, failing with
    /// `Truncated` if fewer bytes exist there.
    pub fn read_at(&self, offset: u64, length: u64) -> (r: Result<Vec<u8>, StorageError>)
        ensures
            match r {
                Ok(bytes) => {
                    &&& offset + length <= self@.len()
                    &&& bytes@ == self@.subrange(offset as int, offset as int + length as int)
                },
                Err(e) => {
                    &&& e == StorageError::Truncated
                    &&& offset + length > self@.len()
                },
            },
    {
        if offset > self.data.len() as u64 || length > self.data.len() as u64 - offset {
            return Err(StorageError::Truncated);
        }
        let start = offset as usize;
        let end = start + length as usize;
        let mut out: Vec<u8> = Vec::new();
        let mut i: usize = start;
        while i < end
            invariant
                start <= i <= end <= self@.len(),
                out@ == self@.subrange(start as int, i as int),
            decreases end - i,
        {
            out.push(self.data[i]);
            proof {
                assert(self@.subrange(start as int, i + 1 as int) =~= self@.subrange(
                    start as int,
                    i as int,
                ).push(self@[i as int]));
            }
            i = i + 1;
        }
        Ok(out)
    }
}

} // verus!
