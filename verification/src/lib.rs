//! A single-node, log-structured key-value storage engine in the Bitcask
//! style: an append-only record log plus an in-memory index mapping each key
//! to the byte range of its most recent record. The record codec, the log,
//! the index and the engine operations are verified; file handling and the
//! interactive front end live outside this crate and drive it with plain
//! byte values.

pub mod checksum;
pub mod clock;
pub mod codec;
pub mod engine;
pub mod index;
pub mod log;

pub use checksum::spec_checksum;
pub use checksum::sum_bytes;
pub use clock::current_time_seconds;
pub use clock::generate_timestamp_one_hour_in_future;
pub use clock::spec_two_minutes_after;
pub use clock::two_minutes_after;
pub use codec::parse_key_value_from_buffer;
pub use codec::parse_key_value_from_reader;
pub use codec::Record;
pub use codec::StorageError;
pub use engine::SStStorage;
pub use index::Index;
pub use index::IndexEntry;
pub use log::Log;
