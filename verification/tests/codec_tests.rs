//! Tests of the record codec: round trips, truncation detection and
//! checksum sensitivity.

use rust_bit_cask_db::parse_key_value_from_buffer;
use rust_bit_cask_db::parse_key_value_from_reader;
use rust_bit_cask_db::Record;
use rust_bit_cask_db::StorageError;

#[test]
fn test_round_trip() {
    let rec = Record::new(b"a_key", b"a_value", Some(1749763021), false);
    let buf = rec.to_buffer();
    assert_eq!(buf.len(), 15 + 5 + 7);
    let back = parse_key_value_from_buffer(&buf).expect("round trip must decode");
    assert_eq!(back.key, b"a_key".to_vec());
    assert_eq!(back.value, b"a_value".to_vec());
    assert_eq!(back.timestamp, Some(1749763021));
    assert!(!back.tombstone);
    assert_eq!(back.checksum, rec.checksum);
}

#[test]
fn test_round_trip_tombstone_and_empty_fields() {
    let rec = Record::new(b"", b"", None, true);
    let buf = rec.to_buffer();
    assert_eq!(buf.len(), 15);
    let back = parse_key_value_from_buffer(&buf).expect("round trip must decode");
    assert!(back.key.is_empty());
    assert!(back.value.is_empty());
    assert_eq!(back.timestamp, None);
    assert!(back.tombstone);
}

#[test]
fn test_zero_timestamp_decodes_as_none() {
    // The on-disk expiry word 0 stands for "no expiry".
    let rec = Record::new(b"k", b"v", Some(0), false);
    assert_eq!(rec.timestamp, None);
    let back = parse_key_value_from_buffer(&rec.to_buffer()).unwrap();
    assert_eq!(back.timestamp, None);
}

#[test]
fn test_truncation_detected_on_every_strict_prefix() {
    let rec = Record::new(b"key_bytes", b"value_bytes", Some(77), false);
    let buf = rec.to_buffer();
    for n in 0..buf.len() {
        let prefix = &buf[..n];
        match parse_key_value_from_buffer(prefix) {
            Err(StorageError::Truncated) => {}
            other => panic!("prefix of {} bytes gave {:?}", n, other),
        }
    }
}

#[test]
fn test_bit_flip_in_payload_detected() {
    // Flipping any single bit of the key, value, expiry or tombstone
    // region must be reported as corruption, never as truncation and
    // never as a successful decode.
    let rec = Record::new(b"sensitive", b"payload", Some(123456), false);
    let buf = rec.to_buffer();
    let payload_end = buf.len() - 4;
    for i in 2..payload_end {
        for bit in 0..8u8 {
            let mut bad = buf.clone();
            bad[i] ^= 1u8 << bit;
            match parse_key_value_from_buffer(&bad) {
                Err(StorageError::CorruptRecord) => {}
                other => panic!("flip at byte {} bit {} gave {:?}", i, bit, other),
            }
        }
    }
}

#[test]
fn test_checksum_mismatch_in_stored_checksum_detected() {
    let rec = Record::new(b"k", b"v", None, false);
    let mut buf = rec.to_buffer();
    let last = buf.len() - 1;
    buf[last] ^= 0x01;
    assert!(matches!(
        parse_key_value_from_buffer(&buf),
        Err(StorageError::CorruptRecord)
    ));
}

#[test]
fn test_reader_walks_records_sequentially() {
    let rec1 = Record::new(b"first", b"one", Some(10), false);
    let rec2 = Record::new(b"second", b"two", None, true);
    let mut bytes = rec1.to_buffer();
    bytes.extend_from_slice(&rec2.to_buffer());

    let mut cursor = 0usize;
    let a = parse_key_value_from_reader(&bytes, &mut cursor).unwrap();
    assert_eq!(a.key, b"first".to_vec());
    assert_eq!(cursor, 15 + 5 + 3);
    let b = parse_key_value_from_reader(&bytes, &mut cursor).unwrap();
    assert_eq!(b.key, b"second".to_vec());
    assert!(b.tombstone);
    assert_eq!(cursor, bytes.len());
    // At the end of the data the reader reports truncation and stays put.
    assert!(matches!(
        parse_key_value_from_reader(&bytes, &mut cursor),
        Err(StorageError::Truncated)
    ));
    assert_eq!(cursor, bytes.len());
}
