//! Tests of the storage engine: writes, reads, updates, deletes, recovery
//! by log replay, expiry sweeps and corruption handling.

use rust_bit_cask_db::generate_timestamp_one_hour_in_future;
use rust_bit_cask_db::parse_key_value_from_buffer;
use rust_bit_cask_db::Log;
use rust_bit_cask_db::SStStorage;
use rust_bit_cask_db::two_minutes_after;
use rust_bit_cask_db::StorageError;

fn fresh_engine() -> SStStorage {
    SStStorage::new(Log::new())
}

fn log_bytes(storage: &SStStorage) -> Vec<u8> {
    storage.log().as_byte_slice().to_vec()
}

fn reopened(storage: &SStStorage) -> SStStorage {
    SStStorage::new(Log::from_bytes(log_bytes(storage)))
}

#[test]
fn test_write() {
    let mut sst_storage = fresh_engine();

    let key = vec![1, 2, 3];
    let value = vec![4, 5, 6];
    let timestamp = Some(1000);

    let result = sst_storage.write(&key, &value, false, timestamp);
    assert!(result.is_ok());

    let record = parse_key_value_from_buffer(&log_bytes(&sst_storage)).unwrap();

    assert_eq!(record.key, key);
    assert_eq!(record.value, value);
    assert!(record.timestamp.is_some());
    assert_eq!(record.tombstone, false);
}

#[test]
fn test_insert_key_and_read_existing_key() {
    let mut sst_storage = fresh_engine();

    let key = b"my_key".to_vec();
    let value = b"my_value".to_vec();

    sst_storage.write(&key, &value, false, Some(0)).unwrap();

    let read_value = sst_storage.read(&key).unwrap();
    assert_eq!(read_value, Some(value));
}

#[test]
fn test_insert_key_and_read_non_existing_key() {
    let mut sst_storage = fresh_engine();

    let key = b"my_key".to_vec();
    let value = b"my_value".to_vec();

    sst_storage.write(&key, &value, false, Some(0)).unwrap();

    let non_existent_key = b"non_existent_key".to_vec();
    let read_value = sst_storage.read(&non_existent_key).unwrap();
    assert_eq!(read_value, None);
}

#[test]
fn test_update_existing_key() {
    let mut sst_storage = fresh_engine();

    let key = b"my_key".to_vec();
    let value = b"my_value".to_vec();
    let timestamp = Some(0);
    sst_storage.write(&key, &value, false, timestamp).unwrap();

    let updated_value = b"updated_value".to_vec();
    let updated_timestamp = Some(1);
    sst_storage
        .write(&key, &updated_value, false, updated_timestamp)
        .unwrap();

    let read_value = sst_storage.read(&key).unwrap();
    assert_eq!(read_value, Some(updated_value));
}

#[test]
fn test_delete_existing_key() {
    let mut sst_storage = fresh_engine();

    let key = b"my_key".to_vec();
    let value = b"my_value".to_vec();
    let timestamp = Some(0);
    sst_storage.write(&key, &value, false, timestamp).unwrap();

    sst_storage.delete_key(&key).unwrap();

    let read_value = sst_storage.read(&key).unwrap();
    assert_eq!(read_value, None);
}

#[test]
fn test_load_db_from_disk_empty_file() {
    let mut sst_storage = fresh_engine();

    let result = sst_storage.load_db_from_disk();
    assert!(result.is_ok());

    assert_eq!(sst_storage.index_len(), 0);
}

#[test]
fn test_load_db_from_disk_with_data() {
    let mut sst_storage = fresh_engine();

    let key1 = b"key1".to_vec();
    let value1 = b"value1".to_vec();
    let key2 = b"key2".to_vec();
    let value2 = b"value2".to_vec();

    sst_storage.write(&key1, &value1, false, Some(1000)).unwrap();
    sst_storage.write(&key2, &value2, false, Some(2000)).unwrap();

    let mut sst_storage2 = reopened(&sst_storage);
    let result = sst_storage2.load_db_from_disk();
    assert!(result.is_ok());

    assert_eq!(sst_storage2.index_len(), 2);
    assert!(sst_storage2.contains_key(&key1));
    assert!(sst_storage2.contains_key(&key2));

    let read_value1 = sst_storage2.read(&key1).unwrap();
    let read_value2 = sst_storage2.read(&key2).unwrap();
    assert_eq!(read_value1, Some(value1));
    assert_eq!(read_value2, Some(value2));
}

#[test]
fn test_load_db_from_disk_with_tombstones() {
    let mut sst_storage = fresh_engine();

    let key = b"deleted_key".to_vec();
    let value = b"deleted_value".to_vec();

    sst_storage.write(&key, &value, false, Some(1000)).unwrap();
    sst_storage.delete_key(&key).unwrap();

    let mut sst_storage2 = reopened(&sst_storage);
    let result = sst_storage2.load_db_from_disk();
    assert!(result.is_ok());

    assert!(!sst_storage2.contains_key(&key));

    let read_value = sst_storage2.read(&key).unwrap();
    assert_eq!(read_value, None);
}

#[test]
fn test_delete_non_existing_key() {
    let mut sst_storage = fresh_engine();

    let non_existent_key = b"non_existent".to_vec();

    let result = sst_storage.delete_key(&non_existent_key);
    assert!(result.is_ok());

    assert_eq!(sst_storage.index_len(), 0);
}

#[test]
fn test_update_non_existing_key() {
    let mut sst_storage = fresh_engine();

    let non_existent_key = b"non_existent".to_vec();
    let new_value = b"new_value".to_vec();

    let result = sst_storage.update(&non_existent_key, &new_value, false, Some(1000));
    assert!(result.is_ok());

    assert_eq!(sst_storage.index_len(), 0);

    let read_value = sst_storage.read(&non_existent_key).unwrap();
    assert_eq!(read_value, None);
}

#[test]
fn test_write_with_none_timestamp() {
    let mut sst_storage = fresh_engine();

    let key = b"test_key".to_vec();
    let value = b"test_value".to_vec();

    let result = sst_storage.write(&key, &value, false, None);
    assert!(result.is_ok());

    let read_value = sst_storage.read(&key).unwrap();
    assert_eq!(read_value, Some(value));
}

#[test]
fn test_multiple_updates_same_key() {
    let mut sst_storage = fresh_engine();

    let key = b"update_key".to_vec();
    let value1 = b"value1".to_vec();
    let value2 = b"value2".to_vec();
    let value3 = b"value3".to_vec();

    sst_storage.write(&key, &value1, false, Some(1000)).unwrap();
    sst_storage.write(&key, &value2, false, Some(2000)).unwrap();
    sst_storage.write(&key, &value3, false, Some(3000)).unwrap();

    let read_value = sst_storage.read(&key).unwrap();
    assert_eq!(read_value, Some(value3));

    assert_eq!(sst_storage.index_len(), 1);
    assert!(sst_storage.contains_key(&key));
}

#[test]
fn test_cleanup_expired_keys() {
    let mut sst_storage = fresh_engine();

    let current_time = chrono::Utc::now().timestamp() as u64;
    let past_time = current_time - 3600;
    let future_time = current_time + 3600;

    let expired_key = b"expired_key".to_vec();
    let valid_key = b"valid_key".to_vec();
    let no_timestamp_key = b"no_timestamp_key".to_vec();

    sst_storage
        .write(&expired_key, b"expired_value", false, Some(past_time))
        .unwrap();
    sst_storage
        .write(&valid_key, b"valid_value", false, Some(future_time))
        .unwrap();
    sst_storage
        .write(&no_timestamp_key, b"no_timestamp_value", false, None)
        .unwrap();

    assert_eq!(sst_storage.index_len(), 3);

    let result = sst_storage.cleanup_expired_keys();
    assert!(result.is_ok());

    assert_eq!(sst_storage.index_len(), 2);
    assert!(!sst_storage.contains_key(&expired_key));
    assert!(sst_storage.contains_key(&valid_key));
    assert!(sst_storage.contains_key(&no_timestamp_key));
}

#[test]
fn test_large_key_value_pairs() {
    let mut sst_storage = fresh_engine();

    let large_key = vec![b'k'; 255];
    let large_value = vec![b'v'; 255];

    let result = sst_storage.write(&large_key, &large_value, false, Some(1000));
    assert!(result.is_ok());

    let read_value = sst_storage.read(&large_key).unwrap();
    assert_eq!(read_value, Some(large_value));
}

#[test]
fn test_generate_timestamp_one_hour_in_future() {
    let current_time = chrono::Utc::now().timestamp() as u64;
    let future_timestamp = generate_timestamp_one_hour_in_future();

    // The generated timestamp should be greater than current time.
    assert!(future_timestamp > current_time);

    // Should be approximately 2 minutes in the future (as per the implementation).
    let expected_future = current_time + 120;
    let tolerance = 5;

    assert!(future_timestamp >= expected_future - tolerance);
    assert!(future_timestamp <= expected_future + tolerance);
}

#[test]
fn test_sst_storage_new() {
    let sst_storage = fresh_engine();

    assert_eq!(sst_storage.index_len(), 0);
}

#[test]
fn test_oversized_key_rejected() {
    let mut sst_storage = fresh_engine();
    let oversized_key = vec![b'k'; 256];
    let result = sst_storage.write(&oversized_key, b"v", false, None);
    assert!(matches!(result, Err(StorageError::OversizedField)));
    // Nothing was appended and nothing was indexed.
    assert_eq!(sst_storage.log().len(), 0);
    assert_eq!(sst_storage.index_len(), 0);

    let oversized_value = vec![b'v'; 256];
    let result = sst_storage.write(b"k", &oversized_value, false, None);
    assert!(matches!(result, Err(StorageError::OversizedField)));
}

#[test]
fn test_read_at_past_end_is_truncated() {
    let mut sst_storage = fresh_engine();
    sst_storage.write(b"k", b"v", false, None).unwrap();
    let len = sst_storage.log().len();
    assert!(matches!(
        sst_storage.log().read_at(len, 1),
        Err(StorageError::Truncated)
    ));
}

#[test]
fn test_expire_sweep_boundary() {
    // An entry expiring exactly at `now` is removed; one second later
    // stays.
    let mut sst_storage = fresh_engine();
    sst_storage.write(b"at_now", b"a", false, Some(15)).unwrap();
    sst_storage.write(b"later", b"b", false, Some(16)).unwrap();
    sst_storage.write(b"never", b"c", false, None).unwrap();

    sst_storage.expire_sweep(15);

    assert!(!sst_storage.contains_key(b"at_now"));
    assert!(sst_storage.contains_key(b"later"));
    assert!(sst_storage.contains_key(b"never"));
    assert_eq!(sst_storage.index_len(), 2);
}

#[test]
fn test_replay_matches_original_sequence() {
    // A put/delete sequence, then a fresh engine over the same log bytes:
    // recovery must rebuild the same live keys and values.
    let mut original = fresh_engine();
    original.write(b"alpha", b"1", false, None).unwrap();
    original.write(b"beta", b"2", false, Some(99)).unwrap();
    original.write(b"alpha", b"3", false, None).unwrap();
    original.delete_key(b"beta").unwrap();
    original.write(b"gamma", b"4", false, None).unwrap();

    let mut replica = reopened(&original);
    replica.load_db_from_disk().unwrap();

    assert_eq!(replica.index_len(), original.index_len());
    for key in [b"alpha".as_slice(), b"beta", b"gamma"] {
        assert_eq!(replica.read(key).unwrap(), original.read(key).unwrap());
    }
    assert_eq!(replica.read(b"alpha").unwrap(), Some(b"3".to_vec()));
    assert_eq!(replica.read(b"beta").unwrap(), None);
}

#[test]
fn test_recovery_ignores_truncated_tail() {
    let mut original = fresh_engine();
    original.write(b"whole", b"record", false, None).unwrap();
    original.write(b"partial", b"cut_off", false, None).unwrap();

    let mut bytes = log_bytes(&original);
    // Cut the last record short, as an interrupted write would.
    bytes.truncate(bytes.len() - 5);

    let mut recovered = SStStorage::new(Log::from_bytes(bytes));
    recovered.load_db_from_disk().unwrap();

    assert!(recovered.contains_key(b"whole"));
    assert!(!recovered.contains_key(b"partial"));
    assert_eq!(recovered.index_len(), 1);
}

#[test]
fn test_corrupted_log_fails_closed() {
    // One valid record followed by a bit-flipped copy of a second: the
    // whole recovery aborts with CorruptRecord and keeps neither record.
    let mut original = fresh_engine();
    original.write(b"first", b"good", false, None).unwrap();
    let first_len = log_bytes(&original).len();
    original.write(b"second", b"also_good", false, None).unwrap();

    let mut bytes = log_bytes(&original);
    bytes[first_len + 3] ^= 0x10;

    let mut recovered = SStStorage::new(Log::from_bytes(bytes));
    let result = recovered.load_db_from_disk();
    assert!(matches!(result, Err(StorageError::CorruptRecord)));
    assert_eq!(recovered.index_len(), 0);
    assert_eq!(recovered.read(b"first").unwrap(), None);
    assert_eq!(recovered.read(b"second").unwrap(), None);
}

#[test]
fn test_corruption_scenario() {
    // put(b"integrity_check", b"this_data_is_good", None): 15 bytes of
    // overhead plus 15 key bytes plus 17 value bytes land in the log.
    let mut sst_storage = fresh_engine();
    sst_storage
        .write(b"integrity_check", b"this_data_is_good", false, None)
        .unwrap();
    assert_eq!(sst_storage.log().len(), 15 + 15 + 17);

    // Flipping the byte at offset 27 (inside the value region) makes a
    // subsequent recovery fail with CorruptRecord, not Truncated.
    let mut bytes = log_bytes(&sst_storage);
    bytes[27] = b'X';

    assert!(matches!(
        parse_key_value_from_buffer(&bytes),
        Err(StorageError::CorruptRecord)
    ));

    let mut recovered = SStStorage::new(Log::from_bytes(bytes));
    let result = recovered.load_db_from_disk();
    assert!(matches!(result, Err(StorageError::CorruptRecord)));
}

#[test]
fn test_list_all_reports_live_pairs() {
    let mut sst_storage = fresh_engine();
    sst_storage.write(b"a", b"1", false, Some(500)).unwrap();
    sst_storage.write(b"b", b"2", false, None).unwrap();
    sst_storage.write(b"a", b"updated", false, Some(600)).unwrap();
    sst_storage.delete_key(b"b").unwrap();
    sst_storage.write(b"c", b"3", false, None).unwrap();

    // The listing comes back in ascending key order.
    let listed = sst_storage.list_all();
    assert_eq!(listed.len(), 2);
    assert_eq!(listed[0], (b"a".to_vec(), b"updated".to_vec(), Some(600)));
    assert_eq!(listed[1], (b"c".to_vec(), b"3".to_vec(), None));
}

#[test]
fn test_insert_key_points_at_live_record() {
    // insert_key is the index-maintenance primitive: pointing a key at a
    // record already in the log makes it readable.
    let mut sst_storage = fresh_engine();
    sst_storage.write(b"k1", b"v1", false, None).unwrap();
    let first_len = sst_storage.log().len();
    sst_storage.write(b"k2", b"v2", false, Some(7)).unwrap();
    let second_len = sst_storage.log().len() - first_len;

    let mut replica = reopened(&sst_storage);
    replica.insert_key(b"k2".to_vec(), (first_len, second_len, false, Some(7)));
    assert_eq!(replica.read(b"k2").unwrap(), Some(b"v2".to_vec()));
}

#[test]
fn test_keys_iterate_in_ascending_order() {
    let mut sst_storage = fresh_engine();
    for key in [
        b"pear".as_slice(),
        b"apple",
        b"quince",
        b"apricot",
        b"banana",
        b"app",
    ] {
        sst_storage.write(key, b"x", false, None).unwrap();
    }

    let listed = sst_storage.list_all();
    let keys: Vec<Vec<u8>> = listed.iter().map(|p| p.0.clone()).collect();
    assert_eq!(
        keys,
        vec![
            b"app".to_vec(),
            b"apple".to_vec(),
            b"apricot".to_vec(),
            b"banana".to_vec(),
            b"pear".to_vec(),
            b"quince".to_vec(),
        ]
    );
}

#[test]
fn test_two_minutes_after_exact_values() {
    assert_eq!(two_minutes_after(0), 120);
    assert_eq!(two_minutes_after(1_000_000), 1_000_120);
    assert_eq!(two_minutes_after(u64::MAX - 120), u64::MAX);
    assert_eq!(two_minutes_after(u64::MAX - 119), u64::MAX);
    assert_eq!(two_minutes_after(u64::MAX), u64::MAX);
}
