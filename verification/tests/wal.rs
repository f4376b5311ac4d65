use std::cmp::Reverse;

use bytes::Bytes;
use crossbeam_skiplist::SkipMap;
use mini_lsm::key::KeySlice;
use mini_lsm::skiplist::EntryList;
use mini_lsm::wal::{check_readable, encode_batch, encode_entry, replay, try_replay, WalError};

fn value_of(list: &EntryList, key: &[u8], ts: u64) -> Option<Vec<u8>> {
    let key = (Bytes::copy_from_slice(key), Reverse(ts));
    list.get(&key).map(|entry| entry.value().to_vec())
}

#[test]
fn a_batch_is_framed_by_length_and_checksum() {
    let log = encode_entry(KeySlice::from_slice(b"k", 5), b"vw");
    let body = [0, 1, b'k', 0, 0, 0, 0, 0, 0, 0, 5, 0, 2, b'v', b'w'];
    assert_eq!(&log[..4], &[0, 0, 0, 15]);
    assert_eq!(&log[4..19], &body[..]);
    assert_eq!(&log[19..], &crc32fast::hash(&body).to_be_bytes()[..]);
}

#[test]
fn an_entry_is_a_batch_of_one() {
    let entry = encode_entry(KeySlice::from_slice(b"key", 1), b"value");
    let value: &[u8] = b"value";
    let batch = encode_batch(&[(KeySlice::from_slice(b"key", 1), value)]);
    assert_eq!(entry, batch);
}

#[test]
fn what_was_written_is_read_back() {
    let one: &[u8] = b"one";
    let none: &[u8] = b"";
    let three: &[u8] = b"three";
    let mut log = encode_batch(&[
        (KeySlice::from_slice(b"a", 1), one),
        (KeySlice::from_slice(b"b", 1), none),
    ]);
    log.extend(encode_entry(KeySlice::from_slice(b"a", 2), three));
    assert!(check_readable(&log));
    let mut list: EntryList = SkipMap::new();
    assert_eq!(replay(&log, &mut list), Ok(()));
    assert_eq!(list.len(), 3);
    assert_eq!(value_of(&list, b"a", 1), Some(b"one".to_vec()));
    assert_eq!(value_of(&list, b"b", 1), Some(Vec::new()));
    assert_eq!(value_of(&list, b"a", 2), Some(b"three".to_vec()));
    assert_eq!(value_of(&list, b"a", 3), None);
}

#[test]
fn a_later_entry_replaces_one_with_the_same_key() {
    let mut log = encode_entry(KeySlice::from_slice(b"a", 1), b"old");
    log.extend(encode_entry(KeySlice::from_slice(b"a", 1), b"new"));
    let mut list: EntryList = SkipMap::new();
    assert_eq!(try_replay(&log, &mut list), Some(Ok(())));
    assert_eq!(list.len(), 1);
    assert_eq!(value_of(&list, b"a", 1), Some(b"new".to_vec()));
}

#[test]
fn the_entries_of_a_list_are_ordered_by_key_and_latest_timestamp() {
    let mut log = encode_entry(KeySlice::from_slice(b"b", 1), b"");
    log.extend(encode_entry(KeySlice::from_slice(b"a", 1), b""));
    log.extend(encode_entry(KeySlice::from_slice(b"a", 2), b""));
    let mut list: EntryList = SkipMap::new();
    assert_eq!(try_replay(&log, &mut list), Some(Ok(())));
    let keys: Vec<(Vec<u8>, u64)> =
        list.iter().map(|e| (e.key().0.to_vec(), e.key().1 .0)).collect();
    assert_eq!(keys, vec![(b"a".to_vec(), 2), (b"a".to_vec(), 1), (b"b".to_vec(), 1)]);
}

#[test]
fn an_empty_log_holds_nothing() {
    let mut list: EntryList = SkipMap::new();
    assert_eq!(try_replay(&[], &mut list), Some(Ok(())));
    assert!(list.is_empty());
}

#[test]
fn a_cut_log_is_incomplete() {
    let mut log = encode_entry(KeySlice::from_slice(b"a", 1), b"first");
    let second = encode_entry(KeySlice::from_slice(b"b", 1), b"second");
    log.extend_from_slice(&second[..second.len() - 1]);
    let mut list: EntryList = SkipMap::new();
    assert_eq!(try_replay(&log, &mut list), Some(Err(WalError::Incomplete)));
    // The batches before the cut have been taken in.
    assert_eq!(value_of(&list, b"a", 1), Some(b"first".to_vec()));
    assert_eq!(value_of(&list, b"b", 1), None);
}

#[test]
fn a_changed_log_fails_its_checksum() {
    let mut log = encode_entry(KeySlice::from_slice(b"a", 1), b"value");
    let last_of_value = log.len() - 5;
    log[last_of_value] ^= 1;
    let mut list: EntryList = SkipMap::new();
    assert_eq!(try_replay(&log, &mut list), Some(Err(WalError::ChecksumMismatch)));
    // The entries of the batch are taken in before its checksum is looked at.
    assert_eq!(value_of(&list, b"a", 1), Some(b"valud".to_vec()));
}

#[test]
fn a_log_without_a_whole_length_cannot_be_read() {
    let mut list: EntryList = SkipMap::new();
    assert!(!check_readable(&[0, 0, 0]));
    assert_eq!(try_replay(&[0, 0, 0], &mut list), None);
    assert!(list.is_empty());
}
