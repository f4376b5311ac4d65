use bytes::Bytes;
use mini_lsm::hash::can_hash;
use mini_lsm::key::{bytes_equal, bytes_less, KeyBytes, KeySlice, KeyVec};
use mini_lsm::table::{is_above_lower, is_below_upper, ScanBound, SsTable};

#[test]
fn byte_strings_are_ordered_as_slices_are() {
    let samples: [&[u8]; 6] = [b"", b"a", b"a\0", b"ab", b"b", b"\xff"];
    for x in samples {
        for y in samples {
            assert_eq!(bytes_less(x, y), x < y);
            assert_eq!(bytes_equal(x, y), x == y);
        }
    }
}

#[test]
fn later_timestamps_of_a_key_come_first() {
    let late = KeySlice::from_slice(b"k", 9);
    let early = KeySlice::from_slice(b"k", 3);
    let other = KeySlice::from_slice(b"l", 99);
    assert!(late.is_less(&early));
    assert!(!early.is_less(&late));
    assert!(early.is_less(&other));
    assert!(!late.is_less(&late));
    assert!(late.is_equal(&KeySlice::from_slice(b"k", 9)));
    assert!(!late.is_equal(&early));
}

#[test]
fn owned_and_shared_keys_are_what_they_were_made_of() {
    let slice = KeySlice::from_slice(b"key", 4);
    let owned = slice.to_key_vec();
    assert!(owned.as_key_slice().is_equal(&slice));
    assert_eq!(owned.as_key_slice().key_len(), 3);
    let shared = KeyBytes::from_bytes_with_ts(Bytes::from_static(b"key"), 4);
    assert!(shared.as_key_slice().is_equal(&slice));
    assert_eq!(KeyVec::new().as_key_slice().key_ref(), b"");
    let given = KeyVec::from_vec_with_ts(b"key".to_vec(), 5);
    assert_eq!(given.as_key_slice().ts(), 5);
}

#[test]
fn bounds_include_or_exclude_their_key() {
    assert!(is_above_lower(b"k", &ScanBound::Included(b"k")));
    assert!(!is_above_lower(b"k", &ScanBound::Excluded(b"k")));
    assert!(is_above_lower(b"k", &ScanBound::Unbounded));
    assert!(!is_above_lower(b"j", &ScanBound::Included(b"k")));
    assert!(is_below_upper(b"k", &ScanBound::Included(b"k")));
    assert!(!is_below_upper(b"k", &ScanBound::Excluded(b"k")));
    assert!(is_below_upper(b"k", &ScanBound::Unbounded));
    assert!(!is_below_upper(b"l", &ScanBound::Included(b"k")));
}

#[test]
fn a_table_overlaps_the_ranges_that_touch_it() {
    let key = |k: &'static [u8]| KeyBytes::from_bytes_with_ts(Bytes::from_static(k), 0);
    let table = SsTable::new(3, key(b"d"), key(b"m"), 100, false);
    assert_eq!(table.sst_id(), 3);
    assert_eq!(table.table_size(), 100);
    assert!(!table.has_bloom());
    let inc = |k: &'static [u8]| ScanBound::Included(k);
    let exc = |k: &'static [u8]| ScanBound::Excluded(k);
    assert!(table.overlap(&inc(b"m"), &ScanBound::Unbounded));
    assert!(!table.overlap(&exc(b"m"), &ScanBound::Unbounded));
    assert!(table.overlap(&ScanBound::Unbounded, &inc(b"d")));
    assert!(!table.overlap(&ScanBound::Unbounded, &exc(b"d")));
    assert!(table.overlap(&inc(b"e"), &inc(b"f")));
    assert!(!table.overlap(&inc(b"n"), &inc(b"z")));
    assert!(!table.overlap(&inc(b"a"), &inc(b"c")));
}

#[test]
fn only_keys_whose_sums_fit_can_be_hashed() {
    assert!(can_hash(b""));
    assert!(can_hash(&[0xff; 4]));
    assert!(can_hash(b"hello"));
    assert!(!can_hash(&[0xff, 0xff, 0xff, 0xff, 0]));
    assert!(!can_hash(&[0, 0xff, 0xff, 0xff, 0xff]));
    assert!(!can_hash(&[0xff; 12]));
    assert!(can_hash(b"hello world"));
    assert!(can_hash(b"a key of twenty bytes"));
    assert!(can_hash(&[0xff; 25]));
}
