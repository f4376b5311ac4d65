//! The skip list that entries are recovered into, from the `crossbeam-skiplist` crate.

use std::cmp::Reverse;

use bytes::Bytes;
use crossbeam_skiplist::SkipMap;
use vstd::prelude::*;

use crate::codec::bytes_view;

verus! {

/// `crossbeam_skiplist::SkipMap`, an ordered map.
#[verifier::external_type_specification]
#[verifier::external_body]
#[verifier::reject_recursive_types(K)]
#[verifier::reject_recursive_types(V)]
pub struct ExSkipMap<K, V>(SkipMap<K, V>);

/// `std::cmp::Reverse`, which turns an order round.
#[verifier::external_type_specification]
#[verifier::external_body]
#[verifier::reject_recursive_types(T)]
pub struct ExReverse<T>(Reverse<T>);

/// The entries of a memtable. The items are ordered by byte string and then from the latest
/// timestamp to the earliest.
pub type EntryList = SkipMap<(Bytes, Reverse<u64>), Bytes>;

/// The value under each byte string and timestamp that an entry list holds.
pub uninterp spec fn list_entries(list: SkipMap<(Bytes, Reverse<u64>), Bytes>) -> Map<
    (Seq<u8>, u64),
    Seq<u8>,
>;

/// `SkipMap::insert` puts an entry into the list, in place of one with the same byte string and
/// timestamp if there is one. The list is not shared while it is borrowed.
#[verifier::external_body]
pub(crate) fn list_insert(list: &mut EntryList, key: Bytes, ts: u64, value: Bytes)
    ensures
        list_entries(*final(list)) == list_entries(*old(list)).insert(
            (bytes_view(key), ts),
            bytes_view(value),
        ),
{
    list.insert((key, Reverse(ts)), value);
}

} // verus!
