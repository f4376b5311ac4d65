//! What the storage state knows of a sorted string table, and ranges of user keys.

use vstd::prelude::*;

use crate::key::{
    bytes_le, bytes_less, bytes_lt, lemma_bytes_lt_irreflexive, lemma_bytes_lt_total,
    lemma_bytes_lt_transitive, KeyBytes, KeyView,
};

verus! {

/// One end of a range of user keys.
#[derive(Clone, Copy, Debug)]
pub enum ScanBound<'a> {
    Included(&'a [u8]),
    Excluded(&'a [u8]),
    Unbounded,
}

/// What a `ScanBound` stands for.
#[verifier::ext_equal]
pub enum BoundView {
    Included(Seq<u8>),
    Excluded(Seq<u8>),
    Unbounded,
}

impl<'a> View for ScanBound<'a> {
    type V = BoundView;

    open spec fn view(&self) -> BoundView {
        match self {
            ScanBound::Included(key) => BoundView::Included(key@),
            ScanBound::Excluded(key) => BoundView::Excluded(key@),
            ScanBound::Unbounded => BoundView::Unbounded,
        }
    }
}

/// `key` is not below the lower bound.
pub open spec fn above_lower(key: Seq<u8>, lower: BoundView) -> bool {
    match lower {
        BoundView::Included(bound) => bytes_le(bound, key),
        BoundView::Excluded(bound) => bytes_lt(bound, key),
        BoundView::Unbounded => true,
    }
}

/// `key` is not above the upper bound.
pub open spec fn below_upper(key: Seq<u8>, upper: BoundView) -> bool {
    match upper {
        BoundView::Included(bound) => bytes_le(key, bound),
        BoundView::Excluded(bound) => bytes_lt(key, bound),
        BoundView::Unbounded => true,
    }
}

/// Whether `key` is not below the lower bound.
pub fn is_above_lower(key: &[u8], lower: &ScanBound<'_>) -> (above: bool)
    ensures
        above == above_lower(key@, lower@),
{
    match lower {
        ScanBound::Included(bound) => {
            proof {
                lemma_bytes_lt_total(bound@, key@);
                lemma_bytes_lt_irreflexive(key@);
                if bytes_lt(bound@, key@) && bytes_lt(key@, bound@) {
                    lemma_bytes_lt_transitive(key@, bound@, key@);
                }
            }
            !bytes_less(key, bound)
        },
        ScanBound::Excluded(bound) => bytes_less(bound, key),
        ScanBound::Unbounded => true,
    }
}

/// Whether `key` is not above the upper bound.
pub fn is_below_upper(key: &[u8], upper: &ScanBound<'_>) -> (below: bool)
    ensures
        below == below_upper(key@, upper@),
{
    match upper {
        ScanBound::Included(bound) => {
            proof {
                lemma_bytes_lt_total(bound@, key@);
                lemma_bytes_lt_irreflexive(key@);
                if bytes_lt(bound@, key@) && bytes_lt(key@, bound@) {
                    lemma_bytes_lt_transitive(key@, bound@, key@);
                }
            }
            !bytes_less(bound, key)
        },
        ScanBound::Excluded(bound) => bytes_less(key, bound),
        ScanBound::Unbounded => true,
    }
}

/// What an `SsTable` stands for.
#[verifier::ext_equal]
pub struct TableView {
    pub id: usize,
    pub first_key: KeyView,
    pub last_key: KeyView,
    pub size: u64,
    pub has_bloom: bool,
}

impl TableView {
    /// The key range of the table reaches into the range of user keys.
    pub open spec fn overlaps(self, lower: BoundView, upper: BoundView) -> bool {
        above_lower(self.last_key.key, lower) && below_upper(self.first_key.key, upper)
    }
}

/// The facts about a sorted string table that decide where it is read and how it is compacted.
/// Its file and its blocks are the embedding program's.
#[derive(Debug)]
pub struct SsTable {
    id: usize,
    first_key: KeyBytes,
    last_key: KeyBytes,
    table_size: u64,
    has_bloom: bool,
}

impl View for SsTable {
    type V = TableView;

    closed spec fn view(&self) -> TableView {
        TableView {
            id: self.id,
            first_key: self.first_key@,
            last_key: self.last_key@,
            size: self.table_size,
            has_bloom: self.has_bloom,
        }
    }
}

impl SsTable {
    /// Describes the table `id`, which holds keys from `first_key` to `last_key` in a file of
    /// `table_size` bytes.
    pub fn new(
        id: usize,
        first_key: KeyBytes,
        last_key: KeyBytes,
        table_size: u64,
        has_bloom: bool,
    ) -> (table: Self)
        ensures
            table@ == (TableView {
                id,
                first_key: first_key@,
                last_key: last_key@,
                size: table_size,
                has_bloom,
            }),
    {
        SsTable { id, first_key, last_key, table_size, has_bloom }
    }

    /// The number of the table.
    pub fn sst_id(&self) -> (id: usize)
        ensures
            id == self@.id,
    {
        self.id
    }

    /// The least key of the table.
    pub fn first_key(&self) -> (key: &KeyBytes)
        ensures
            key@ == self@.first_key,
    {
        &self.first_key
    }

    /// The greatest key of the table.
    pub fn last_key(&self) -> (key: &KeyBytes)
        ensures
            key@ == self@.last_key,
    {
        &self.last_key
    }

    /// The size of the table's file in bytes.
    pub fn table_size(&self) -> (size: u64)
        ensures
            size == self@.size,
    {
        self.table_size
    }

    /// Whether the table carries a bloom filter.
    pub fn has_bloom(&self) -> (has: bool)
        ensures
            has == self@.has_bloom,
    {
        self.has_bloom
    }

    /// Whether the key range of the table reaches into the range of user keys.
    pub fn overlap(&self, lower: &ScanBound<'_>, upper: &ScanBound<'_>) -> (overlaps: bool)
        ensures
            overlaps == self@.overlaps(lower@, upper@),
    {
        is_above_lower(self.last_key.as_key_slice().key_ref(), lower) && is_below_upper(
            self.first_key.as_key_slice().key_ref(),
            upper,
        )
    }
}

} // verus!
