//! Building blocks entry by entry.
//!
//! An entry is written as the length of its key in 16 bits, the key, the length of its value in 16
//! bits, and the value. Longer lengths lose their high-order bits.
//!
//! This is not the layout that `Block::get_key` and `Block::get_value_range` read: they cannot read
//! the entries of a block that is built here.

use vstd::prelude::*;

use super::{lemma_be_bytes_mod, u16_at, Block, BlockView, SIZEOF_U16};
use crate::codec::{be_bytes, lemma_be_bytes_len, lemma_be_round_trip, put_slice, put_u16};
use crate::key::{KeySlice, KeyVec, KeyView};

verus! {

/// Builds a block.
#[derive(Debug)]
pub struct BlockBuilder {
    /// Offsets of each key-value entries.
    offsets: Vec<u16>,
    /// All serialized key-value pairs in the block.
    data: Vec<u8>,
    /// The expected block size.
    block_size: usize,
    /// The first key in the block.
    first_key: KeyVec,
}

/// What a `BlockBuilder` holds.
#[verifier::ext_equal]
pub struct BuilderView {
    pub block: BlockView,
    pub block_size: usize,
    pub first_key: KeyView,
}

impl View for BlockBuilder {
    type V = BuilderView;

    closed spec fn view(&self) -> BuilderView {
        BuilderView {
            block: BlockView { data: self.data@, offsets: self.offsets@ },
            block_size: self.block_size,
            first_key: self.first_key@,
        }
    }
}

/// How an entry is written. `Block::get_key` cannot read it: it expects another layout.
pub open spec fn entry_bytes(key: Seq<u8>, value: Seq<u8>) -> Seq<u8> {
    be_bytes(key.len(), 2) + key + be_bytes(value.len(), 2) + value
}

/// A block with one more entry.
pub open spec fn with_entry(block: BlockView, key: Seq<u8>, value: Seq<u8>) -> BlockView {
    BlockView {
        data: block.data + entry_bytes(key, value),
        offsets: block.offsets.push((block.data.len() % 0x1_0000) as u16),
    }
}

/// The block made of the given keys and values.
pub open spec fn block_of(entries: Seq<(Seq<u8>, Seq<u8>)>) -> BlockView
    decreases entries.len(),
{
    if entries.len() == 0 {
        BlockView { data: Seq::empty(), offsets: Seq::empty() }
    } else {
        with_entry(block_of(entries.drop_last()), entries.last().0, entries.last().1)
    }
}

impl BuilderView {
    /// Each entry takes up at least the four bytes of its two lengths.
    pub open spec fn wf(self) -> bool {
        &&& 4 * self.block.offsets.len() <= self.block.data.len() <= isize::MAX
        &&& self.block.offsets.len() == 0 ==> self.block.data.len() == 0
    }

    /// The bytes of the entries and one for each of them.
    pub open spec fn size(self) -> nat {
        self.block.data.len() + self.block.offsets.len()
    }

    /// The sum of two lengths, each cut to 16 bits, that an entry is taken to add.
    pub open spec fn added_size(key: Seq<u8>, value: Seq<u8>) -> nat {
        key.len() % 0x1_0000 + value.len() % 0x1_0000
    }

    /// An entry is taken in: the first one always, each other one only where it stays within the
    /// expected size.
    pub open spec fn accepts(self, key: Seq<u8>, value: Seq<u8>) -> bool {
        self.block.data.len() == 0 || self.size() + Self::added_size(key, value) + 6
            <= self.block_size
    }

    /// The builder after an entry has been taken in.
    pub open spec fn added(self, key: KeyView, value: Seq<u8>) -> BuilderView {
        BuilderView {
            block: with_entry(self.block, key.key, value),
            block_size: self.block_size,
            first_key: if self.block.data.len() == 0 {
                key
            } else {
                self.first_key
            },
        }
    }
}

/// A builder that takes an entry in behind others stays below the expected size, as `size` counts
/// it, provided that the two lengths of the entry fit in 16 bits.
pub proof fn lemma_size_stays_below(builder: BuilderView, key: KeyView, value: Seq<u8>)
    requires
        builder.wf(),
        builder.block.data.len() > 0,
        builder.accepts(key.key, value),
        key.key.len() <= u16::MAX,
        value.len() <= u16::MAX,
    ensures
        builder.added(key, value).size() < builder.block_size,
{
    lemma_be_bytes_len(key.key.len(), 2);
    lemma_be_bytes_len(value.len(), 2);
}

/// An entry is refused only where the block would exceed its expected size: behind others it is
/// taken in exactly if the bytes of the entries so far, one for each of them, the lengths of its
/// key and its value, each as far as 16 bits hold it, and six more are no more than that size. The
/// first entry is always taken in.
pub proof fn lemma_refused_only_where_full(builder: BuilderView, key: Seq<u8>, value: Seq<u8>)
    ensures
        builder.block.data.len() == 0 ==> builder.accepts(key, value),
        builder.block.data.len() > 0 ==> builder.accepts(key, value) == (builder.block.data.len()
            + builder.block.offsets.len() + key.len() % 0x1_0000 + value.len() % 0x1_0000 + 6
            <= builder.block_size),
        builder.block.data.len() > 0 && key.len() <= u16::MAX && value.len() <= u16::MAX
            ==> builder.accepts(key, value) == (builder.block.data.len()
            + builder.block.offsets.len() + key.len() + value.len() + 6 <= builder.block_size),
{
}

/// An entry that is taken in stands behind the others, byte for byte: the length of its key in two
/// bytes, the higher one first, its key, the length of its value likewise, and its value. Its
/// offset is the number of bytes before it, as far as 16 bits hold it, what was there stays, and
/// the first key is that of the first entry.
pub proof fn lemma_added_entry(builder: BuilderView, key: KeyView, value: Seq<u8>)
    ensures
        ({
            let after = builder.added(key, value);
            let (before, data) = (builder.block.data, after.block.data);
            let at = before.len() as int;
            let value_at = at + 2 + key.key.len();
            &&& data.len() == at + 4 + key.key.len() + value.len()
            &&& data.take(at) == before
            &&& data[at] == key.key.len() / 0x100 % 0x100
            &&& data[at + 1] == key.key.len() % 0x100
            &&& data.subrange(at + 2, value_at) == key.key
            &&& data[value_at] == value.len() / 0x100 % 0x100
            &&& data[value_at + 1] == value.len() % 0x100
            &&& data.skip(value_at + 2) == value
            &&& after.block.offsets.len() == builder.block.offsets.len() + 1
            &&& after.block.offsets.drop_last() == builder.block.offsets
            &&& after.block.offsets.last() == at % 0x1_0000
            &&& after.block_size == builder.block_size
            &&& after.first_key == (if at == 0 {
                key
            } else {
                builder.first_key
            })
        }),
{
    let after = builder.added(key, value);
    let data = after.block.data;
    let at = builder.block.data.len() as int;
    let value_at = at + 2 + key.key.len();
    lemma_be_bytes_len(key.key.len(), 2);
    lemma_be_bytes_len(value.len(), 2);
    reveal_with_fuel(be_bytes, 3);
    assert(data.take(at) =~= builder.block.data);
    assert(data[at] == be_bytes(key.key.len(), 2)[0]);
    assert(data[at + 1] == be_bytes(key.key.len(), 2)[1]);
    assert(data.subrange(at + 2, value_at) =~= key.key);
    assert(data[value_at] == be_bytes(value.len(), 2)[0]);
    assert(data[value_at + 1] == be_bytes(value.len(), 2)[1]);
    assert(data.skip(value_at + 2) =~= value);
    assert(after.block.offsets.drop_last() =~= builder.block.offsets);
}

proof fn lemma_entry_len(key: Seq<u8>, value: Seq<u8>)
    ensures
        entry_bytes(key, value).len() == 4 + key.len() + value.len(),
{
    lemma_be_bytes_len(key.len(), 2);
    lemma_be_bytes_len(value.len(), 2);
}

/// Each entry that went into a block stands in it at its offset: the length of its key, its key,
/// the length of its value, its value. The offset and the lengths must fit in 16 bits.
pub proof fn lemma_entry_stands_at_offset(entries: Seq<(Seq<u8>, Seq<u8>)>, i: int)
    requires
        0 <= i < entries.len(),
        block_of(entries.take(i)).data.len() <= u16::MAX,
        entries[i].0.len() <= u16::MAX,
        entries[i].1.len() <= u16::MAX,
    ensures
        ({
            let block = block_of(entries);
            let at = block.offsets[i] as int;
            let (key, value) = entries[i];
            let value_at = at + 2 + key.len() + 2;
            &&& block.offsets.len() == entries.len()
            &&& value_at + value.len() <= block.data.len()
            &&& u16_at(block.data, at) == key.len()
            &&& block.data.subrange(at + 2, at + 2 + key.len()) == key
            &&& u16_at(block.data, at + 2 + key.len()) == value.len()
            &&& block.data.subrange(value_at, value_at + value.len()) == value
        }),
    decreases entries.len(),
{
    let front = entries.drop_last();
    let block = block_of(entries);
    let inner = block_of(front);
    let (key, value) = entries[i];
    lemma_block_of_len(entries);
    lemma_block_of_len(front);
    if i == entries.len() - 1 {
        let at = inner.data.len() as int;
        assert(entries.take(i) =~= front);
        lemma_be_round_trip(key.len(), 2);
        lemma_be_round_trip(value.len(), 2);
        let value_at = at + 2 + key.len() + 2;
        assert(block.data.subrange(at, at + 2) =~= be_bytes(key.len(), 2));
        assert(block.data.subrange(at + 2, at + 2 + key.len()) =~= key);
        assert(block.data.subrange(at + 2 + key.len(), value_at) =~= be_bytes(value.len(), 2));
        assert(block.data.subrange(value_at, value_at + value.len()) =~= value);
    } else {
        assert(front.take(i) =~= entries.take(i));
        lemma_entry_stands_at_offset(front, i);
        let at = inner.offsets[i] as int;
        let value_at = at + 2 + key.len() + 2;
        assert(block.data.subrange(at, at + 2) =~= inner.data.subrange(at, at + 2));
        assert(block.data.subrange(at + 2, at + 2 + key.len()) =~= inner.data.subrange(
            at + 2,
            at + 2 + key.len(),
        ));
        assert(block.data.subrange(at + 2 + key.len(), value_at) =~= inner.data.subrange(
            at + 2 + key.len(),
            value_at,
        ));
        assert(block.data.subrange(value_at, value_at + value.len()) =~= inner.data.subrange(
            value_at,
            value_at + value.len(),
        ));
    }
}

proof fn lemma_block_of_len(entries: Seq<(Seq<u8>, Seq<u8>)>)
    ensures
        block_of(entries).offsets.len() == entries.len(),
    decreases entries.len(),
{
    if entries.len() > 0 {
        lemma_block_of_len(entries.drop_last());
    }
}

impl BlockBuilder {
    /// Creates a new block builder.
    pub fn new(block_size: usize) -> (builder: Self)
        ensures
            builder@.block == block_of(Seq::empty()),
            builder@.block_size == block_size,
            builder@.first_key == (KeyView { key: Seq::empty(), ts: 0 }),
            builder@.wf(),
    {
        BlockBuilder { offsets: Vec::new(), data: Vec::new(), block_size, first_key: KeyVec::new() }
    }

    /// Adds a key-value pair to the block. Returns false when the block is full.
    #[must_use]
    pub fn add(&mut self, key: KeySlice<'_>, value: &[u8]) -> (accepted: bool)
        requires
            old(self)@.wf(),
            old(self)@.block.data.len() > 0 ==> BuilderView::added_size(key@.key, value@)
                <= u16::MAX,
            old(self)@.accepts(key@.key, value@) ==> old(self)@.block.data.len() + 4
                + key@.key.len() + value@.len() <= isize::MAX,
        ensures
            final(self)@.wf(),
            accepted == old(self)@.accepts(key@.key, value@),
            final(self)@ == (if accepted {
                old(self)@.added(key@, value@)
            } else {
                old(self)@
            }),
    {
        let key_len: u16 = Self::low_bits(key.key_len());
        let value_len: u16 = Self::low_bits(value.len());
        if self.is_empty() {
            self.add_kv(key_len, key, value_len, value);
            self.first_key = key.to_key_vec();
            return true;
        }
        if self.current_block_size() + (key_len + value_len) as usize + SIZEOF_U16 * 3
            > self.block_size {
            return false;
        }
        self.add_kv(key_len, key, value_len, value);
        true
    }

    /// Check if there is no key-value pair in the block.
    pub fn is_empty(&self) -> (empty: bool)
        ensures
            empty == (self@.block.data.len() == 0),
    {
        self.data.is_empty()
    }

    /// Finalize the block. `Block::get_key` cannot read its entries, which are laid out otherwise.
    pub fn build(self) -> (block: Block)
        ensures
            block@ == self@.block,
    {
        Block::from_parts(self.data, self.offsets)
    }

    fn current_block_size(&self) -> (size: usize)
        requires
            self@.wf(),
        ensures
            size == self@.size(),
    {
        self.data.len() + self.offsets.len()
    }

    /// Writes an entry behind the others.
    fn add_kv(&mut self, key_len: u16, key: KeySlice<'_>, value_len: u16, value: &[u8])
        requires
            old(self)@.wf(),
            key_len == key@.key.len() % 0x1_0000,
            value_len == value@.len() % 0x1_0000,
            old(self)@.block.data.len() + 4 + key@.key.len() + value@.len() <= isize::MAX,
        ensures
            final(self)@.wf(),
            final(self)@.block == with_entry(old(self)@.block, key@.key, value@),
            final(self)@.block_size == old(self)@.block_size,
            final(self)@.first_key == old(self)@.first_key,
    {
        proof {
            lemma_entry_len(key@.key, value@);
            lemma_be_bytes_mod(key@.key.len());
            lemma_be_bytes_mod(value@.len());
            lemma_be_bytes_len(key_len as nat, 2);
            lemma_be_bytes_len(value_len as nat, 2);
        }
        self.offsets.push(Self::low_bits(self.data.len()));
        put_u16(&mut self.data, key_len);
        put_slice(&mut self.data, key.key_ref());
        put_u16(&mut self.data, value_len);
        put_slice(&mut self.data, value);
        assert(self.data@ =~= old(self)@.block.data + entry_bytes(key@.key, value@));
    }

    /// The 16 low-order bits of a length.
    fn low_bits(len: usize) -> (bits: u16)
        ensures
            bits == len % 0x1_0000,
    {
        let bits: u16 = #[verifier::truncate] (len as u16);
        assert(bits == len % 0x1_0000) by (bit_vector)
            requires
                bits == len as u16,
        ;
        bits
    }
}

} // verus!
