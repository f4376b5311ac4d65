//! Blocks: the smallest unit of reading and caching.
//!
//! A block is encoded as its data, the offset of each entry in 16 bits, and the number of entries
//! in 16 bits. An entry read from a block begins with the number of bytes that its key shares with
//! the first key and the number of key bytes that follow, both in 16 bits; then come those bytes,
//! the timestamp in 64 bits, the length of the value in 16 bits, and the value.
//!
//! A `BlockBuilder` writes its entries in another layout, without a shared part and without a
//! timestamp. So `get_key` and `get_value_range` cannot read the entries of a built block.

use bytes::Bytes;
use vstd::prelude::*;

use crate::codec::{
    be_bytes, be_value, bytes_from_vec, bytes_view, get_u16, get_u64, lemma_be_bytes_len,
    lemma_be_bytes_of_be_value, lemma_be_round_trip, put_u16,
};
use crate::key::{KeyVec, KeyView};

pub mod builder;

pub use builder::BlockBuilder;

verus! {

pub(crate) const SIZEOF_U16: usize = 2;

pub(crate) const SIZEOF_U64: usize = 8;

/// A block is the smallest unit of read and caching in LSM tree. It is a collection of sorted
/// key-value pairs.
#[derive(Debug)]
pub struct Block {
    data: Vec<u8>,
    offsets: Vec<u16>,
}

/// What a `Block` holds.
#[verifier::ext_equal]
pub struct BlockView {
    pub data: Seq<u8>,
    pub offsets: Seq<u16>,
}

impl View for Block {
    type V = BlockView;

    closed spec fn view(&self) -> BlockView {
        BlockView { data: self.data@, offsets: self.offsets@ }
    }
}

/// The number in 16 bits that stands at `at`.
pub open spec fn u16_at(data: Seq<u8>, at: int) -> int {
    be_value(data.subrange(at, at + 2)) as int
}

/// The number in 64 bits that stands at `at`.
pub open spec fn u64_at(data: Seq<u8>, at: int) -> int {
    be_value(data.subrange(at, at + 8)) as int
}

/// The offsets, one after the other, each in 16 bits.
pub open spec fn offsets_bytes(offsets: Seq<u16>) -> Seq<u8>
    decreases offsets.len(),
{
    if offsets.len() == 0 {
        Seq::empty()
    } else {
        offsets_bytes(offsets.drop_last()) + be_bytes(offsets.last() as nat, 2)
    }
}

/// How a block is encoded.
pub open spec fn encoded(block: BlockView) -> Seq<u8> {
    block.data + offsets_bytes(block.offsets) + be_bytes(block.offsets.len(), 2)
}

/// The number of entries that an encoded block states.
pub open spec fn stated_entries(bytes: Seq<u8>) -> int {
    u16_at(bytes, bytes.len() - 2)
}

/// The bytes are long enough for the number of entries that they state.
pub open spec fn is_decodable(bytes: Seq<u8>) -> bool {
    bytes.len() >= 2 && (stated_entries(bytes) + 1) * 2 <= bytes.len()
}

/// The block that the bytes encode.
pub open spec fn decoded(bytes: Seq<u8>) -> BlockView {
    let n = stated_entries(bytes);
    let data_end = bytes.len() - (n + 1) * 2;
    BlockView {
        data: bytes.take(data_end),
        offsets: Seq::new(n as nat, |i: int| u16_at(bytes, data_end + 2 * i) as u16),
    }
}

impl BlockView {
    /// The number of bytes that the key of an entry shares with the first key.
    pub open spec fn overlap_len(self, nth: int) -> int {
        u16_at(self.data, self.offsets[nth] as int)
    }

    /// The number of key bytes that an entry holds itself.
    pub open spec fn rest_len(self, nth: int) -> int {
        u16_at(self.data, self.offsets[nth] + 2)
    }

    /// Where the key bytes of an entry end.
    pub open spec fn rest_end(self, nth: int) -> int {
        self.offsets[nth] + 4 + self.rest_len(nth)
    }

    /// The bytes that make up the key of an entry are there.
    pub open spec fn key_is_there(self, nth: int) -> bool {
        &&& self.offsets[nth] + 4 <= self.data.len()
        &&& 4 + self.overlap_len(nth) <= self.data.len()
        &&& self.rest_end(nth) + 8 <= self.data.len()
    }

    /// The key of an entry; past the last entry, the empty key.
    pub open spec fn key(self, nth: int) -> KeyView {
        if nth < self.offsets.len() {
            KeyView {
                key: self.data.subrange(4, 4 + self.overlap_len(nth)) + self.data.subrange(
                    self.offsets[nth] + 4,
                    self.rest_end(nth),
                ),
                ts: u64_at(self.data, self.rest_end(nth)) as u64,
            }
        } else {
            KeyView { key: Seq::empty(), ts: 0 }
        }
    }

    /// The bytes that tell where the value of an entry stands are there.
    pub open spec fn value_len_is_there(self, nth: int) -> bool {
        &&& self.offsets[nth] + 4 <= self.data.len()
        &&& self.rest_end(nth) + 10 <= self.data.len()
    }

    /// Where the value of an entry begins and ends; past the last entry, the empty range.
    pub open spec fn value_range(self, nth: int) -> (int, int) {
        if nth < self.offsets.len() {
            let len_at = self.rest_end(nth) + 8;
            (len_at + 2, len_at + 2 + u16_at(self.data, len_at))
        } else {
            (0, 0)
        }
    }
}

proof fn lemma_offsets_bytes_len(offsets: Seq<u16>)
    ensures
        offsets_bytes(offsets).len() == 2 * offsets.len(),
    decreases offsets.len(),
{
    if offsets.len() > 0 {
        lemma_offsets_bytes_len(offsets.drop_last());
        lemma_be_bytes_len(offsets.last() as nat, 2);
    }
}

proof fn lemma_offsets_bytes_at(offsets: Seq<u16>, i: int)
    requires
        0 <= i < offsets.len(),
    ensures
        offsets_bytes(offsets).len() == 2 * offsets.len(),
        u16_at(offsets_bytes(offsets), 2 * i) == offsets[i],
    decreases offsets.len(),
{
    lemma_offsets_bytes_len(offsets);
    lemma_offsets_bytes_len(offsets.drop_last());
    let front = offsets_bytes(offsets.drop_last());
    let last = be_bytes(offsets.last() as nat, 2);
    lemma_be_round_trip(offsets.last() as nat, 2);
    if i == offsets.len() - 1 {
        assert((front + last).subrange(2 * i, 2 * i + 2) =~= last);
    } else {
        lemma_offsets_bytes_at(offsets.drop_last(), i);
        assert((front + last).subrange(2 * i, 2 * i + 2) =~= front.subrange(2 * i, 2 * i + 2));
    }
}

/// The low-order bytes of a number are those of its remainder.
pub(crate) proof fn lemma_be_bytes_mod(value: nat)
    ensures
        be_bytes(value % 0x1_0000, 2) == be_bytes(value, 2),
{
    reveal_with_fuel(be_bytes, 3);
    let low = value % 0x1_0000;
    assert(low % 256 == value % 256);
    assert((low / 256) % 256 == (value / 256) % 256);
}

/// A block is its own encoding's decoding, provided its number of entries fits in 16 bits.
pub proof fn lemma_decode_of_encode(block: BlockView)
    requires
        block.offsets.len() <= u16::MAX,
    ensures
        is_decodable(encoded(block)),
        decoded(encoded(block)) == block,
{
    let bytes = encoded(block);
    let n = block.offsets.len();
    let end = block.data.len() as int;
    lemma_offsets_bytes_len(block.offsets);
    lemma_be_round_trip(n, 2);
    assert(bytes.subrange(bytes.len() - 2, bytes.len() as int) =~= be_bytes(n, 2));
    assert(bytes.take(end) =~= block.data);
    assert forall|i: int| 0 <= i < n implies u16_at(bytes, end + 2 * i) == block.offsets[i] by {
        lemma_offsets_bytes_at(block.offsets, i);
        assert(bytes.subrange(end + 2 * i, end + 2 * i + 2) =~= offsets_bytes(
            block.offsets,
        ).subrange(2 * i, 2 * i + 2));
    }
    assert(decoded(bytes).offsets =~= block.offsets);
}

proof fn lemma_offsets_bytes_of_read(bytes: Seq<u8>, start: int, offsets: Seq<u16>)
    requires
        0 <= start,
        start + 2 * offsets.len() <= bytes.len(),
        forall|i: int|
            0 <= i < offsets.len() ==> #[trigger] offsets[i] == u16_at(bytes, start + 2 * i),
    ensures
        offsets_bytes(offsets) == bytes.subrange(start, start + 2 * offsets.len()),
    decreases offsets.len(),
{
    if offsets.len() == 0 {
        assert(bytes.subrange(start, start) =~= Seq::<u8>::empty());
    } else {
        let front = offsets.drop_last();
        assert forall|i: int| 0 <= i < front.len() implies #[trigger] front[i] == u16_at(
            bytes,
            start + 2 * i,
        ) by {
            assert(front[i] == offsets[i]);
        }
        lemma_offsets_bytes_of_read(bytes, start, front);
        let at = start + 2 * front.len();
        assert(offsets[offsets.len() - 1] == u16_at(bytes, at));
        lemma_be_bytes_of_be_value(bytes.subrange(at, at + 2));
        assert(bytes.subrange(start, at) + bytes.subrange(at, at + 2) =~= bytes.subrange(
            start,
            start + 2 * offsets.len(),
        ));
    }
}

/// Bytes that can be decoded are the encoding of what they decode to.
pub proof fn lemma_encode_of_decode(bytes: Seq<u8>)
    requires
        is_decodable(bytes),
    ensures
        encoded(decoded(bytes)) == bytes,
{
    let block = decoded(bytes);
    let n = stated_entries(bytes);
    let end = bytes.len() - (n + 1) * 2;
    lemma_be_bytes_of_be_value(bytes.subrange(bytes.len() - 2, bytes.len() as int));
    assert forall|i: int| 0 <= i < n implies #[trigger] block.offsets[i] == u16_at(
        bytes,
        end + 2 * i,
    ) by {
        lemma_be_bytes_of_be_value(bytes.subrange(end + 2 * i, end + 2 * i + 2));
        reveal_with_fuel(crate::codec::pow256, 3);
    }
    lemma_offsets_bytes_of_read(bytes, end, block.offsets);
    assert(encoded(block) =~= bytes);
}

/// How an entry stands in a block from which it is read.
pub open spec fn stored_entry(overlap: nat, rest: Seq<u8>, ts: u64, value: Seq<u8>) -> Seq<u8> {
    be_bytes(overlap, 2) + be_bytes(rest.len(), 2) + rest + be_bytes(ts as nat, 8) + be_bytes(
        value.len(),
        2,
    ) + value
}

/// An entry that stands at its offset is read back: its key is the shared part of the first key
/// followed by its own bytes, with its timestamp, and its value is what stands in the value range.
pub proof fn lemma_stored_entry_reads_back(
    block: BlockView,
    nth: int,
    before: Seq<u8>,
    overlap: nat,
    rest: Seq<u8>,
    ts: u64,
    value: Seq<u8>,
    after: Seq<u8>,
)
    requires
        0 <= nth < block.offsets.len(),
        block.offsets[nth] == before.len(),
        block.data == before + stored_entry(overlap, rest, ts, value) + after,
        overlap <= u16::MAX,
        4 + overlap <= block.data.len(),
        rest.len() <= u16::MAX,
        value.len() <= u16::MAX,
    ensures
        block.key_is_there(nth),
        block.key(nth) == (KeyView { key: block.data.subrange(4, 4 + overlap as int) + rest, ts }),
        block.value_len_is_there(nth),
        block.data.subrange(block.value_range(nth).0, block.value_range(nth).1) == value,
{
    let at = before.len() as int;
    let data = block.data;
    lemma_be_round_trip(overlap, 2);
    lemma_be_round_trip(rest.len(), 2);
    lemma_be_round_trip(ts as nat, 8);
    lemma_be_round_trip(value.len(), 2);
    assert(data.subrange(at, at + 2) =~= be_bytes(overlap, 2));
    assert(data.subrange(at + 2, at + 4) =~= be_bytes(rest.len(), 2));
    let end = at + 4 + rest.len();
    assert(data.subrange(at + 4, end) =~= rest);
    assert(data.subrange(end, end + 8) =~= be_bytes(ts as nat, 8));
    assert(data.subrange(end + 8, end + 10) =~= be_bytes(value.len(), 2));
    assert(data.subrange(end + 10, end + 10 + value.len()) =~= value);
}

proof fn lemma_u16_at(data: Seq<u8>, at: int)
    requires
        0 <= at,
        at + 2 <= data.len(),
    ensures
        u16_at(data, at) == data[at] * 0x100 + data[at + 1],
{
    reveal_with_fuel(be_value, 3);
    let two = data.subrange(at, at + 2);
    assert(two.drop_last().drop_last() =~= Seq::empty());
    assert(two.drop_last().last() == data[at]);
}

/// A block is encoded as its data, each offset in two bytes, the higher one first, and the number
/// of entries likewise, as far as 16 bits hold it.
pub proof fn lemma_encoded_layout(block: BlockView, i: int)
    ensures
        ({
            let bytes = encoded(block);
            let (end, n) = (block.data.len() as int, block.offsets.len() as int);
            &&& bytes.len() == end + 2 * n + 2
            &&& bytes.take(end) == block.data
            &&& 0 <= i < n ==> bytes[end + 2 * i] == block.offsets[i] / 0x100 && bytes[end + 2 * i
                + 1] == block.offsets[i] % 0x100
            &&& bytes[end + 2 * n] == n / 0x100 % 0x100
            &&& bytes[end + 2 * n + 1] == n % 0x100
        }),
{
    let bytes = encoded(block);
    let (end, n) = (block.data.len() as int, block.offsets.len() as int);
    let offsets = offsets_bytes(block.offsets);
    lemma_offsets_bytes_len(block.offsets);
    lemma_be_bytes_len(n as nat, 2);
    reveal_with_fuel(be_bytes, 3);
    assert(bytes.take(end) =~= block.data);
    if 0 <= i < n {
        lemma_offsets_bytes_at(block.offsets, i);
        lemma_u16_at(offsets, 2 * i);
        assert(bytes[end + 2 * i] == offsets[2 * i]);
        assert(bytes[end + 2 * i + 1] == offsets[2 * i + 1]);
    }
    assert(bytes[end + 2 * n] == be_bytes(n as nat, 2)[0]);
    assert(bytes[end + 2 * n + 1] == be_bytes(n as nat, 2)[1]);
}

/// Where the parts of an entry are read from: at its offset stand the number of bytes that it
/// shares with the first key, which begin behind the first four bytes of the block, and the number
/// of its own key bytes, each in two bytes with the higher one first; then come those bytes, the
/// timestamp in eight bytes, the length of the value in two, and the value.
pub proof fn lemma_entry_layout(block: BlockView, nth: int)
    requires
        0 <= nth < block.offsets.len(),
        block.key_is_there(nth),
    ensures
        ({
            let data = block.data;
            let at = block.offsets[nth] as int;
            let shared = data[at] * 0x100 + data[at + 1];
            let end = at + 4 + data[at + 2] * 0x100 + data[at + 3];
            &&& block.key(nth).key == data.subrange(4, 4 + shared) + data.subrange(at + 4, end)
            &&& block.key(nth).ts == be_value(data.subrange(end, end + 8))
            &&& end + 10 <= data.len() ==> block.value_range(nth) == (
                end + 10,
                end + 10 + data[end + 8] * 0x100 + data[end + 9],
            )
        }),
{
    let data = block.data;
    let at = block.offsets[nth] as int;
    lemma_u16_at(data, at);
    lemma_u16_at(data, at + 2);
    let end = block.rest_end(nth);
    lemma_be_bytes_of_be_value(data.subrange(end, end + 8));
    reveal_with_fuel(crate::codec::pow256, 9);
    if end + 10 <= data.len() {
        lemma_u16_at(data, end + 8);
    }
}

/// Past the last entry there is the empty key, and an empty range for its value.
pub proof fn lemma_past_last_entry(block: BlockView, nth: int)
    requires
        nth >= block.offsets.len(),
    ensures
        block.key(nth).key.len() == 0,
        block.key(nth).ts == 0,
        block.value_range(nth) == (0int, 0int),
{
}

impl Block {
    /// The block with the given data and offsets.
    pub(crate) fn from_parts(data: Vec<u8>, offsets: Vec<u16>) -> (block: Self)
        ensures
            block@ == (BlockView { data: data@, offsets: offsets@ }),
    {
        Block { data, offsets }
    }

    /// Encodes the block. The number of entries is written in 16 bits.
    pub fn encode(&self) -> (bytes: Bytes)
        requires
            self@.data.len() + 2 * self@.offsets.len() + 2 <= isize::MAX,
        ensures
            bytes_view(bytes) == encoded(self@),
    {
        let mut buf = self.data.clone();
        let mut i: usize = 0;
        proof {
            assert(self.offsets@.take(0) =~= Seq::<u16>::empty());
            assert(buf@ =~= self.data@ + offsets_bytes(self.offsets@.take(0)));
        }
        while i < self.offsets.len()
            invariant
                i <= self.offsets@.len(),
                self.data@.len() + 2 * self.offsets@.len() + 2 <= isize::MAX,
                buf@ == self.data@ + offsets_bytes(self.offsets@.take(i as int)),
            decreases self.offsets@.len() - i,
        {
            proof {
                let taken = self.offsets@.take(i + 1);
                lemma_offsets_bytes_len(self.offsets@.take(i as int));
                assert(taken.drop_last() =~= self.offsets@.take(i as int));
            }
            put_u16(&mut buf, self.offsets[i]);
            proof {
                assert(buf@ =~= self.data@ + offsets_bytes(self.offsets@.take(i + 1)));
            }
            i = i + 1;
        }
        let len: usize = self.offsets.len();
        let count: u16 = #[verifier::truncate] (len as u16);
        proof {
            assert(self.offsets@.take(i as int) =~= self.offsets@);
            lemma_offsets_bytes_len(self.offsets@);
            assert(count == len % 0x1_0000) by (bit_vector)
                requires
                    count == len as u16,
            ;
            lemma_be_bytes_mod(len as nat);
        }
        put_u16(&mut buf, count);
        bytes_from_vec(buf)
    }

    /// Decodes a block.
    pub fn decode(data: &[u8]) -> (block: Self)
        requires
            is_decodable(data@),
        ensures
            block@ == decoded(data@),
    {
        let n: usize = data.len();
        let count: usize = Self::u16_in(data, n - SIZEOF_U16) as usize;
        let data_end: usize = n - (count + 1) * SIZEOF_U16;
        let mut offsets: Vec<u16> = Vec::new();
        let mut i: usize = 0;
        while i < count
            invariant
                n == data@.len(),
                is_decodable(data@),
                count == stated_entries(data@),
                data_end == n - (count + 1) * 2,
                i <= count,
                offsets@.len() == i,
                forall|j: int|
                    0 <= j < i ==> #[trigger] offsets@[j] == u16_at(data@, data_end + 2 * j),
            decreases count - i,
        {
            offsets.push(Self::u16_in(data, data_end + SIZEOF_U16 * i));
            i = i + 1;
        }
        let entries = vstd::slice::slice_to_vec(vstd::slice::slice_subrange(data, 0, data_end));
        let block = Block { data: entries, offsets };
        assert(block@.data =~= decoded(data@).data);
        assert(block@.offsets =~= decoded(data@).offsets);
        block
    }

    /// The key of an entry; past the last entry, the empty key. The entries of a block that a
    /// `BlockBuilder` built are laid out otherwise and cannot be read.
    pub fn get_key(&self, nth: usize) -> (key: KeyVec)
        requires
            nth < self@.offsets.len() ==> self@.key_is_there(nth as int),
        ensures
            key@ == self@.key(nth as int),
    {
        if nth >= self.offsets.len() {
            return KeyVec::new();
        }
        assert(self.data.len() == self.data@.len());
        let (overlap_len, rest_len) = self.get_key_len(nth);
        let offset: usize = self.offsets[nth] as usize;
        let mut buf: Vec<u8> = vstd::slice::slice_to_vec(self.first_key_prefix(overlap_len));
        let rest_begin: usize = offset + 2 * SIZEOF_U16;
        let rest_end: usize = rest_begin + rest_len;
        let ts_end: usize = rest_end + SIZEOF_U64;
        buf.extend_from_slice(self.get_data_by_range((rest_begin, rest_end)));
        let ts_bytes = self.get_data_by_range((rest_end, ts_end));
        assert(ts_bytes@.take(8) =~= ts_bytes@);
        let ts: u64 = get_u64(ts_bytes);
        assert(buf@ =~= self@.key(nth as int).key);
        KeyVec::from_vec_with_ts(buf, ts)
    }

    /// Where the value of an entry begins and ends; past the last entry, the empty range. As with
    /// `get_key`, the entries of a built block cannot be read.
    pub fn get_value_range(&self, nth: usize) -> (range: (usize, usize))
        requires
            self@.data.len() <= isize::MAX,
            nth < self@.offsets.len() ==> self@.value_len_is_there(nth as int),
        ensures
            range.0 == self@.value_range(nth as int).0,
            range.1 == self@.value_range(nth as int).1,
    {
        if nth >= self.offsets.len() {
            return (0, 0);
        }
        assert(self.data.len() == self.data@.len());
        let (_, rest_len) = self.get_key_len(nth);
        let offset: usize = self.offsets[nth] as usize;
        let len_at: usize = offset + 2 * SIZEOF_U16 + rest_len + SIZEOF_U64;
        let value_len: usize = Self::u16_in(self.data.as_slice(), len_at) as usize;
        (len_at + SIZEOF_U16, len_at + SIZEOF_U16 + value_len)
    }

    /// The number of entries.
    pub fn get_element_nums(&self) -> (n: usize)
        ensures
            n == self@.offsets.len(),
    {
        self.offsets.len()
    }

    /// How many key bytes of an entry are shared, and how many it holds itself.
    fn get_key_len(&self, nth: usize) -> (lens: (usize, usize))
        requires
            nth < self@.offsets.len(),
            self@.offsets[nth as int] + 4 <= self@.data.len(),
        ensures
            lens.0 == self@.overlap_len(nth as int),
            lens.1 == self@.rest_len(nth as int),
    {
        let offset: usize = self.offsets[nth] as usize;
        let overlap_len: usize = Self::u16_in(self.data.as_slice(), offset) as usize;
        let rest_len: usize = Self::u16_in(self.data.as_slice(), offset + SIZEOF_U16) as usize;
        (overlap_len, rest_len)
    }

    /// The data from one position to another.
    fn get_data_by_range(&self, range: (usize, usize)) -> (data: &[u8])
        requires
            range.0 <= range.1 <= self@.data.len(),
        ensures
            data@ == self@.data.subrange(range.0 as int, range.1 as int),
    {
        vstd::slice::slice_subrange(self.data.as_slice(), range.0, range.1)
    }

    /// The beginning of the first key, which stands behind two lengths of 16 bits.
    fn first_key_prefix(&self, overlap_len: usize) -> (prefix: &[u8])
        requires
            4 + overlap_len <= self@.data.len(),
        ensures
            prefix@ == self@.data.subrange(4, 4 + overlap_len),
    {
        assert(self.data.len() == self.data@.len());
        self.get_data_by_range((2 * SIZEOF_U16, 2 * SIZEOF_U16 + overlap_len))
    }

    /// The number in 16 bits at a position.
    fn u16_in(data: &[u8], at: usize) -> (n: u16)
        requires
            at + 2 <= data@.len(),
        ensures
            n == u16_at(data@, at as int),
    {
        assert(data.len() == data@.len());
        let bytes = vstd::slice::slice_subrange(data, at, at + SIZEOF_U16);
        assert(bytes@.take(2) =~= bytes@);
        get_u16(bytes)
    }
}

} // verus!
