use mini_lsm::block::{Block, BlockBuilder};
use mini_lsm::key::KeySlice;

fn be16(n: u16) -> Vec<u8> {
    n.to_be_bytes().to_vec()
}

/// An entry as blocks hold it: shared key bytes, own key bytes, timestamp, value.
fn stored_entry(overlap: u16, rest: &[u8], ts: u64, value: &[u8]) -> Vec<u8> {
    let mut out = be16(overlap);
    out.extend(be16(rest.len() as u16));
    out.extend_from_slice(rest);
    out.extend_from_slice(&ts.to_be_bytes());
    out.extend(be16(value.len() as u16));
    out.extend_from_slice(value);
    out
}

fn encoded(data: &[u8], offsets: &[u16]) -> Vec<u8> {
    let mut out = data.to_vec();
    for offset in offsets {
        out.extend(be16(*offset));
    }
    out.extend(be16(offsets.len() as u16));
    out
}

#[test]
fn decoding_reads_keys_timestamps_and_values() {
    let first = stored_entry(0, b"apple", 7, b"red");
    let second = stored_entry(3, b"ricot", 9, b"");
    let mut data = first.clone();
    data.extend_from_slice(&second);
    let offsets = [0u16, first.len() as u16];
    let block = Block::decode(&encoded(&data, &offsets));

    assert_eq!(block.get_element_nums(), 2);
    let key = block.get_key(0);
    assert_eq!(key.as_key_slice().key_ref(), b"apple");
    assert_eq!(key.as_key_slice().ts(), 7);
    let key = block.get_key(1);
    assert_eq!(key.as_key_slice().key_ref(), b"appricot");
    assert_eq!(key.as_key_slice().ts(), 9);

    let (from, to) = block.get_value_range(0);
    assert_eq!(&data[from..to], b"red");
    let (from, to) = block.get_value_range(1);
    assert_eq!((from, to), (data.len(), data.len()));
}

#[test]
fn past_the_last_entry_key_and_range_are_empty() {
    let block = Block::decode(&[0, 0]);
    assert_eq!(block.get_element_nums(), 0);
    let key = block.get_key(0);
    assert_eq!(key.as_key_slice().key_ref(), b"");
    assert_eq!(key.as_key_slice().ts(), 0);
    assert_eq!(block.get_value_range(3), (0, 0));
}

#[test]
fn encoding_undoes_decoding() {
    let bytes = vec![1u8, 2, 3, 0, 0, 0x12, 0x34, 0xff, 0xff, 0, 3];
    let block = Block::decode(&bytes);
    assert_eq!(block.get_element_nums(), 3);
    assert_eq!(&block.encode()[..], &bytes[..]);
}

#[test]
fn decoding_undoes_encoding() {
    let mut builder = BlockBuilder::new(4096);
    assert!(builder.add(KeySlice::from_slice(b"k", 0), b"v"));
    assert!(builder.add(KeySlice::from_slice(b"kk", 0), b"vv"));
    let block = builder.build();
    let bytes = block.encode();
    let again = Block::decode(&bytes);
    assert_eq!(again.get_element_nums(), 2);
    assert_eq!(again.encode(), bytes);
}

#[test]
fn builder_writes_lengths_keys_and_values() {
    let mut builder = BlockBuilder::new(4096);
    assert!(builder.is_empty());
    assert!(builder.add(KeySlice::from_slice(b"ab", 5), b"xyz"));
    assert!(!builder.is_empty());
    assert!(builder.add(KeySlice::from_slice(b"c", 6), b""));
    let bytes = builder.build().encode();
    let expected = [
        0, 2, b'a', b'b', 0, 3, b'x', b'y', b'z', 0, 1, b'c', 0, 0, 0, 0, 0, 9, 0, 2,
    ];
    assert_eq!(&bytes[..], &expected[..]);
}

#[test]
fn builder_takes_the_first_entry_whatever_its_size() {
    let mut builder = BlockBuilder::new(1);
    assert!(builder.add(KeySlice::from_slice(b"long key", 0), b"long value"));
    assert!(!builder.add(KeySlice::from_slice(b"", 0), b""));
}

#[test]
fn builder_is_full_exactly_above_the_block_size() {
    // The first entry counts 4 + 1 + 1 bytes and one offset, the second 1 + 1 and 6 more.
    let mut builder = BlockBuilder::new(15);
    assert!(builder.add(KeySlice::from_slice(b"a", 0), b"1"));
    assert!(builder.add(KeySlice::from_slice(b"b", 0), b"2"));

    let mut builder = BlockBuilder::new(14);
    assert!(builder.add(KeySlice::from_slice(b"a", 0), b"1"));
    assert!(!builder.add(KeySlice::from_slice(b"b", 0), b"2"));
    assert_eq!(builder.build().get_element_nums(), 1);
}

#[test]
fn lengths_keep_their_low_order_bits() {
    let key = vec![b'k'; 0x1_0002];
    let mut builder = BlockBuilder::new(10);
    assert!(builder.add(KeySlice::from_slice(&key, 0), b""));
    let bytes = builder.build().encode();
    assert_eq!(&bytes[..2], &[0, 2]);
    assert_eq!(bytes.len(), 2 + 0x1_0002 + 2 + 2 + 2);
}
