use std::sync::Arc;

use mini_lsm_starter::block::{Block, BlockBuilder, BlockIterator};
use mini_lsm_starter::key::{compute_overlap, key_equal, key_less};

fn two_entry_block() -> Block {
    let mut builder = BlockBuilder::new(4096);
    assert!(builder.is_empty());
    assert!(builder.add(b"key1", b"value1"));
    assert!(builder.add(b"key2", b"v2"));
    assert!(!builder.is_empty());
    builder.build()
}

#[test]
fn build_lays_out_prefix_compressed_entries() {
    let block = two_entry_block();
    // overlap 0, the whole first key, then its value
    let mut expected: Vec<u8> = vec![0, 0, 0, 4];
    expected.extend_from_slice(b"key1");
    expected.extend_from_slice(&[0, 6]);
    expected.extend_from_slice(b"value1");
    // the second key shares "key" with the first one
    expected.extend_from_slice(&[0, 3, 0, 1]);
    expected.extend_from_slice(b"2");
    expected.extend_from_slice(&[0, 2]);
    expected.extend_from_slice(b"v2");
    assert_eq!(block.data, expected);
    assert_eq!(block.offsets, vec![0u16, 16]);
}

#[test]
fn every_entry_stores_overlap_and_rest() {
    let mut builder = BlockBuilder::new(100);
    assert!(builder.add(b"ab", b"x"));
    assert!(builder.add(b"ac", b"y"));
    let block = builder.build();
    assert_eq!(
        block.data,
        vec![0u8, 0, 0, 2, b'a', b'b', 0, 1, b'x', 0, 1, 0, 1, b'c', 0, 1, b'y']
    );
    assert_eq!(block.offsets, vec![0u16, 9]);
}

#[test]
fn encode_appends_offsets_and_count() {
    let block = two_entry_block();
    let encoded = block.encode();
    let mut expected = block.data.clone();
    expected.extend_from_slice(&[0, 0, 0, 16, 0, 2]);
    assert_eq!(encoded.as_ref(), expected.as_slice());
}

#[test]
fn decode_inverts_encode() {
    let block = two_entry_block();
    let encoded = block.encode();
    let decoded = Block::decode(encoded.as_ref());
    assert_eq!(decoded.data, block.data);
    assert_eq!(decoded.offsets, block.offsets);
}

#[test]
fn decode_empty_block() {
    let decoded = Block::decode(&[0, 0]);
    assert!(decoded.data.is_empty());
    assert!(decoded.offsets.is_empty());
}

#[test]
fn decode_keeps_all_bytes_before_the_offsets() {
    let decoded = Block::decode(&[1, 2, 3, 0, 1, 0, 1]);
    assert_eq!(decoded.offsets, vec![1u16]);
    assert_eq!(decoded.data, vec![1u8, 2, 3]);
}

#[test]
fn decode_takes_offsets_in_any_order() {
    let decoded = Block::decode(&[7, 7, 0, 5, 0, 1, 0, 2]);
    assert_eq!(decoded.offsets, vec![5u16, 1]);
    assert_eq!(decoded.data, vec![7u8, 7]);
}

#[test]
fn add_counts_the_entry_count_when_full() {
    // one pair of one-byte key and value: 8 data bytes, one offset, the count: 12 bytes;
    // a second such pair needs 8 more
    let mut fits = BlockBuilder::new(20);
    assert!(fits.add(b"a", b"1"));
    assert!(fits.add(b"b", b"2"));
    let mut full = BlockBuilder::new(19);
    assert!(full.add(b"a", b"1"));
    assert!(!full.add(b"b", b"2"));
    let mut doc_case = BlockBuilder::new(17);
    assert!(doc_case.add(b"a", b"1"));
    assert!(!doc_case.add(b"b", b"2"));
    assert_eq!(doc_case.build().offsets, vec![0u16]);
}

#[test]
fn add_refuses_when_full_but_takes_first_entry() {
    let mut builder = BlockBuilder::new(32);
    assert!(builder.add(b"key1", b"value1"));
    // 16 data bytes + 2 offset bytes + 2 count bytes, then 4 + 2 + 6 more: exactly 32
    assert!(builder.add(b"key2", b"v2"));
    // now 25 data bytes + 4 + 2, and 4 + 2 + 6 more > 32
    assert!(!builder.add(b"key3", b"v3"));
    let block = builder.build();
    assert_eq!(block.offsets.len(), 2);

    let mut tiny = BlockBuilder::new(1);
    assert!(tiny.add(b"a-rather-long-key", b"and a value larger than the block"));
    assert!(!tiny.add(b"b", b"c"));
}

#[test]
fn iterator_walks_entries_in_order() {
    let mut builder = BlockBuilder::new(4096);
    let keys: Vec<Vec<u8>> = (0..20u32).map(|i| format!("key_{:03}", i * 5).into_bytes()).collect();
    for (i, k) in keys.iter().enumerate() {
        assert!(builder.add(k, format!("value_{}", i).as_bytes()));
    }
    let block = Arc::new(builder.build());
    let mut iter = BlockIterator::create_and_seek_to_first(block);
    for (i, k) in keys.iter().enumerate() {
        assert!(iter.is_valid());
        assert_eq!(iter.key(), k.as_slice());
        assert_eq!(iter.value(), format!("value_{}", i).as_bytes());
        iter.next();
    }
    assert!(!iter.is_valid());
    assert!(iter.key().is_empty());
    iter.next();
    assert!(!iter.is_valid());
    iter.seek_to_first();
    assert_eq!(iter.key(), keys[0].as_slice());
}

#[test]
fn seek_finds_first_key_not_below() {
    let mut builder = BlockBuilder::new(4096);
    for i in 0..10u32 {
        let k = format!("key_{:03}", i * 10);
        assert!(builder.add(k.as_bytes(), k.as_bytes()));
    }
    let block = Arc::new(builder.build());
    let mut iter = BlockIterator::create_and_seek_to_key(block.clone(), b"key_035");
    assert_eq!(iter.key(), b"key_040");
    assert_eq!(iter.value(), b"key_040");
    iter.seek_to_key(b"key_050");
    assert_eq!(iter.key(), b"key_050");
    iter.seek_to_key(b"a");
    assert_eq!(iter.key(), b"key_000");
    iter.seek_to_key(b"key_091");
    assert!(!iter.is_valid());
    let iter = BlockIterator::create_and_seek_to_key(block, b"zzz");
    assert!(!iter.is_valid());
}

#[test]
fn seek_in_empty_block_is_invalid() {
    let block = Arc::new(Block::decode(&[0, 0]));
    let iter = BlockIterator::create_and_seek_to_key(block, b"k");
    assert!(!iter.is_valid());
}

#[test]
fn decoded_block_iterates_like_the_built_one() {
    let block = two_entry_block();
    let decoded = Arc::new(Block::decode(block.encode().as_ref()));
    let mut iter = BlockIterator::create_and_seek_to_first(decoded);
    assert_eq!(iter.key(), b"key1");
    assert_eq!(iter.value(), b"value1");
    iter.next();
    assert_eq!(iter.key(), b"key2");
    assert_eq!(iter.value(), b"v2");
    iter.next();
    assert!(!iter.is_valid());
}

#[test]
fn keys_compare_lexicographically() {
    assert_eq!(compute_overlap(b"apple", b"apply"), 4);
    assert_eq!(compute_overlap(b"", b"abc"), 0);
    assert_eq!(compute_overlap(b"abc", b"abc"), 3);
    assert!(key_less(b"ab", b"abc"));
    assert!(key_less(b"abc", b"abd"));
    assert!(!key_less(b"abd", b"abc"));
    assert!(!key_less(b"abc", b"abc"));
    assert!(key_less(b"", b"a"));
    assert!(key_equal(b"abc", b"abc"));
    assert!(!key_equal(b"abc", b"ab"));
}
