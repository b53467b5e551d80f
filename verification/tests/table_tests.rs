use std::sync::Arc;

use mini_lsm_starter::iterators::StorageIterator;
use mini_lsm_starter::table::bloom::{key_fingerprint, Bloom};
use mini_lsm_starter::table::{BlockMeta, SsTableBuilder, SsTableIterator};

fn key_of(i: usize) -> Vec<u8> {
    format!("key_{:05}", i * 5).into_bytes()
}

fn value_of(i: usize) -> Vec<u8> {
    format!("value_{:05}", i).into_bytes()
}

fn build_table(n: usize, block_size: usize) -> mini_lsm_starter::table::SsTable {
    let mut builder = SsTableBuilder::new(block_size);
    for i in 0..n {
        builder.add(&key_of(i), &value_of(i));
    }
    builder.build(7, 10)
}

#[test]
fn build_splits_blocks_and_keeps_every_entry() {
    let table = build_table(100, 128);
    assert!(table.num_of_blocks() > 1);
    assert_eq!(table.sst_id(), 7);
    let table = Arc::new(table);
    let mut iter = SsTableIterator::create_and_seek_to_first(table.clone()).ok().unwrap();
    for i in 0..100 {
        assert!(iter.is_valid());
        assert_eq!(iter.key(), key_of(i).as_slice());
        assert_eq!(iter.value(), value_of(i).as_slice());
        assert!(iter.next().is_ok());
    }
    assert!(!iter.is_valid());
    assert!(iter.next().is_ok());
    assert!(!iter.is_valid());
    assert!(iter.seek_to_first().is_ok());
    assert_eq!(iter.key(), key_of(0).as_slice());
}

#[test]
fn seek_to_key_lands_on_first_key_not_below() {
    let table = Arc::new(build_table(100, 128));
    let mut iter = SsTableIterator::create_and_seek_to_key(table.clone(), b"key_00012").ok().unwrap();
    assert_eq!(iter.key(), b"key_00015");
    for i in 0..100 {
        assert!(iter.seek_to_key(&key_of(i)).is_ok());
        assert_eq!(iter.key(), key_of(i).as_slice());
        assert_eq!(iter.value(), value_of(i).as_slice());
    }
    assert!(iter.seek_to_key(b"a").is_ok());
    assert_eq!(iter.key(), key_of(0).as_slice());
    assert!(iter.seek_to_key(b"key_99999").is_ok());
    assert!(!iter.is_valid());
    // between the last key of one block and the first of the next
    for i in 0..99 {
        let mut probe = key_of(i);
        probe.push(b'0');
        assert!(iter.seek_to_key(&probe).is_ok());
        assert_eq!(iter.key(), key_of(i + 1).as_slice());
    }
}

fn u32_bytes(n: u32) -> [u8; 4] {
    n.to_be_bytes()
}

#[test]
fn one_block_table_and_its_layout() {
    let mut builder = SsTableBuilder::new(4096);
    builder.add(b"a", b"1");
    builder.add(b"b", b"2");
    // both pairs are still in the block being filled
    assert_eq!(builder.estimated_size(), 0);
    let table = builder.build_for_test(10);
    assert_eq!(table.num_of_blocks(), 1);
    assert_eq!(table.sst_id(), 0);
    assert_eq!(table.first_key(), b"a");
    assert_eq!(table.last_key(), b"b");
    let block = table.read_block(0);
    // block: entry "a"/"1", entry "b"/"2" (no shared prefix), offsets, count
    let mut block_bytes: Vec<u8> = vec![0, 0, 0, 1, b'a', 0, 1, b'1', 0, 0, 0, 1, b'b', 0, 1, b'2'];
    assert_eq!(block.data, block_bytes);
    block_bytes.extend_from_slice(&[0, 0, 0, 8, 0, 2]);
    let mut expected = block_bytes.clone();
    expected.extend_from_slice(&u32_bytes(crc32fast::hash(&block_bytes)));
    let meta_offset = expected.len();
    // meta section: count, offset, first key, last key, checksum
    let meta: Vec<u8> = vec![0, 0, 0, 1, 0, 0, 0, 0, 0, 1, b'a', 0, 1, b'b'];
    expected.extend_from_slice(&meta);
    expected.extend_from_slice(&u32_bytes(crc32fast::hash(&meta)));
    expected.extend_from_slice(&u32_bytes(meta_offset as u32));
    let bloom_offset = expected.len();
    // bloom section: 64 bits, 6 probes per key, checksum
    let hashes = [farmhash::fingerprint32(b"a"), farmhash::fingerprint32(b"b")];
    let bloom = Bloom::build_from_key_hashes(&hashes, 10);
    assert_eq!(bloom.k, 6);
    assert_eq!(bloom.filter.len(), 8);
    let mut section = bloom.filter.clone();
    section.push(6);
    expected.extend_from_slice(&section);
    expected.extend_from_slice(&u32_bytes(crc32fast::hash(&section)));
    expected.extend_from_slice(&u32_bytes(bloom_offset as u32));
    assert_eq!(table.file_bytes(), expected.as_slice());
    assert_eq!(table.last_key_of(0), b"b");
}

#[test]
fn estimated_size_counts_sealed_blocks() {
    let mut builder = SsTableBuilder::new(64);
    assert_eq!(builder.estimated_size(), 0);
    for i in 0..10 {
        builder.add(&key_of(i), &value_of(i));
    }
    let size = builder.estimated_size();
    assert!(size > 0);
    let table = builder.build(1, 10);
    // every block is stored with a four-byte checksum; the last one was not sealed yet
    let blocks: Vec<usize> = (0..table.num_of_blocks()).map(|i| table.read_block(i).encode().len() + 4).collect();
    let sealed: usize = blocks[..blocks.len() - 1].iter().sum();
    assert_eq!(sealed, size);
}

#[test]
fn a_pair_that_does_not_fit_opens_a_new_block() {
    let mut builder = SsTableBuilder::new(20);
    builder.add(b"a", b"1");
    builder.add(b"b", b"2");
    assert_eq!(builder.estimated_size(), 0);
    // a third one-byte pair does not fit: the two pairs are sealed, with their checksum
    builder.add(b"c", b"3");
    assert_eq!(builder.estimated_size(), 22 + 4);
    let table = builder.build(5, 10);
    assert_eq!(table.num_of_blocks(), 2);
    assert_eq!(table.read_block(1).data, vec![0u8, 0, 0, 1, b'c', 0, 1, b'3']);
}

#[test]
fn empty_builder_builds_empty_table() {
    let table = SsTableBuilder::new(64).build(3, 10);
    assert_eq!(table.num_of_blocks(), 0);
    let mut expected: Vec<u8> = vec![0, 0, 0, 0];
    expected.extend_from_slice(&u32_bytes(crc32fast::hash(&[0, 0, 0, 0])));
    expected.extend_from_slice(&[0, 0, 0, 0]);
    let section: Vec<u8> = vec![0, 0, 0, 0, 0, 0, 0, 0, 6];
    expected.extend_from_slice(&section);
    expected.extend_from_slice(&u32_bytes(crc32fast::hash(&section)));
    expected.extend_from_slice(&[0, 0, 0, 12]);
    assert_eq!(table.file_bytes(), expected.as_slice());
    assert!(table.first_key().is_empty());
}

#[test]
fn meta_encoding_layout() {
    let metas = vec![
        BlockMeta { offset: 0, first_key: b"a".to_vec(), last_key: b"bc".to_vec() },
        BlockMeta { offset: 300, first_key: b"d".to_vec(), last_key: b"e".to_vec() },
    ];
    let mut buf = vec![42u8];
    BlockMeta::encode_block_meta(&metas, &mut buf);
    let mut expected: Vec<u8> = vec![
        42, 0, 0, 0, 2, 0, 0, 0, 0, 0, 1, b'a', 0, 2, b'b', b'c', 0, 0, 1, 44, 0, 1, b'd', 0, 1,
        b'e',
    ];
    let checksum = crc32fast::hash(&expected[1..]);
    expected.extend_from_slice(&u32_bytes(checksum));
    assert_eq!(buf, expected);
}

#[test]
fn bloom_sets_the_probed_bits() {
    // 1 << 17 rotated left by 15 is 1: the probes are 131072, 131073, .., all 0 to 5 modulo 64
    let bloom = Bloom::build_from_key_hashes(&[1u32 << 17], 10);
    assert_eq!(bloom.k, 6);
    assert_eq!(bloom.filter, vec![0b0011_1111u8, 0, 0, 0, 0, 0, 0, 0]);
    // 0 never moves: one bit
    let bloom = Bloom::build_from_key_hashes(&[0], 10);
    assert_eq!(bloom.filter, vec![1u8, 0, 0, 0, 0, 0, 0, 0]);
    // one probe per key at one bit per key; 100 keys take 100 bits, rounded up to 104
    let hashes: Vec<u32> = (0..100u32).map(|i| i * 2).collect();
    let bloom = Bloom::build_from_key_hashes(&hashes, 1);
    assert_eq!(bloom.k, 1);
    assert_eq!(bloom.filter.len(), 13);
    for p in 0..104usize {
        let set = bloom.filter[p / 8] >> (p % 8) & 1 == 1;
        assert_eq!(set, p % 2 == 0 && p < 104, "bit {}", p);
    }
    // many bits per key: at most 30 probes
    let bloom = Bloom::build_from_key_hashes(&[5], 1000);
    assert_eq!(bloom.k, 30);
    assert_eq!(bloom.filter.len(), 125);
}

#[test]
fn bloom_encoding_layout() {
    let bloom = Bloom { filter: vec![1, 2, 3], k: 4 };
    let mut buf = vec![9u8];
    bloom.encode(&mut buf);
    let mut expected: Vec<u8> = vec![9, 1, 2, 3, 4];
    expected.extend_from_slice(&u32_bytes(crc32fast::hash(&[1, 2, 3, 4])));
    assert_eq!(buf, expected);
}

#[test]
fn fingerprints_come_from_farmhash() {
    assert_eq!(key_fingerprint(b"hello world"), 430397466);
    assert_eq!(key_fingerprint(b"k"), farmhash::fingerprint32(b"k"));
}

#[test]
fn largest_entries_each_take_a_block_and_read_back() {
    let mut builder = SsTableBuilder::new(65536);
    let mut keys = Vec::new();
    for i in 0..3u8 {
        let mut k = vec![b'k'; 65530];
        k.push(b'a' + i);
        keys.push(k);
    }
    let value = vec![7u8; 65535];
    for k in &keys {
        builder.add(k, &value);
    }
    let table = Arc::new(builder.build(2, 10));
    assert_eq!(table.num_of_blocks(), 3);
    let mut iter = SsTableIterator::create_and_seek_to_first(table).ok().unwrap();
    for k in &keys {
        assert_eq!(iter.key(), k.as_slice());
        assert_eq!(iter.value(), value.as_slice());
        assert!(iter.next().is_ok());
    }
    assert!(!iter.is_valid());
}

#[test]
fn bloom_has_no_false_negatives() {
    let hashes: Vec<u32> = (0..50).map(|i| key_fingerprint(&key_of(i))).collect();
    let bloom = Bloom::build_from_key_hashes(&hashes, 10);
    let nbits = bloom.filter.len() * 8;
    assert_eq!(nbits, 504);
    for h in hashes {
        let delta = h.rotate_left(15);
        let mut probe = h;
        for _ in 0..bloom.k {
            let p = (probe as usize) % nbits;
            assert_eq!(bloom.filter[p / 8] >> (p % 8) & 1, 1);
            probe = probe.wrapping_add(delta);
        }
    }
}
