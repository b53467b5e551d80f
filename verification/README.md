# mini_lsm_starter

The table layer of a small LSM-tree storage engine, verified with Verus.

- `src/block.rs`, `src/block/`: a block of sorted key/value entries with prefix-compressed
  keys; its builder, its encoding and decoding, and an iterator over it.
- `src/format.rs`: the byte layout of the entries inside a block and how it reads back.
- `src/table.rs`, `src/table/`: a sorted string table made of checksummed blocks, an index of
  them and a bloom filter over the keys; its builder and an iterator over all of its entries.
- `src/iterators.rs`, `src/iterators/`: the iterator interface and the merge of several
  iterators, which keeps the entry of the first iterator on equal keys.
- `src/key.rs`: byte-string keys and their order. `src/codec.rs`: big-endian framing through
  the `bytes` crate, and CRC-32 checksums through `crc32fast`. Key fingerprints for the bloom
  filter come from `farmhash`.
- `app/`: sizing the bloom filter (a floating-point formula) and writing a built table to a
  file.
