//! Sorted-string-table building blocks of an LSM tree: blocks of prefix-compressed
//! key/value entries, the iterators that walk them, and the table that strings checksummed
//! blocks together with an index and a bloom filter.
pub mod codec;
pub mod key;
pub mod format;
pub mod block;
pub mod table;
pub mod iterators;
