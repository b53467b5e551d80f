//! A block: the smallest unit of reading and caching, a run of sorted key/value entries.
//!
//! Encoded layout: `data | offset_0 .. offset_{n-1} (u16 each) | n (u16)`.
use vstd::prelude::*;
use crate::format::{
    entries_bytes, entries_fit, entry_offsets, entry_start, lemma_entries_push,
    lemma_parse_entries_bytes, parse_entries, Entry,
};
use builder::{entry_fits, size_estimate};
use crate::codec::{
    be16_at, bytes_from_vec, bytes_view, lemma_u16_be_roundtrip, put_slice, put_u16, read_u16,
    u16_be,
};

pub mod builder;
pub mod iterator;

pub use builder::BlockBuilder;
pub use iterator::BlockIterator;

verus! {

/// A collection of sorted key-value pairs.
#[derive(Debug)]
pub struct Block {
    /// All encoded entries, back to back.
    pub data: Vec<u8>,
    /// Where each entry starts inside `data`.
    pub offsets: Vec<u16>,
}

/// The offset section: each offset as two big-endian bytes.
pub open spec fn offsets_bytes(offsets: Seq<u16>) -> Seq<u8>
    decreases offsets.len(),
{
    if offsets.len() == 0 {
        seq![]
    } else {
        offsets_bytes(offsets.drop_last()) + u16_be(offsets.last())
    }
}

/// The encoded form of a block with the given data and offset sections.
pub open spec fn block_layout(data: Seq<u8>, offsets: Seq<u16>) -> Seq<u8> {
    data + offsets_bytes(offsets) + u16_be(offsets.len() as u16)
}

/// The entry count stored in the last two bytes of an encoded block.
pub open spec fn stored_count(raw: Seq<u8>) -> int {
    be16_at(raw, raw.len() - 2) as int
}

/// Where the offset section of an encoded block starts.
pub open spec fn offsets_start(raw: Seq<u8>) -> int {
    raw.len() - 2 - 2 * stored_count(raw)
}

/// The offsets stored in an encoded block.
pub open spec fn stored_offsets(raw: Seq<u8>) -> Seq<u16> {
    Seq::new(stored_count(raw) as nat, |i: int| be16_at(raw, offsets_start(raw) + 2 * i))
}

/// The data section that decoding an encoded block keeps: everything before the offset section.
pub open spec fn stored_data(raw: Seq<u8>) -> Seq<u8> {
    raw.subrange(0, offsets_start(raw))
}

/// Sections whose encoding decodes back to them: the number of entries fits the trailing
/// `u16` count.
pub open spec fn layout_well_formed(data: Seq<u8>, offsets: Seq<u16>) -> bool {
    offsets.len() <= 65535
}

/// Bytes that `Block::decode` accepts: room for the trailing count and for the offsets it
/// announces.
pub open spec fn decodable(raw: Seq<u8>) -> bool {
    &&& raw.len() >= 2
    &&& 2 * stored_count(raw) + 2 <= raw.len()
}

impl Block {
    /// The entries this block holds, or `None` where its data is malformed.
    pub open spec fn entries(&self) -> Option<Seq<Entry>> {
        parse_entries(self.data@)
    }

    /// A block whose encoding decodes back to itself.
    pub open spec fn well_formed(&self) -> bool {
        layout_well_formed(self.data@, self.offsets@)
    }

    /// Encodes the block: the data section, each offset, then the number of entries.
    pub fn encode(&self) -> (b: bytes::Bytes)
        ensures
            bytes_view(b) == block_layout(self.data@, self.offsets@),
    {
        let mut buf: Vec<u8> = Vec::new();
        put_slice(&mut buf, self.data.as_slice());
        let mut i: usize = 0;
        while i < self.offsets.len()
            invariant
                i <= self.offsets@.len(),
                buf@ == self.data@ + offsets_bytes(self.offsets@.take(i as int)),
            decreases self.offsets@.len() - i,
        {
            proof {
                assert(self.offsets@.take(i + 1).drop_last() =~= self.offsets@.take(i as int));
            }
            put_u16(&mut buf, self.offsets[i]);
            i = i + 1;
        }
        proof {
            assert(self.offsets@.take(i as int) =~= self.offsets@);
        }
        let cnt = self.offsets.len();
        put_u16(&mut buf, cnt as u16);
        bytes_from_vec(buf)
    }

    /// Decodes an encoded block: reads the count from the end, then the offsets, and keeps
    /// everything before the offsets as the data section.
    pub fn decode(raw_data_bytes: &[u8]) -> (b: Self)
        requires
            decodable(raw_data_bytes@),
        ensures
            b.data@ == stored_data(raw_data_bytes@),
            b.offsets@ == stored_offsets(raw_data_bytes@),
    {
        let raw = raw_data_bytes;
        let len = raw.len();
        let item_cnt = read_u16(raw, len - 2);
        let start = len - 2 - (item_cnt as usize) * 2;
        let mut offsets: Vec<u16> = Vec::new();
        let mut i: usize = 0;
        while i < item_cnt as usize
            invariant
                len == raw@.len(),
                item_cnt == stored_count(raw@),
                start == offsets_start(raw@),
                decodable(raw@),
                i <= item_cnt,
                offsets@ == stored_offsets(raw@).take(i as int),
            decreases item_cnt - i,
        {
            let off = read_u16(raw, start + 2 * i);
            offsets.push(off);
            i = i + 1;
            proof {
                assert(offsets@ =~= stored_offsets(raw@).take(i as int));
            }
        }
        proof {
            assert(offsets@ =~= stored_offsets(raw@));
        }
        let data = vstd::slice::slice_to_vec(&raw[0..start]);
        Block { data, offsets }
    }
}

proof fn lemma_offsets_bytes(offsets: Seq<u16>)
    ensures
        offsets_bytes(offsets).len() == 2 * offsets.len(),
        forall|i: int|
            0 <= i < offsets.len() ==> be16_at(offsets_bytes(offsets), 2 * i) == #[trigger] offsets[i],
    decreases offsets.len(),
{
    if offsets.len() > 0 {
        let init = offsets.drop_last();
        lemma_offsets_bytes(init);
        let b = offsets_bytes(offsets);
        lemma_u16_be_roundtrip(offsets.last());
        assert forall|i: int| 0 <= i < offsets.len() implies be16_at(b, 2 * i) == #[trigger] offsets[i] by {
            if i < offsets.len() - 1 {
                assert(b[2 * i] == offsets_bytes(init)[2 * i]);
                assert(b[2 * i + 1] == offsets_bytes(init)[2 * i + 1]);
                assert(init[i] == offsets[i]);
            } else {
                assert(b[2 * i] == u16_be(offsets.last())[0]);
                assert(b[2 * i + 1] == u16_be(offsets.last())[1]);
            }
        }
    }
}

/// A block builder takes a pair exactly when it is empty, or when the encoding of the block so
/// far, together with the key, the value, their two length fields and the new offset, stays
/// within the target size, however many entries the block already holds.
pub proof fn lemma_entry_fits_by_encoded_size(es: Seq<Entry>, block_size: int, key: Seq<u8>, value: Seq<u8>)
    ensures
        entry_fits(es, block_size, key, value) <==> (es.len() == 0 || block_layout(
            entries_bytes(es),
            entry_offsets(es),
        ).len() + key.len() + value.len() + 6 <= block_size),
{
    lemma_offsets_bytes(entry_offsets(es));
}

/// Decoding the encoding of a well-formed block gives back its data and its offsets.
#[verifier::spinoff_prover]
#[verifier::rlimit(40)]
pub proof fn lemma_decode_encode(data: Seq<u8>, offsets: Seq<u16>)
    requires
        layout_well_formed(data, offsets),
    ensures
        decodable(block_layout(data, offsets)),
        stored_offsets(block_layout(data, offsets)) == offsets,
        stored_data(block_layout(data, offsets)) == data,
{
    let raw = block_layout(data, offsets);
    let n = offsets.len();
    let ob = offsets_bytes(offsets);
    lemma_offsets_bytes(offsets);
    lemma_u16_be_roundtrip(n as u16);
    assert(raw.len() == data.len() + 2 * n + 2);
    assert(raw[raw.len() - 2] == u16_be(n as u16)[0]);
    assert(raw[raw.len() - 1] == u16_be(n as u16)[1]);
    assert(stored_count(raw) == n);
    assert(offsets_start(raw) == data.len());
    assert forall|i: int| 0 <= i < n implies #[trigger] stored_offsets(raw)[i] == offsets[i] by {
        assert(raw[data.len() + 2 * i] == ob[2 * i]);
        assert(raw[data.len() + 2 * i + 1] == ob[2 * i + 1]);
        assert(be16_at(ob, 2 * i) == offsets[i]);
    }
    assert(stored_offsets(raw) =~= offsets);
    assert(raw.subrange(0, data.len() as int) =~= data);
}

/// The entries of a block fit its format: every stored length fits its field, their number
/// fits the trailing count, and every entry starts where a `u16` offset can point.
#[verifier::opaque]
pub open spec fn block_fits(es: Seq<Entry>) -> bool {
    &&& entries_fit(es)
    &&& es.len() <= 65535
    &&& es.len() > 0 ==> entry_start(es, es.len() - 1) <= 65535
}

proof fn lemma_entry_starts(es: Seq<Entry>, i: int)
    requires
        0 <= i < es.len(),
    ensures
        entry_start(es, 0) == 0,
        entry_start(es, i) + 4 <= entry_start(es, i + 1),
        entry_start(es, es.len() as int) == entries_bytes(es).len(),
{
    assert(es.take(0) =~= Seq::<Entry>::empty());
    assert(es.take(i + 1) =~= es.take(i).push(es[i]));
    lemma_entries_push(es.take(i), es[i]);
    assert(es.take(es.len() as int) =~= es);
}

proof fn lemma_entry_starts_ordered(es: Seq<Entry>, i: int, j: int)
    requires
        0 <= i <= j <= es.len(),
    ensures
        entry_start(es, i) <= entry_start(es, j),
    decreases j - i,
{
    if i < j {
        lemma_entry_starts(es, j - 1);
        lemma_entry_starts_ordered(es, i, j - 1);
    }
}

/// A block built from entries that fit its format is well-formed and reads back as exactly
/// those entries; its offsets start at 0, strictly rise, and each is where its entry starts.
pub proof fn lemma_built_block_reads_back(es: Seq<Entry>)
    requires
        block_fits(es),
    ensures
        layout_well_formed(entries_bytes(es), entry_offsets(es)),
        parse_entries(entries_bytes(es)) == Some(es),
        es.len() > 0 ==> entry_offsets(es)[0] == 0,
        forall|i: int| 0 <= i < es.len() ==> #[trigger] entry_offsets(es)[i] == entry_start(es, i),
        forall|i: int, j: int|
            0 <= i < j < es.len() ==> #[trigger] entry_offsets(es)[i] < #[trigger] entry_offsets(es)[j],
{
    reveal(block_fits);
    lemma_parse_entries_bytes(es);
    let n = es.len() as int;
    let o = entry_offsets(es);
    if n > 0 {
        lemma_entry_starts(es, 0);
        lemma_entry_starts(es, n - 1);
        assert forall|i: int| 0 <= i < n implies 0 <= #[trigger] entry_start(es, i) <= 65535 by {
            lemma_entry_starts_ordered(es, i, n - 1);
            lemma_entry_starts_ordered(es, 0, i);
        }
        assert forall|i: int| 0 <= i < n implies #[trigger] o[i] == entry_start(es, i) by {
            assert(0 <= entry_start(es, i) <= 65535);
        }
        assert forall|i: int, j: int| 0 <= i < j < n implies #[trigger] o[i] < #[trigger] o[j] by {
            assert(o[i] == entry_start(es, i));
            assert(o[j] == entry_start(es, j));
            lemma_entry_starts(es, i);
            lemma_entry_starts_ordered(es, i + 1, j);
        }
    }
}

proof fn lemma_entry_starts_grow(es: Seq<Entry>, i: int)
    requires
        0 <= i <= es.len(),
    ensures
        entry_start(es, i) >= 4 * i,
    decreases i,
{
    if i > 0 {
        lemma_entry_starts(es, i - 1);
        lemma_entry_starts_grow(es, i - 1);
    } else {
        assert(es.take(0) =~= Seq::<Entry>::empty());
    }
}

/// A block fits its format when its keys and values take at most 65535 bytes each and, if it
/// holds more than one entry, the builder's estimate for all but its last entry is at most
/// 65530 bytes.
pub proof fn lemma_block_fits_when_small(es: Seq<Entry>)
    requires
        es.len() > 0,
        forall|i: int| 0 <= i < es.len() ==> (#[trigger] es[i]).0.len() <= 65535 && es[i].1.len() <= 65535,
        es.len() >= 2 ==> size_estimate(es.drop_last()) + 6 <= 65536,
    ensures
        block_fits(es),
{
    reveal(block_fits);
    let n = es.len() as int;
    if n == 1 {
        lemma_entry_starts(es, 0);
    } else {
        let d = es.drop_last();
        assert(es.take(n - 1) =~= d);
        assert(d.take(n - 1) =~= d);
        lemma_entry_starts_grow(d, n - 1);
    }
}

} // verus!
