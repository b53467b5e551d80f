//! A sorted string table: encoded blocks back to back, then the block index, then a bloom filter
//! over the keys.
//!
//! Layout: `block_0 | .. | block_{n-1} | meta section | meta offset (u32) | bloom section |
//! bloom offset (u32)`. Each block is followed by the CRC-32 of its encoding (u32). The meta
//! section is `n (u32)` followed, for each block, by
//! `offset (u32) | first_key_len (u16) | first_key | last_key_len (u16) | last_key`, and then
//! by the CRC-32 of all that (u32). The offsets say where the meta and bloom sections start.
use std::sync::Arc;
use vstd::prelude::*;
use crate::block::{
    block_fits, block_layout, decodable, layout_well_formed, lemma_built_block_reads_back,
    lemma_decode_encode, stored_data, stored_offsets, Block,
};
use crate::codec::{be16_at, crc32_hash, crc32_of, put_slice, put_u16, put_u32, u16_be, u32_be};
use crate::format::lemma_be16_of_u16_be;
use bloom::{bloom_section, Bloom};
use crate::format::{entries_bytes, entry_offsets, parse_entries, Entry};

pub mod bloom;
pub mod builder;
pub mod iterator;

pub use builder::SsTableBuilder;
pub use iterator::SsTableIterator;

verus! {

/// Where a block sits in a table, and the keys it begins and ends with.
pub struct BlockMeta {
    /// Offset of this data block.
    pub offset: usize,
    /// The first key of the data block.
    pub first_key: Vec<u8>,
    /// The last key of the data block.
    pub last_key: Vec<u8>,
}

/// The encoded form of a block that holds `es`.
#[verifier::opaque]
pub open spec fn encoded_block(es: Seq<Entry>) -> Seq<u8> {
    block_layout(entries_bytes(es), entry_offsets(es))
}

/// A block as the data section stores it: its encoding, then the CRC-32 of the encoding.
pub open spec fn stored_block(es: Seq<Entry>) -> Seq<u8> {
    encoded_block(es) + u32_be(crc32_of(encoded_block(es)))
}

/// The data section of a table: its blocks, each encoded and followed by its checksum, back to
/// back.
pub open spec fn blocks_bytes(blocks: Seq<Seq<Entry>>) -> Seq<u8>
    decreases blocks.len(),
{
    if blocks.len() == 0 {
        seq![]
    } else {
        blocks_bytes(blocks.drop_last()) + stored_block(blocks.last())
    }
}

/// Where the `i`-th block starts in the data section.
pub open spec fn block_start(blocks: Seq<Seq<Entry>>, i: int) -> int {
    blocks_bytes(blocks.take(i)).len() as int
}

/// All entries of the blocks, in order.
pub open spec fn flatten(blocks: Seq<Seq<Entry>>) -> Seq<Entry>
    decreases blocks.len(),
{
    if blocks.len() == 0 {
        seq![]
    } else {
        flatten(blocks.drop_last()) + blocks.last()
    }
}

/// The bytes of one index entry.
pub open spec fn meta_entry_bytes(m: BlockMeta) -> Seq<u8> {
    u32_be(m.offset as u32) + u16_be(m.first_key@.len() as u16) + m.first_key@ + u16_be(
        m.last_key@.len() as u16,
    ) + m.last_key@
}

/// The index entries, back to back.
pub open spec fn metas_bytes(metas: Seq<BlockMeta>) -> Seq<u8>
    decreases metas.len(),
{
    if metas.len() == 0 {
        seq![]
    } else {
        metas_bytes(metas.drop_last()) + meta_entry_bytes(metas.last())
    }
}

/// The number of blocks, then their index entries.
pub open spec fn meta_body(metas: Seq<BlockMeta>) -> Seq<u8> {
    u32_be(metas.len() as u32) + metas_bytes(metas)
}

/// The meta section: the number of blocks and their index entries, then the CRC-32 of both.
pub open spec fn meta_section(metas: Seq<BlockMeta>) -> Seq<u8> {
    meta_body(metas) + u32_be(crc32_of(meta_body(metas)))
}

/// The bytes of a table: the data section, the meta section and where it starts, the bloom
/// section and where it starts.
pub open spec fn table_layout(blocks: Seq<Seq<Entry>>, metas: Seq<BlockMeta>, filter: Seq<u8>, k: u8) -> Seq<u8> {
    let data = blocks_bytes(blocks);
    let meta = meta_section(metas);
    data + meta + u32_be(data.len() as u32) + bloom_section(filter, k) + u32_be(
        (data.len() + meta.len() + 4) as u32,
    )
}

/// A block with at least one entry, that fits the block format.
pub open spec fn readable_block(es: Seq<Entry>) -> bool {
    es.len() > 0 && block_fits(es)
}

/// The index entry of the `i`-th block: where it starts, its first key and its last key.
pub open spec fn describes_block(m: BlockMeta, blocks: Seq<Seq<Entry>>, i: int) -> bool {
    &&& m.offset == block_start(blocks, i)
    &&& m.first_key@ == blocks[i][0].0
    &&& m.last_key@ == blocks[i].last().0
}

/// The big-endian `u32` that starts at `pos` in `s`.
pub open spec fn be32_at(s: Seq<u8>, pos: int) -> int {
    s[pos] as int * 16777216 + s[pos + 1] as int * 65536 + s[pos + 2] as int * 256 + s[pos + 3] as int
}

/// One entry of a block index as a reader gets it back: the block's offset, its first key and
/// its last key.
pub type IndexEntry = (int, Seq<u8>, Seq<u8>);

/// Reads `n` index entries from `pos` on; gives them and where the last one ends.
pub open spec fn parse_meta_entries(data: Seq<u8>, pos: int, n: nat) -> Option<(Seq<IndexEntry>, int)>
    decreases n,
{
    if n == 0 {
        Some((seq![], pos))
    } else if pos < 0 || pos + 6 > data.len() {
        None
    } else {
        let off = be32_at(data, pos);
        let fl = be16_at(data, pos + 4) as int;
        if pos + 8 + fl > data.len() {
            None
        } else {
            let ll = be16_at(data, pos + 6 + fl) as int;
            let end = pos + 8 + fl + ll;
            if end > data.len() {
                None
            } else {
                match parse_meta_entries(data, end, (n - 1) as nat) {
                    Some((rest, last_end)) => Some(
                        (
                            seq![(off, data.subrange(pos + 6, pos + 6 + fl), data.subrange(pos + 8 + fl, end))]
                                + rest,
                            last_end,
                        ),
                    ),
                    None => None,
                }
            }
        }
    }
}

/// The block index that a meta section holds: the count, that many entries, and a checksum that
/// matches them; `None` where the bytes are malformed or the checksum does not match.
pub open spec fn parse_meta_section(data: Seq<u8>) -> Option<Seq<IndexEntry>> {
    if data.len() < 4 {
        None
    } else {
        match parse_meta_entries(data, 4, be32_at(data, 0) as nat) {
            Some((es, end)) => if end + 4 == data.len() && be32_at(data, end) == crc32_of(data.take(end)) as int {
                Some(es)
            } else {
                None
            },
            None => None,
        }
    }
}

/// What a reader should get back from the index of `metas`: each block's offset, first key and
/// last key.
pub open spec fn index_entries(metas: Seq<BlockMeta>) -> Seq<IndexEntry> {
    Seq::new(metas.len(), |i: int| (metas[i].offset as int, metas[i].first_key@, metas[i].last_key@))
}

pub proof fn lemma_be32_of_u32_be(p: Seq<u8>, n: u32, q: Seq<u8>)
    ensures
        be32_at(p + u32_be(n) + q, p.len() as int) == n,
        (p + u32_be(n) + q).len() == p.len() + 4 + q.len(),
{
    let s = p + u32_be(n) + q;
    let pl = p.len() as int;
    assert(s[pl] == u32_be(n)[0]);
    assert(s[pl + 1] == u32_be(n)[1]);
    assert(s[pl + 2] == u32_be(n)[2]);
    assert(s[pl + 3] == u32_be(n)[3]);
    let x = n as int;
    assert(x / 16777216 < 256 && (x / 16777216) * 16777216 + ((x / 65536) % 256) * 65536
        + ((x / 256) % 256) * 256 + x % 256 == x) by (nonlinear_arith)
        requires
            0 <= x < 0x1_0000_0000,
    ;
}

/// The index entries of a run of blocks: the first one, then the rest.
proof fn lemma_metas_bytes_front(ms: Seq<BlockMeta>)
    requires
        ms.len() > 0,
    ensures
        metas_bytes(ms) == meta_entry_bytes(ms[0]) + metas_bytes(ms.skip(1)),
    decreases ms.len(),
{
    if ms.len() == 1 {
        assert(ms.drop_last() =~= Seq::<BlockMeta>::empty());
        assert(ms.skip(1) =~= Seq::<BlockMeta>::empty());
        assert(metas_bytes(ms.drop_last()) =~= Seq::<u8>::empty());
        assert(ms.last() == ms[0]);
        assert(metas_bytes(ms) =~= meta_entry_bytes(ms[0]));
    } else {
        lemma_metas_bytes_front(ms.drop_last());
        assert(ms.drop_last().skip(1) =~= ms.skip(1).drop_last());
        assert(ms.drop_last()[0] == ms[0]);
        assert(ms.skip(1).last() == ms.last());
        assert(metas_bytes(ms) =~= meta_entry_bytes(ms[0]) + metas_bytes(ms.skip(1)));
    }
}

/// Whether every index entry can be stored: its offset fits 32 bits and its keys 65535 bytes.
pub open spec fn metas_fit(ms: Seq<BlockMeta>) -> bool {
    forall|i: int|
        0 <= i < ms.len() ==> {
            &&& (#[trigger] ms[i]).offset < 0x1_0000_0000
            &&& ms[i].first_key@.len() <= 65535
            &&& ms[i].last_key@.len() <= 65535
        }
}

proof fn lemma_meta_entry_fields(p: Seq<u8>, m: BlockMeta, after: Seq<u8>)
    requires
        m.offset < 0x1_0000_0000,
        m.first_key@.len() <= 65535,
        m.last_key@.len() <= 65535,
    ensures
        ({
            let d = p + meta_entry_bytes(m) + after;
            let pl = p.len() as int;
            let fl = m.first_key@.len() as int;
            let ll = m.last_key@.len() as int;
            &&& meta_entry_bytes(m).len() == 8 + fl + ll
            &&& d.len() == pl + 8 + fl + ll + after.len()
            &&& be32_at(d, pl) == m.offset
            &&& be16_at(d, pl + 4) as int == fl
            &&& be16_at(d, pl + 6 + fl) as int == ll
            &&& d.subrange(pl + 6, pl + 6 + fl) == m.first_key@
            &&& d.subrange(pl + 8 + fl, pl + 8 + fl + ll) == m.last_key@
        }),
{
    let d = p + meta_entry_bytes(m) + after;
    let fk = m.first_key@;
    let lk = m.last_key@;
    let pl = p.len() as int;
    assert(d =~= p + u32_be(m.offset as u32) + (u16_be(fk.len() as u16) + fk + u16_be(lk.len() as u16) + lk + after));
    lemma_be32_of_u32_be(p, m.offset as u32, u16_be(fk.len() as u16) + fk + u16_be(lk.len() as u16) + lk + after);
    let p1 = p + u32_be(m.offset as u32);
    assert(d =~= p1 + u16_be(fk.len() as u16) + (fk + u16_be(lk.len() as u16) + lk + after));
    lemma_be16_of_u16_be(p1, fk.len() as u16, fk + u16_be(lk.len() as u16) + lk + after);
    let p2 = p1 + u16_be(fk.len() as u16) + fk;
    assert(d =~= p2 + u16_be(lk.len() as u16) + (lk + after));
    lemma_be16_of_u16_be(p2, lk.len() as u16, lk + after);
    assert(d.subrange(pl + 6, pl + 6 + fk.len()) =~= fk);
    assert(d.subrange(pl + 8 + fk.len(), pl + 8 + fk.len() + lk.len()) =~= lk);
}

#[verifier::rlimit(30)]
proof fn lemma_parse_meta_entries(p: Seq<u8>, ms: Seq<BlockMeta>, rest: Seq<u8>)
    requires
        metas_fit(ms),
    ensures
        parse_meta_entries(p + metas_bytes(ms) + rest, p.len() as int, ms.len()) == Some(
            (index_entries(ms), (p.len() + metas_bytes(ms).len()) as int),
        ),
    decreases ms.len(),
{
    let d = p + metas_bytes(ms) + rest;
    if ms.len() == 0 {
        assert(index_entries(ms) =~= Seq::<IndexEntry>::empty());
    } else {
        let m = ms[0];
        assert(m.offset < 0x1_0000_0000 && m.first_key@.len() <= 65535 && m.last_key@.len() <= 65535);
        lemma_metas_bytes_front(ms);
        let tail = ms.skip(1);
        let eb = meta_entry_bytes(m);
        let after = metas_bytes(tail) + rest;
        assert(d =~= p + eb + after);
        lemma_meta_entry_fields(p, m, after);
        assert(metas_fit(tail)) by {
            assert forall|i: int| 0 <= i < tail.len() implies {
                &&& (#[trigger] tail[i]).offset < 0x1_0000_0000
                &&& tail[i].first_key@.len() <= 65535
                &&& tail[i].last_key@.len() <= 65535
            } by {
                assert(tail[i] == ms[i + 1]);
                assert(ms[i + 1].offset < 0x1_0000_0000);
            }
        }
        lemma_parse_meta_entries(p + eb, tail, rest);
        assert((p + eb) + metas_bytes(tail) + rest =~= d);
        assert(index_entries(ms) =~= seq![(m.offset as int, m.first_key@, m.last_key@)] + index_entries(tail));
    }
}

/// A reader of the meta section gets back every block's offset, first key and last key, and the
/// checksum matches, wherever the offsets fit 32 bits and the keys 65535 bytes.
pub proof fn lemma_meta_section_reads_back(metas: Seq<BlockMeta>)
    requires
        metas.len() < 0x1_0000_0000,
        metas_fit(metas),
    ensures
        parse_meta_section(meta_section(metas)) == Some(index_entries(metas)),
{
    let body = meta_body(metas);
    let mb = metas_bytes(metas);
    let ck = u32_be(crc32_of(body));
    let d = meta_section(metas);
    assert(d =~= seq![] + u32_be(metas.len() as u32) + (mb + ck));
    lemma_be32_of_u32_be(seq![], metas.len() as u32, mb + ck);
    lemma_parse_meta_entries(u32_be(metas.len() as u32), metas, ck);
    assert(u32_be(metas.len() as u32) + mb + ck =~= d);
    let end: int = (4 + mb.len()) as int;
    assert(d =~= body + ck + seq![]);
    lemma_be32_of_u32_be(body, crc32_of(body), seq![]);
    assert(d.take(end) =~= body);
}

/// The index of a table's blocks, read back from its meta section, gives for every block where
/// it starts in the data section, its first key and its last key, wherever the offsets fit 32
/// bits and the keys 65535 bytes.
pub proof fn lemma_index_of_blocks_reads_back(blocks: Seq<Seq<Entry>>, metas: Seq<BlockMeta>)
    requires
        metas.len() == blocks.len(),
        metas.len() < 0x1_0000_0000,
        metas_fit(metas),
        forall|i: int| 0 <= i < blocks.len() ==> #[trigger] describes_block(metas[i], blocks, i),
    ensures
        parse_meta_section(meta_section(metas)) == Some(
            Seq::new(
                blocks.len(),
                |i: int| (block_start(blocks, i), blocks[i][0].0, blocks[i].last().0),
            ),
        ),
{
    lemma_meta_section_reads_back(metas);
    assert forall|i: int| 0 <= i < blocks.len() implies #[trigger] index_entries(metas)[i] == (
        block_start(blocks, i),
        blocks[i][0].0,
        blocks[i].last().0,
    ) by {
        assert(describes_block(metas[i], blocks, i));
    }
    assert(index_entries(metas) =~= Seq::new(
        blocks.len(),
        |i: int| (block_start(blocks, i), blocks[i][0].0, blocks[i].last().0),
    ));
}

impl BlockMeta {
    /// Encode block meta to a buffer: the number of blocks, each index entry, then the CRC-32
    /// of all of it.
    pub fn encode_block_meta(block_meta: &[BlockMeta], buf: &mut Vec<u8>)
        ensures
            final(buf)@ == old(buf)@ + meta_section(block_meta@),
    {
        let original_len = buf.len();
        let n = block_meta.len();
        put_u32(buf, n as u32);
        let ghost start = buf@;
        let mut i: usize = 0;
        while i < n
            invariant
                n == block_meta@.len(),
                i <= n,
                start == old(buf)@ + u32_be(n as u32),
                buf@ == start + metas_bytes(block_meta@.take(i as int)),
            decreases n - i,
        {
            let m = &block_meta[i];
            put_u32(buf, m.offset as u32);
            put_u16(buf, m.first_key.len() as u16);
            put_slice(buf, m.first_key.as_slice());
            put_u16(buf, m.last_key.len() as u16);
            put_slice(buf, m.last_key.as_slice());
            proof {
                let t = block_meta@.take(i + 1);
                assert(t.drop_last() =~= block_meta@.take(i as int));
                assert(t.last() == block_meta@[i as int]);
            }
            i = i + 1;
        }
        proof {
            assert(block_meta@.take(n as int) =~= block_meta@);
        }
        let end = buf.len();
        let checksum = crc32_hash(&buf.as_slice()[original_len..end]);
        proof {
            assert(buf@.subrange(original_len as int, end as int) =~= meta_body(block_meta@));
        }
        put_u32(buf, checksum);
        proof {
            assert(buf@ =~= old(buf)@ + meta_section(block_meta@));
        }
    }
}

/// An SSTable.
pub struct SsTable {
    /// The bytes of the table, as stored.
    pub(crate) file: Vec<u8>,
    /// The meta blocks that hold info for data blocks.
    pub(crate) block_meta: Vec<BlockMeta>,
    /// The offset that indicates the start point of meta blocks in `file`.
    pub(crate) block_meta_offset: usize,
    pub(crate) id: usize,
    pub(crate) first_key: Vec<u8>,
    pub(crate) last_key: Vec<u8>,
    pub(crate) bloom: Option<Bloom>,
    /// The entries of each block.
    pub(crate) blocks: Ghost<Seq<Seq<Entry>>>,
}

impl SsTable {
    /// The entries of each block, in order.
    pub closed spec fn blocks(&self) -> Seq<Seq<Entry>> {
        self.blocks@
    }

    /// The bytes of the table.
    pub closed spec fn file_spec(&self) -> Seq<u8> {
        self.file@
    }

    /// The index of the table.
    pub closed spec fn metas(&self) -> Seq<BlockMeta> {
        self.block_meta@
    }

    /// The table's bytes start with its encoded blocks, each of which fits the block format and
    /// holds at least one entry, and its index describes them.
    pub closed spec fn wf(&self) -> bool {
        let bs = self.blocks@;
        &&& self.block_meta@.len() == bs.len()
        &&& self.block_meta_offset == blocks_bytes(bs).len()
        &&& self.block_meta_offset <= self.file@.len()
        &&& self.file@.take(self.block_meta_offset as int) == blocks_bytes(bs)
        &&& forall|i: int| 0 <= i < bs.len() ==> #[trigger] readable_block(bs[i])
        &&& forall|i: int| 0 <= i < bs.len() ==> #[trigger] describes_block(self.block_meta@[i], bs, i)
    }

    /// All entries of the table, in order.
    pub open spec fn entries(&self) -> Seq<Entry> {
        flatten(self.blocks())
    }

    /// Where the `i`-th block ends: where the next one starts, or where the index starts.
    pub closed spec fn block_end(&self, i: int) -> int {
        if i + 1 < self.block_meta@.len() {
            self.block_meta@[i + 1].offset as int
        } else {
            self.block_meta_offset as int
        }
    }

    /// Block `i` lies, encoded and followed by its checksum, between its index offset and its
    /// end.
    proof fn lemma_block_range(&self, i: int)
        requires
            self.wf(),
            0 <= i < self.blocks().len(),
        ensures
            self.block_meta@[i].offset + 4 <= self.block_end(i) <= self.file@.len(),
            self.file@.subrange(self.block_meta@[i].offset as int, self.block_end(i) - 4)
                == encoded_block(self.blocks@[i]),
            block_fits(self.blocks@[i]),
    {
        let bs = self.blocks@;
        lemma_block_bytes(bs, i);
        assert(describes_block(self.block_meta@[i], bs, i));
        assert(readable_block(bs[i]));
        if i + 1 < bs.len() {
            assert(describes_block(self.block_meta@[i + 1], bs, i + 1));
        } else {
            assert(bs.take(bs.len() as int) =~= bs);
        }
        let start = block_start(bs, i);
        let end = self.block_end(i);
        let enc = encoded_block(bs[i]);
        assert(self.file@.take(self.block_meta_offset as int).subrange(start, end)
            =~= self.file@.subrange(start, end));
        assert(self.file@.subrange(start, end - 4) =~= self.file@.subrange(start, end).subrange(
            0,
            enc.len() as int,
        ));
        assert(stored_block(bs[i]).subrange(0, enc.len() as int) =~= enc);
    }

    /// Every block of a consistent table holds at least one entry.
    pub proof fn lemma_blocks_nonempty(&self)
        requires
            self.wf(),
        ensures
            forall|i: int| 0 <= i < self.blocks().len() ==> (#[trigger] self.blocks()[i]).len() > 0,
    {
        assert forall|i: int| 0 <= i < self.blocks().len() implies (#[trigger] self.blocks()[i]).len() > 0 by {
            assert(readable_block(self.blocks@[i]));
        }
    }

    /// Returns the number of blocks.
    pub fn num_of_blocks(&self) -> (n: usize)
        requires
            self.wf(),
        ensures
            n == self.blocks().len(),
    {
        self.block_meta.len()
    }

    /// The last key of block `i`, as the index records it.
    pub fn last_key_of(&self, i: usize) -> (k: &[u8])
        requires
            self.wf(),
            i < self.blocks().len(),
        ensures
            k@ == self.blocks()[i as int].last().0,
    {
        proof {
            assert(describes_block(self.block_meta@[i as int], self.blocks@, i as int));
        }
        self.block_meta[i].last_key.as_slice()
    }

    /// The bytes of the table, as they go to disk.
    pub fn file_bytes(&self) -> (s: &[u8])
        ensures
            s@ == self.file_spec(),
    {
        self.file.as_slice()
    }

    /// The id of the table.
    pub closed spec fn sst_id_spec(&self) -> usize {
        self.id
    }

    /// The id of the table.
    pub fn sst_id(&self) -> (id: usize)
        ensures
            id == self.sst_id_spec(),
    {
        self.id
    }

    /// Where the meta section starts in the table's bytes.
    pub closed spec fn meta_offset_spec(&self) -> usize {
        self.block_meta_offset
    }

    /// The first key of the table.
    pub closed spec fn first_key_spec(&self) -> Seq<u8> {
        self.first_key@
    }

    /// The last key of the table.
    pub closed spec fn last_key_spec(&self) -> Seq<u8> {
        self.last_key@
    }

    /// The first key of the table.
    pub fn first_key(&self) -> (k: &[u8])
        ensures
            k@ == self.first_key_spec(),
    {
        self.first_key.as_slice()
    }

    /// The last key of the table.
    pub fn last_key(&self) -> (k: &[u8])
        ensures
            k@ == self.last_key_spec(),
    {
        self.last_key.as_slice()
    }

    /// The bloom filter of the table, if it has one.
    pub closed spec fn bloom_spec(&self) -> Option<Bloom> {
        self.bloom
    }

    /// Reads one block: cuts its bytes out of the table, leaves out the checksum that follows
    /// them, and decodes them.
    pub fn read_block(&self, block_idx: usize) -> (b: Arc<Block>)
        requires
            self.wf(),
            block_idx < self.blocks().len(),
        ensures
            b.well_formed(),
            b.entries() == Some(self.blocks()[block_idx as int]),
            self.blocks()[block_idx as int].len() > 0,
    {
        let n = self.block_meta.len();
        let start = self.block_meta[block_idx].offset;
        let end = if block_idx + 1 < n {
            self.block_meta[block_idx + 1].offset
        } else {
            self.block_meta_offset
        };
        proof {
            self.lemma_block_range(block_idx as int);
            assert(readable_block(self.blocks@[block_idx as int]));
        }
        let file = self.file.as_slice();
        let raw = &file[start..end - 4];
        proof {
            lemma_encoded_block_decodes(self.blocks@[block_idx as int]);
        }
        Arc::new(Block::decode(raw))
    }
}

/// The encoding of a block that fits the format decodes back to a well-formed block holding
/// the same entries.
pub proof fn lemma_encoded_block_decodes(es: Seq<Entry>)
    requires
        block_fits(es),
    ensures
        decodable(encoded_block(es)),
        stored_data(encoded_block(es)) == entries_bytes(es),
        stored_offsets(encoded_block(es)) == entry_offsets(es),
        layout_well_formed(entries_bytes(es), entry_offsets(es)),
        parse_entries(entries_bytes(es)) == Some(es),
{
    reveal(encoded_block);
    lemma_built_block_reads_back(es);
    lemma_decode_encode(entries_bytes(es), entry_offsets(es));
}

/// The data section up to block `i` holds the blocks before it, and block `i`, with its
/// checksum, sits between its start and the next block's start.
pub proof fn lemma_block_bytes(blocks: Seq<Seq<Entry>>, i: int)
    requires
        0 <= i < blocks.len(),
    ensures
        block_start(blocks, i) + stored_block(blocks[i]).len() == block_start(blocks, i + 1),
        block_start(blocks, i + 1) <= blocks_bytes(blocks).len(),
        blocks_bytes(blocks).subrange(block_start(blocks, i), block_start(blocks, i + 1))
            == stored_block(blocks[i]),
    decreases blocks.len(),
{
    let init = blocks.drop_last();
    assert(blocks.take(i + 1) =~= blocks.take(i).push(blocks[i]));
    assert(blocks.take(i + 1).drop_last() =~= blocks.take(i));
    if i + 1 == blocks.len() {
        assert(blocks.take(i + 1) =~= blocks);
        assert(blocks.take(i) =~= init);
    } else {
        lemma_block_bytes(init, i);
        assert(init.take(i) =~= blocks.take(i));
        assert(init.take(i + 1) =~= blocks.take(i + 1));
        assert(init[i] == blocks[i]);
    }
}

/// Sealing one more block appends it, with its checksum, to the data section: the data section
/// only grows.
pub proof fn lemma_blocks_bytes_push(blocks: Seq<Seq<Entry>>, b: Seq<Entry>)
    ensures
        blocks_bytes(blocks.push(b)) == blocks_bytes(blocks) + stored_block(b),
        blocks_bytes(blocks.push(b)).len() >= blocks_bytes(blocks).len(),
{
    assert(blocks.push(b).drop_last() =~= blocks);
}

/// Where the entries of block `i` start among all entries of the blocks.
pub open spec fn flat_start(blocks: Seq<Seq<Entry>>, i: int) -> int {
    flatten(blocks.take(i)).len() as int
}

/// Entry `j` of block `i` is entry `flat_start(blocks, i) + j` of all entries, and block `i`
/// ends where block `i + 1` starts.
pub proof fn lemma_flatten_index(blocks: Seq<Seq<Entry>>, i: int)
    requires
        0 <= i < blocks.len(),
    ensures
        flat_start(blocks, i) + blocks[i].len() == flat_start(blocks, i + 1),
        flat_start(blocks, i + 1) <= flatten(blocks).len(),
        forall|j: int|
            0 <= j < blocks[i].len() ==> flatten(blocks)[flat_start(blocks, i) + j] == #[trigger] blocks[i][j],
    decreases blocks.len(),
{
    let init = blocks.drop_last();
    assert(blocks.take(i + 1).drop_last() =~= blocks.take(i));
    assert(blocks.take(i + 1).last() == blocks[i]);
    if i + 1 == blocks.len() {
        assert(blocks.take(i + 1) =~= blocks);
    } else {
        lemma_flatten_index(init, i);
        assert(init.take(i) =~= blocks.take(i));
        assert(init.take(i + 1) =~= blocks.take(i + 1));
        assert(init[i] == blocks[i]);
    }
}

/// The blocks start at 0 and their starts rise to the number of entries.
pub proof fn lemma_flat_start_bounds(blocks: Seq<Seq<Entry>>, i: int, j: int)
    requires
        0 <= i <= j <= blocks.len(),
    ensures
        flat_start(blocks, 0) == 0,
        flat_start(blocks, i) <= flat_start(blocks, j),
        flat_start(blocks, blocks.len() as int) == flatten(blocks).len(),
    decreases j - i,
{
    assert(blocks.take(0) =~= Seq::<Seq<Entry>>::empty());
    assert(blocks.take(blocks.len() as int) =~= blocks);
    if i < j {
        lemma_flatten_index(blocks, j - 1);
        lemma_flat_start_bounds(blocks, i, j - 1);
    }
}

} // verus!
