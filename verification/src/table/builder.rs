//! Builds an SSTable from key-value pairs.
use vstd::prelude::*;
use crate::block::{block_fits, lemma_block_fits_when_small, BlockBuilder};
use crate::block::builder::{entry_fits, size_estimate};
use crate::codec::{bytes_as_slice, crc32_hash, put_slice, put_u32};
use crate::format::Entry;
use crate::key::{keys_increasing, key_lt, lemma_key_lt_trichotomy};
use super::bloom::{bloom_k, bloom_nbits, fingerprint32_of, is_bloom_of, key_fingerprint, Bloom};
use super::{
    block_start, blocks_bytes, describes_block, encoded_block, flat_start, flatten,
    lemma_block_bytes, lemma_blocks_bytes_push, lemma_flat_start_bounds,
    lemma_flatten_index, meta_section, readable_block, table_layout, BlockMeta, SsTable,
};

verus! {

/// How the builder splits `es` into blocks: each entry joins the last block while the block
/// still takes it (see `entry_fits`), and starts a new block otherwise.
pub open spec fn partition(es: Seq<Entry>, block_size: int) -> Seq<Seq<Entry>>
    decreases es.len(),
{
    if es.len() == 0 {
        seq![]
    } else {
        let p = partition(es.drop_last(), block_size);
        let e = es.last();
        if p.len() > 0 && entry_fits(p.last(), block_size, e.0, e.1) {
            p.update(p.len() - 1, p.last().push(e))
        } else {
            p.push(seq![e])
        }
    }
}

/// Splitting entries into blocks keeps every entry, in order, and makes no empty block.
pub proof fn lemma_partition(es: Seq<Entry>, block_size: int)
    ensures
        flatten(partition(es, block_size)) == es,
        forall|i: int|
            0 <= i < partition(es, block_size).len() ==> (#[trigger] partition(es, block_size)[i]).len() > 0,
        (es.len() == 0) == (partition(es, block_size).len() == 0),
    decreases es.len(),
{
    if es.len() > 0 {
        let init = es.drop_last();
        let p = partition(init, block_size);
        let e = es.last();
        lemma_partition(init, block_size);
        let q = partition(es, block_size);
        if p.len() > 0 && entry_fits(p.last(), block_size, e.0, e.1) {
            assert(q.drop_last() =~= p.drop_last());
            assert(flatten(p) == flatten(p.drop_last()) + p.last());
            assert(flatten(q) =~= flatten(p) + seq![e]);
        } else {
            assert(q.drop_last() =~= p);
            assert(flatten(q) =~= flatten(p) + seq![e]);
        }
        assert(es =~= init + seq![e]);
    }
}

/// Every key and every value takes at most 65535 bytes.
pub open spec fn entries_small(es: Seq<Entry>) -> bool {
    forall|i: int| 0 <= i < es.len() ==> (#[trigger] es[i]).0.len() <= 65535 && es[i].1.len() <= 65535
}

/// A block the builder made: not empty, of small entries, and all but its last entry were
/// within the target size by the builder's estimate.
spec fn grown_within(b: Seq<Entry>, block_size: int) -> bool {
    &&& b.len() > 0
    &&& entries_small(b)
    &&& b.len() >= 2 ==> size_estimate(b.drop_last()) + 6 <= block_size
}

proof fn lemma_partition_grown(es: Seq<Entry>, block_size: int)
    requires
        entries_small(es),
    ensures
        forall|i: int|
            0 <= i < partition(es, block_size).len() ==> #[trigger] grown_within(
                partition(es, block_size)[i],
                block_size,
            ),
    decreases es.len(),
{
    if es.len() > 0 {
        let init = es.drop_last();
        let e = es.last();
        assert(entries_small(init)) by {
            assert forall|i: int| 0 <= i < init.len() implies (#[trigger] init[i]).0.len() <= 65535
                && init[i].1.len() <= 65535 by {
                assert(init[i] == es[i]);
            }
        }
        assert(e == es[es.len() - 1]);
        lemma_partition_grown(init, block_size);
        let p = partition(init, block_size);
        let q = partition(es, block_size);
        if p.len() > 0 && entry_fits(p.last(), block_size, e.0, e.1) {
            let b = p.last();
            assert(grown_within(p[p.len() - 1], block_size));
            let nb = b.push(e);
            assert(nb.drop_last() =~= b);
            assert(entries_small(nb)) by {
                assert forall|i: int| 0 <= i < nb.len() implies (#[trigger] nb[i]).0.len() <= 65535
                    && nb[i].1.len() <= 65535 by {
                    if i < b.len() {
                        assert(nb[i] == b[i]);
                    }
                }
            }
            assert forall|i: int| 0 <= i < q.len() implies #[trigger] grown_within(q[i], block_size) by {
                if i < q.len() - 1 {
                    assert(q[i] == p[i]);
                }
            }
        } else {
            assert(entries_small(seq![e]));
            assert forall|i: int| 0 <= i < q.len() implies #[trigger] grown_within(q[i], block_size) by {
                if i < q.len() - 1 {
                    assert(q[i] == p[i]);
                }
            }
        }
    }
}

/// With a target block size of at most 64 KiB, and keys and values of at most 65535 bytes, every
/// block the builder makes fits the block format, so the table reads back.
pub proof fn lemma_partition_fits(es: Seq<Entry>, block_size: int)
    requires
        block_size <= 65536,
        entries_small(es),
    ensures
        forall|i: int|
            0 <= i < partition(es, block_size).len() ==> #[trigger] block_fits(partition(es, block_size)[i]),
{
    lemma_partition_grown(es, block_size);
    assert forall|i: int| 0 <= i < partition(es, block_size).len() implies #[trigger] block_fits(
        partition(es, block_size)[i],
    ) by {
        let b = partition(es, block_size)[i];
        assert(grown_within(b, block_size));
        lemma_block_fits_when_small(b);
    }
}

/// The fingerprint of each key of `es`, in order.
pub open spec fn key_hashes_of(es: Seq<Entry>) -> Seq<u32> {
    Seq::new(es.len(), |i: int| fingerprint32_of(es[i].0))
}

/// The first key of `es`, or nothing where `es` is empty.
pub open spec fn first_key_of(es: Seq<Entry>) -> Seq<u8> {
    if es.len() > 0 {
        es[0].0
    } else {
        seq![]
    }
}

/// The last key of `es`, or nothing where `es` is empty.
pub open spec fn last_key_of(es: Seq<Entry>) -> Seq<u8> {
    if es.len() > 0 {
        es.last().0
    } else {
        seq![]
    }
}

/// Builds an SSTable from key-value pairs.
pub struct SsTableBuilder {
    builder: BlockBuilder,
    first_key: Vec<u8>,
    last_key: Vec<u8>,
    data: Vec<u8>,
    pub(crate) meta: Vec<BlockMeta>,
    block_size: usize,
    /// The fingerprint of every key added so far, for the bloom filter.
    key_hashes: Vec<u32>,
    /// Every entry added so far, in order.
    entries: Ghost<Seq<Entry>>,
}

impl View for SsTableBuilder {
    type V = Seq<Entry>;

    /// Every entry added so far, in order.
    closed spec fn view(&self) -> Seq<Entry> {
        self.entries@
    }
}

impl SsTableBuilder {
    /// The target block size this builder was made with.
    pub closed spec fn target_size(&self) -> usize {
        self.block_size
    }

    /// How the entries added so far fall into blocks.
    pub open spec fn blocks_spec(&self) -> Seq<Seq<Entry>> {
        partition(self@, self.target_size() as int)
    }

    /// The entries of the block being filled: the last block, or nothing before the first add.
    pub open spec fn current_block(&self) -> Seq<Entry> {
        let p = self.blocks_spec();
        if p.len() == 0 {
            seq![]
        } else {
            p.last()
        }
    }

    /// The blocks already sealed and encoded: all but the last block.
    pub open spec fn finished_blocks(&self) -> Seq<Seq<Entry>> {
        let p = self.blocks_spec();
        if p.len() == 0 {
            p
        } else {
            p.drop_last()
        }
    }

    /// The sealed blocks are encoded in `data` and described in `meta`; the block being filled
    /// is the last block of the partition, and `first_key`/`last_key` are its first and last keys;
    /// `key_hashes` holds the fingerprint of every key added.
    pub closed spec fn wf(&self) -> bool {
        let p = partition(self.entries@, self.block_size as int);
        let done = self.finished_blocks();
        &&& self.builder.wf()
        &&& self.builder.target_size() == self.block_size
        &&& self.data@ == blocks_bytes(done)
        &&& self.meta@.len() == done.len()
        &&& forall|i: int| 0 <= i < done.len() ==> #[trigger] describes_block(self.meta@[i], done, i)
        &&& self.key_hashes@ == key_hashes_of(self.entries@)
        &&& if p.len() == 0 {
            self.builder@.len() == 0
        } else {
            &&& self.builder@ == p.last()
            &&& self.first_key@ == p.last()[0].0
            &&& self.last_key@ == p.last().last().0
        }
    }

    /// The index of the sealed blocks.
    pub closed spec fn sealed_index(&self) -> Seq<BlockMeta> {
        self.meta@
    }

    /// While building, the index of the sealed blocks describes them, one entry per block: the
    /// first starts at 0 and each later one further on. Where the keys added rise, each block's
    /// first key is not above its last key, and its last key is below the next block's first.
    pub proof fn lemma_sealed_index(&self)
        requires
            self.wf(),
        ensures
            self.sealed_index().len() == self.finished_blocks().len(),
            forall|i: int|
                0 <= i < self.sealed_index().len() ==> #[trigger] describes_block(
                    self.sealed_index()[i],
                    self.finished_blocks(),
                    i,
                ),
            forall|i: int|
                0 <= i < self.sealed_index().len() ==> {
                    &&& (#[trigger] self.sealed_index()[i]).first_key@ == self.finished_blocks()[i][0].0
                    &&& self.sealed_index()[i].last_key@ == self.finished_blocks()[i].last().0
                    &&& self.sealed_index()[i].offset == block_start(self.finished_blocks(), i)
                },
            self.sealed_index().len() > 0 ==> self.sealed_index()[0].offset == 0,
            forall|i: int|
                0 <= i < self.sealed_index().len() - 1 ==> #[trigger] self.sealed_index()[i].offset
                    < self.sealed_index()[i + 1].offset,
            keys_increasing(self@) ==> forall|i: int|
                0 <= i < self.sealed_index().len() ==> !key_lt(
                    #[trigger] self.sealed_index()[i].last_key@,
                    self.sealed_index()[i].first_key@,
                ),
            keys_increasing(self@) ==> forall|i: int|
                0 <= i < self.sealed_index().len() - 1 ==> key_lt(
                    #[trigger] self.sealed_index()[i].last_key@,
                    self.sealed_index()[i + 1].first_key@,
                ),
    {
        let es = self.entries@;
        let p = partition(es, self.block_size as int);
        let done = self.finished_blocks();
        let idx = self.meta@;
        let n = idx.len() as int;
        lemma_partition(es, self.block_size as int);
        assert forall|i: int| 0 <= i < n implies done[i] == p[i] && p[i].len() > 0 by {
            assert(p.len() > 0);
        }
        assert forall|i: int| 0 <= i < n implies {
            &&& (#[trigger] idx[i]).first_key@ == done[i][0].0
            &&& idx[i].last_key@ == done[i].last().0
            &&& idx[i].offset == block_start(done, i)
        } by {
            assert(describes_block(idx[i], done, i));
        }
        if n > 0 {
            assert(describes_block(idx[0], done, 0));
            assert(done.take(0) =~= Seq::<Seq<Entry>>::empty());
        }
        assert forall|i: int| 0 <= i < n - 1 implies #[trigger] idx[i].offset < idx[i + 1].offset by {
            assert(describes_block(idx[i], done, i));
            assert(describes_block(idx[i + 1], done, i + 1));
            lemma_block_bytes(done, i);
        }
        if keys_increasing(es) {
            assert forall|i: int| 0 <= i < n implies !key_lt(
                #[trigger] idx[i].last_key@,
                idx[i].first_key@,
            ) by {
                assert(describes_block(idx[i], done, i));
                let b = p[i];
                lemma_flatten_index(p, i);
                lemma_flat_start_bounds(p, 0, i);
                let a = flat_start(p, i);
                assert(es[a + 0] == b[0]);
                assert(es[a + (b.len() - 1)] == b[b.len() - 1]);
                lemma_key_lt_trichotomy(b[0].0, b.last().0);
                if b.len() > 1 {
                    assert(key_lt(es[a].0, es[a + (b.len() - 1)].0));
                }
            }
            assert forall|i: int| 0 <= i < n - 1 implies key_lt(
                #[trigger] idx[i].last_key@,
                idx[i + 1].first_key@,
            ) by {
                assert(describes_block(idx[i], done, i));
                assert(describes_block(idx[i + 1], done, i + 1));
                let b = p[i];
                let c = p[i + 1];
                lemma_flatten_index(p, i);
                lemma_flatten_index(p, i + 1);
                lemma_flat_start_bounds(p, 0, i);
                let a = flat_start(p, i);
                let a2 = flat_start(p, i + 1);
                assert(es[a + (b.len() - 1)] == b[b.len() - 1]);
                assert(es[a2 + 0] == c[0]);
                assert(key_lt(es[a + (b.len() - 1)].0, es[a2].0));
            }
        }
    }

    /// Create a builder based on target block size.
    pub fn new(block_size: usize) -> (b: Self)
        ensures
            b.wf(),
            b@ == Seq::<Entry>::empty(),
            b.target_size() == block_size,
    {
        let builder = BlockBuilder::new(block_size);
        let b = Self {
            block_size,
            builder,
            first_key: Vec::new(),
            last_key: Vec::new(),
            data: Vec::new(),
            meta: Vec::new(),
            key_hashes: Vec::new(),
            entries: Ghost(Seq::empty()),
        };
        proof {
            assert(b.key_hashes@ =~= key_hashes_of(b.entries@));
        }
        b
    }

    /// Seals the block being filled: encodes it onto `data`, followed by its checksum, and
    /// records where it starts and the keys it begins and ends with.
    fn finish_block(&mut self)
        requires
            old(self).wf(),
            old(self).builder@.len() > 0,
        ensures
            final(self).builder.wf(),
            final(self).builder@.len() == 0,
            final(self).builder.target_size() == old(self).block_size,
            final(self).block_size == old(self).block_size,
            final(self).entries == old(self).entries,
            final(self).key_hashes == old(self).key_hashes,
            final(self).data@ == blocks_bytes(old(self).finished_blocks().push(old(self).builder@)),
            final(self).meta@.len() == old(self).meta@.len() + 1,
            forall|i: int|
                0 <= i <= old(self).meta@.len() ==> #[trigger] describes_block(
                    final(self).meta@[i],
                    old(self).finished_blocks().push(old(self).builder@),
                    i,
                ),
    {
        let ghost done = self.finished_blocks();
        let ghost cur = self.builder@;
        let ghost blocks = done.push(cur);
        let mut old_builder = BlockBuilder::new(self.block_size);
        std::mem::swap(&mut self.builder, &mut old_builder);
        let block = old_builder.build();
        let encoded = block.encode();
        let mut first_key: Vec<u8> = Vec::new();
        std::mem::swap(&mut self.first_key, &mut first_key);
        let mut last_key: Vec<u8> = Vec::new();
        std::mem::swap(&mut self.last_key, &mut last_key);
        let offset = self.data.len();
        self.meta.push(BlockMeta { offset, first_key, last_key });
        let encoded_bytes = bytes_as_slice(&encoded);
        self.data.extend_from_slice(encoded_bytes);
        let checksum = crc32_hash(encoded_bytes);
        put_u32(&mut self.data, checksum);
        proof {
            reveal(encoded_block);
            assert(blocks.drop_last() =~= done);
            assert(self.data@ =~= blocks_bytes(blocks));
            assert(blocks.take(done.len() as int) =~= done);
            assert forall|i: int| 0 <= i <= done.len() implies #[trigger] describes_block(
                self.meta@[i],
                blocks,
                i,
            ) by {
                if i < done.len() {
                    assert(describes_block(self.meta@[i], done, i));
                    assert(blocks.take(i) =~= done.take(i));
                    assert(blocks[i] == done[i]);
                }
            }
        }
    }

    /// Adds a key-value pair to SSTable.
    ///
    /// The pair goes into the block being filled while that block takes it; otherwise the block
    /// is sealed and the pair starts a new one.
    pub fn add(&mut self, key: &[u8], value: &[u8])
        requires
            old(self).wf(),
            size_estimate(old(self).current_block()) + key@.len() + value@.len() + 6 <= usize::MAX,
        ensures
            final(self).wf(),
            final(self)@ == old(self)@.push((key@, value@)),
            final(self).target_size() == old(self).target_size(),
            entry_fits(old(self).current_block(), old(self).target_size() as int, key@, value@) ==> {
                &&& final(self).finished_blocks() == old(self).finished_blocks()
                &&& final(self).current_block() == old(self).current_block().push((key@, value@))
            },
            !entry_fits(old(self).current_block(), old(self).target_size() as int, key@, value@) ==> {
                &&& final(self).finished_blocks() == old(self).finished_blocks().push(
                    old(self).current_block(),
                )
                &&& final(self).current_block() == seq![(key@, value@)]
            },
            blocks_bytes(final(self).finished_blocks()).len() >= blocks_bytes(
                old(self).finished_blocks(),
            ).len(),
    {
        let ghost es = self.entries@;
        let ghost e = (key@, value@);
        proof {
            let p = partition(es, self.block_size as int);
            if p.len() == 0 {
                assert(self.builder@.len() == 0);
            }
            assert(self.builder@ == self.current_block());
        }
        let fresh = self.builder.is_empty();
        let added = self.builder.add(key, value);
        if !added {
            self.finish_block();
            let again = self.builder.add(key, value);
            assert(again);
            self.first_key = vstd::slice::slice_to_vec(key);
        } else if fresh {
            self.first_key = vstd::slice::slice_to_vec(key);
        }
        self.last_key = vstd::slice::slice_to_vec(key);
        let h = key_fingerprint(key);
        self.key_hashes.push(h);
        self.entries = Ghost(es.push(e));
        proof {
            let p = partition(es, self.block_size as int);
            let q = partition(es.push(e), self.block_size as int);
            assert(es.push(e).drop_last() =~= es);
            assert(es.push(e).last() == e);
            assert(self.key_hashes@ =~= key_hashes_of(self.entries@));
            lemma_partition(es, self.block_size as int);
            if added {
                if p.len() > 0 {
                    assert(q.drop_last() =~= p.drop_last());
                    assert(q.last() == p.last().push(e));
                } else {
                    assert(q =~= seq![seq![e]]);
                    assert(q.drop_last() =~= Seq::<Seq<Entry>>::empty());
                }
            } else {
                assert(q.drop_last() =~= p);
                assert(p =~= p.drop_last().push(p.last()));
                lemma_blocks_bytes_push(p.drop_last(), p.last());
            }
            let done = self.finished_blocks();
            assert(done == q.drop_last());
            assert(self.builder.wf());
            assert(self.builder.target_size() == self.block_size);
            assert(self.data@ == blocks_bytes(done));
            assert(self.meta@.len() == done.len());
            assert(forall|i: int| 0 <= i < done.len() ==> #[trigger] describes_block(self.meta@[i], done, i));
            assert(self.builder@ == q.last());
            assert(self.first_key@ == q.last()[0].0);
            assert(self.last_key@ == q.last().last().0);
        }
    }

    /// The number of key-value pairs added so far.
    pub fn num_keys(&self) -> (n: usize)
        requires
            self.wf(),
        ensures
            n == self@.len(),
    {
        self.key_hashes.len()
    }

    /// Get the estimated size of the SSTable.
    ///
    /// Since the data blocks contain much more data than meta blocks, just return the size of data
    /// blocks here.
    pub fn estimated_size(&self) -> (n: usize)
        requires
            self.wf(),
        ensures
            n == blocks_bytes(self.finished_blocks()).len(),
    {
        self.data.len()
    }

    /// Builds the SSTable: seals the last block, then lays out the blocks, the meta section and
    /// where it starts, and a bloom filter over the key fingerprints, with `bits_per_key` bits
    /// per key, and where it starts.
    pub fn build(self, id: usize, bits_per_key: usize) -> (t: SsTable)
        requires
            self.wf(),
            self@.len() * bits_per_key + 64 <= usize::MAX,
        ensures
            t.blocks() == self.blocks_spec(),
            t.entries() == self@,
            t.bloom_spec() matches Some(b) && {
                &&& b.k == bloom_k(bits_per_key as int)
                &&& is_bloom_of(
                    b.filter@,
                    key_hashes_of(self@),
                    b.k as int,
                    bloom_nbits(self@.len() as int, bits_per_key as int),
                )
                &&& t.file_spec() == table_layout(t.blocks(), t.metas(), b.filter@, b.k)
            },
            forall|i: int| 0 <= i < t.blocks().len() ==> #[trigger] describes_block(t.metas()[i], t.blocks(), i),
            t.metas().len() == t.blocks().len(),
            forall|i: int|
                0 <= i < t.blocks().len() ==> {
                    &&& (#[trigger] t.metas()[i]).offset == block_start(t.blocks(), i)
                    &&& t.metas()[i].first_key@ == t.blocks()[i][0].0
                    &&& t.metas()[i].last_key@ == t.blocks()[i].last().0
                },
            (forall|i: int| 0 <= i < t.blocks().len() ==> #[trigger] block_fits(t.blocks()[i])) ==> t.wf(),
            t.sst_id_spec() == id,
            t.meta_offset_spec() == blocks_bytes(t.blocks()).len(),
            t.first_key_spec() == first_key_of(self@),
            t.last_key_spec() == last_key_of(self@),
    {
        let ghost p = partition(self.entries@, self.block_size as int);
        let ghost es = self.entries@;
        let mut this = self;
        if !this.builder.is_empty() {
            this.finish_block();
            proof {
                assert(p =~= p.drop_last().push(p.last()));
            }
        }
        proof {
            lemma_partition(this.entries@, this.block_size as int);
        }
        let mut buf: Vec<u8> = Vec::new();
        put_slice(&mut buf, this.data.as_slice());
        let meta_offset = buf.len();
        BlockMeta::encode_block_meta(this.meta.as_slice(), &mut buf);
        put_u32(&mut buf, meta_offset as u32);
        let bloom = Bloom::build_from_key_hashes(this.key_hashes.as_slice(), bits_per_key);
        let bloom_offset = buf.len();
        bloom.encode(&mut buf);
        put_u32(&mut buf, bloom_offset as u32);
        let n = this.meta.len();
        let first_key = if n > 0 { this.meta[0].first_key.clone() } else { Vec::new() };
        let last_key = if n > 0 { this.meta[n - 1].last_key.clone() } else { Vec::new() };
        proof {
            if n > 0 {
                assert(describes_block(this.meta@[0], p, 0));
                assert(describes_block(this.meta@[n - 1], p, n - 1));
                lemma_flat_start_bounds(p, 0, n as int);
                lemma_flatten_index(p, 0);
                lemma_flatten_index(p, n - 1);
                assert(p[0][0] == flatten(p)[flat_start(p, 0) + 0]);
                let last = p[n - 1];
                assert(last.last() == last[last.len() - 1]);
                assert(flatten(p)[flat_start(p, n - 1) + (last.len() - 1)] == last[last.len() - 1]);
            }
        }
        let t = SsTable {
            file: buf,
            block_meta: this.meta,
            block_meta_offset: meta_offset,
            id,
            first_key,
            last_key,
            bloom: Some(bloom),
            blocks: Ghost(p),
        };
        proof {
            assert forall|i: int| 0 <= i < p.len() implies {
                &&& (#[trigger] t.block_meta@[i]).offset == block_start(p, i)
                &&& t.block_meta@[i].first_key@ == p[i][0].0
                &&& t.block_meta@[i].last_key@ == p[i].last().0
            } by {
                assert(describes_block(t.block_meta@[i], p, i));
            }
            assert(t.file@ =~= table_layout(p, t.block_meta@, bloom.filter@, bloom.k));
            assert(t.file@.take(meta_offset as int) =~= blocks_bytes(p));
            if forall|i: int| 0 <= i < p.len() ==> #[trigger] block_fits(p[i]) {
                assert forall|i: int| 0 <= i < p.len() implies #[trigger] readable_block(p[i]) by {
                    assert(block_fits(p[i]));
                }
            }
        }
        t
    }

    /// Builds the SSTable with id 0: the table that `build(0, bits_per_key)` gives.
    pub fn build_for_test(self, bits_per_key: usize) -> (t: SsTable)
        requires
            self.wf(),
            self@.len() * bits_per_key + 64 <= usize::MAX,
        ensures
            t.blocks() == self.blocks_spec(),
            t.entries() == self@,
            t.bloom_spec() matches Some(b) && {
                &&& b.k == bloom_k(bits_per_key as int)
                &&& is_bloom_of(
                    b.filter@,
                    key_hashes_of(self@),
                    b.k as int,
                    bloom_nbits(self@.len() as int, bits_per_key as int),
                )
                &&& t.file_spec() == table_layout(t.blocks(), t.metas(), b.filter@, b.k)
            },
            forall|i: int| 0 <= i < t.blocks().len() ==> #[trigger] describes_block(t.metas()[i], t.blocks(), i),
            t.metas().len() == t.blocks().len(),
            forall|i: int|
                0 <= i < t.blocks().len() ==> {
                    &&& (#[trigger] t.metas()[i]).offset == block_start(t.blocks(), i)
                    &&& t.metas()[i].first_key@ == t.blocks()[i][0].0
                    &&& t.metas()[i].last_key@ == t.blocks()[i].last().0
                },
            (forall|i: int| 0 <= i < t.blocks().len() ==> #[trigger] block_fits(t.blocks()[i])) ==> t.wf(),
            t.sst_id_spec() == 0,
            t.meta_offset_spec() == blocks_bytes(t.blocks()).len(),
            t.first_key_spec() == first_key_of(self@),
            t.last_key_spec() == last_key_of(self@),
    {
        self.build(0, bits_per_key)
    }
}

} // verus!
