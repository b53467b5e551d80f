//! An iterator over the contents of an SSTable.
use std::sync::Arc;
use vstd::prelude::*;
use crate::block::iterator::first_at_or_after;
use crate::block::BlockIterator;
use crate::format::Entry;
use crate::iterators::{StorageError, StorageIterator};
use crate::key::{keys_increasing, key_less, key_lt, lemma_key_lt_transitive};
use super::{flat_start, flatten, lemma_flat_start_bounds, lemma_flatten_index, SsTable};

verus! {

/// No key is empty: an empty key is what an exhausted iterator shows.
pub open spec fn keys_nonempty(es: Seq<Entry>) -> bool {
    forall|i: int| 0 <= i < es.len() ==> (#[trigger] es[i]).0.len() > 0
}

/// A table that an iterator can walk: consistent, with at least one block and no empty key.
pub open spec fn walkable(t: SsTable) -> bool {
    &&& t.wf()
    &&& t.blocks().len() > 0
    &&& keys_nonempty(t.entries())
}

/// An iterator over the contents of an SSTable.
pub struct SsTableIterator {
    table: Arc<SsTable>,
    blk_iter: BlockIterator,
    blk_idx: usize,
}

/// The first block whose last key is not below `key`, or the number of blocks where there is
/// none, found by binary search over the index.
fn search_block(table: &SsTable, key: &[u8]) -> (idx: usize)
    requires
        walkable(*table),
    ensures
        idx <= table.blocks().len(),
        idx == 0 || key_lt(table.blocks()[idx - 1].last().0, key@),
        idx == table.blocks().len() || !key_lt(table.blocks()[idx as int].last().0, key@),
{
    let n = table.num_of_blocks();
    let mut lo: usize = 0;
    let mut hi: usize = n;
    while lo < hi
        invariant
            walkable(*table),
            n == table.blocks().len(),
            lo <= hi <= n,
            lo == 0 || key_lt(table.blocks()[lo - 1].last().0, key@),
            hi == n || !key_lt(table.blocks()[hi as int].last().0, key@),
        decreases hi - lo,
    {
        let mid = lo + (hi - lo) / 2;
        let last = table.last_key_of(mid);
        if key_less(last, key) {
            lo = mid + 1;
        } else {
            hi = mid;
        }
    }
    lo
}

impl SsTableIterator {
    /// The table being walked.
    pub closed spec fn table_spec(&self) -> SsTable {
        *self.table
    }

    /// The position of the current entry among all entries of the table.
    pub closed spec fn pos(&self) -> int {
        flat_start(self.table.blocks(), self.blk_idx as int) + self.blk_iter.pos()
    }

    /// The block iterator walks the current block, and only the last block is ever exhausted.
    pub closed spec fn wf(&self) -> bool {
        let bs = self.table.blocks();
        &&& walkable(*self.table)
        &&& self.blk_idx < bs.len()
        &&& self.blk_iter.wf()
        &&& self.blk_iter.block_spec().entries() == Some(bs[self.blk_idx as int])
        &&& self.blk_iter.pos() == bs[self.blk_idx as int].len() ==> self.blk_idx == bs.len() - 1
    }

    proof fn lemma_wf(&self)
        requires
            self.wf(),
        ensures
            0 <= self.pos() <= self.table_spec().entries().len(),
            self.blk_iter.current_key().len() > 0 <==> self.pos() < self.table_spec().entries().len(),
            self.pos() < self.table_spec().entries().len() ==> self.table_spec().entries()[self.pos()]
                == self.blk_iter.entries()[self.blk_iter.pos()],
    {
        let bs = self.table.blocks();
        let i = self.blk_idx as int;
        self.blk_iter.lemma_pos_bound();
        lemma_flatten_index(bs, i);
        lemma_flat_start_bounds(bs, i + 1, bs.len() as int);
        lemma_flat_start_bounds(bs, 0, i);
        let p = self.blk_iter.pos();
        if p < bs[i].len() {
            assert(bs[i][p] == flatten(bs)[flat_start(bs, i) + p]);
            assert(flatten(bs)[flat_start(bs, i) + p].0.len() > 0);
        } else {
            assert(i == bs.len() - 1);
        }
    }

    /// Create a new iterator and seek to the first key-value pair in the first data block.
    pub fn create_and_seek_to_first(table: Arc<SsTable>) -> (r: Result<Self, StorageError>)
        requires
            walkable(*table),
        ensures
            r matches Ok(it) && it.inv() && it.table_spec() == *table && it.pos() == 0
                && it.remaining() == table.entries(),
    {
        let blk_iter = BlockIterator::create_and_seek_to_first(table.read_block(0));
        let it = Self { table, blk_iter, blk_idx: 0 };
        proof {
            lemma_flat_start_bounds(it.table.blocks(), 0, 0);
            it.lemma_wf();
            assert(it.remaining() =~= it.table.entries());
        }
        Ok(it)
    }

    /// Seek to the first key-value pair in the first data block.
    pub fn seek_to_first(&mut self) -> (r: Result<(), StorageError>)
        requires
            old(self).inv(),
        ensures
            r is Ok,
            final(self).inv(),
            final(self).table_spec() == old(self).table_spec(),
            final(self).pos() == 0,
    {
        let blk_iter = BlockIterator::create_and_seek_to_first(self.table.read_block(0));
        self.blk_iter = blk_iter;
        self.blk_idx = 0;
        proof {
            lemma_flat_start_bounds(self.table.blocks(), 0, 0);
        }
        Ok(())
    }

    /// Positions the iterator at the first entry whose key is not below `key`.
    fn seek_within(&mut self, key: &[u8])
        requires
            walkable(*old(self).table),
            keys_increasing(old(self).table.entries()),
        ensures
            final(self).wf(),
            final(self).table == old(self).table,
            first_at_or_after(final(self).table.entries(), key@, final(self).pos()),
    {
        let ghost bs = self.table.blocks();
        let ghost es = flatten(bs);
        let found = search_block(&self.table, key);
        let n = self.table.num_of_blocks();
        let new_idx = if found == n { n - 1 } else { found };
        let mut blk_iter = BlockIterator::create_and_seek_to_first(self.table.read_block(new_idx));
        blk_iter.seek_to_key(key);
        self.blk_iter = blk_iter;
        self.blk_idx = new_idx;
        proof {
            let i = new_idx as int;
            let n = bs.len() as int;
            let b = bs[i];
            self.blk_iter.lemma_pos_bound();
            let p = self.blk_iter.pos();
            lemma_flatten_index(bs, i);
            lemma_flat_start_bounds(bs, 0, i);
            lemma_flat_start_bounds(bs, i + 1, n);
            let s = flat_start(bs, i);
            let last_i = flat_start(bs, i + 1) - 1;
            assert(es[last_i] == b[b.len() - 1]);
            // every entry before block i sorts below `key`
            assert forall|a: int| 0 <= a < s implies key_lt(#[trigger] es[a].0, key@) by {
                if found == n {
                    // the last key of the last block is below `key`, and so is all before it
                    assert(key_lt(es[a].0, es[last_i].0));
                    lemma_key_lt_transitive(es[a].0, es[last_i].0, key@);
                } else {
                    assert(i > 0);
                    self.table.lemma_blocks_nonempty();
                    assert(bs[i - 1].len() > 0);
                    lemma_flatten_index(bs, i - 1);
                    let last_prev = s - 1;
                    assert(es[last_prev] == bs[i - 1][bs[i - 1].len() - 1]);
                    if a < last_prev {
                        assert(key_lt(es[a].0, es[last_prev].0));
                        lemma_key_lt_transitive(es[a].0, es[last_prev].0, key@);
                    }
                }
            }
            // entries of block i before the seek position sort below `key`
            assert forall|a: int| 0 <= a < s + p implies key_lt(#[trigger] es[a].0, key@) by {
                if a >= s {
                    assert(es[a] == b[a - s]);
                }
            }
            if p == b.len() {
                // nothing in block i is at or after `key`, so block i is the last block
                assert(key_lt(b[b.len() - 1].0, key@));
                assert(i == n - 1);
            } else {
                assert(es[s + p] == b[p]);
            }
        }
    }

    /// Create a new iterator and seek to the first key-value pair which >= `key`.
    pub fn create_and_seek_to_key(table: Arc<SsTable>, key: &[u8]) -> (r: Result<Self, StorageError>)
        requires
            walkable(*table),
            keys_increasing(table.entries()),
        ensures
            r matches Ok(it) && it.inv() && it.table_spec() == *table && first_at_or_after(
                table.entries(),
                key@,
                it.pos(),
            ) && it.remaining() == table.entries().skip(it.pos()),
    {
        let mut it = Self::create_and_seek_to_first(table)?;
        it.seek_within(key);
        Ok(it)
    }

    /// Seek to the first key-value pair which >= `key`.
    pub fn seek_to_key(&mut self, key: &[u8]) -> (r: Result<(), StorageError>)
        requires
            old(self).inv(),
            keys_increasing(old(self).table_spec().entries()),
        ensures
            r is Ok,
            final(self).inv(),
            final(self).table_spec() == old(self).table_spec(),
            first_at_or_after(final(self).table_spec().entries(), key@, final(self).pos()),
    {
        self.seek_within(key);
        Ok(())
    }
}

impl StorageIterator for SsTableIterator {
    open spec fn inv(&self) -> bool {
        self.wf()
    }

    open spec fn remaining(&self) -> Seq<Entry> {
        self.table_spec().entries().skip(self.pos())
    }

    open spec fn never_fails(&self) -> bool {
        true
    }

    /// Return the `value` that's held by the underlying block iterator.
    fn value(&self) -> (v: &[u8]) {
        proof {
            self.lemma_wf();
        }
        self.blk_iter.value()
    }

    /// Return the `key` that's held by the underlying block iterator.
    fn key(&self) -> (k: &[u8]) {
        proof {
            self.lemma_wf();
        }
        self.blk_iter.key()
    }

    /// Return whether the current block iterator is valid or not.
    fn is_valid(&self) -> (r: bool) {
        proof {
            self.lemma_wf();
        }
        self.blk_iter.is_valid()
    }

    /// Move to the next `key` in the block; moves on to the next block once this one is done.
    fn next(&mut self) -> (r: Result<(), StorageError>)
        ensures
            r is Ok,
    {
        proof {
            self.lemma_wf();
            self.blk_iter.lemma_pos_bound();
            lemma_flatten_index(self.table.blocks(), self.blk_idx as int);
        }
        let ghost old_pos = self.pos();
        let ghost es = self.table.entries();
        self.blk_iter.next();
        if self.blk_iter.is_valid() {
            proof {
                self.lemma_wf();
                assert(es.skip(old_pos).skip(1) =~= es.skip(old_pos + 1));
            }
            return Ok(());
        }
        let num_blocks = self.table.num_of_blocks();
        if self.blk_idx + 1 >= num_blocks {
            proof {
                self.blk_iter.lemma_pos_bound();
                lemma_flat_start_bounds(self.table.blocks(), self.blk_idx as int + 1, self.table.blocks().len() as int);
                self.lemma_wf();
            }
            return Ok(());
        }
        let next_block = self.table.read_block(self.blk_idx + 1);
        let blk_iter = BlockIterator::create_and_seek_to_first(next_block);
        if !blk_iter.is_valid() {
            proof {
                let bs = self.table.blocks();
                lemma_flatten_index(bs, self.blk_idx + 1);
                assert(bs[self.blk_idx + 1][0] == flatten(bs)[flat_start(bs, self.blk_idx + 1)]);
            }
            return Ok(());
        }
        self.blk_iter = blk_iter;
        self.blk_idx = self.blk_idx + 1;
        proof {
            assert(es.skip(old_pos).skip(1) =~= es.skip(old_pos + 1));
        }
        Ok(())
    }
}

} // verus!
