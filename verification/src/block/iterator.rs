//! Iterates on a block.
use std::sync::Arc;
use vstd::prelude::*;
use crate::block::Block;
use crate::codec::read_u16;
use crate::format::{
    lemma_parse_entries_len, lemma_parse_entries_split, lemma_parse_later_from_step, parse_entry,
    parse_later_from, Entry,
};
use crate::key::{keys_increasing, key_less, key_lt, lemma_key_lt_transitive};

verus! {

/// `p` is the position of the first entry of `es` whose key is not below `key`, or the end of
/// `es` where there is none.
pub open spec fn first_at_or_after(es: Seq<Entry>, key: Seq<u8>, p: int) -> bool {
    &&& 0 <= p <= es.len()
    &&& forall|j: int| 0 <= j < p ==> key_lt(#[trigger] es[j].0, key)
    &&& p < es.len() ==> !key_lt(es[p].0, key)
}

/// Where keys strictly rise, the seek position is the smallest key not below `key`: every
/// entry from there on is at or after `key`, every entry before it below.
pub proof fn lemma_seek_in_sorted(es: Seq<Entry>, key: Seq<u8>, p: int)
    requires
        keys_increasing(es),
        first_at_or_after(es, key, p),
    ensures
        forall|j: int| p <= j < es.len() ==> !key_lt(#[trigger] es[j].0, key),
{
    assert forall|j: int| p <= j < es.len() implies !key_lt(#[trigger] es[j].0, key) by {
        if p < j && key_lt(es[j].0, key) {
            lemma_key_lt_transitive(es[p].0, es[j].0, key);
        }
    }
}

/// Iterates on a block.
pub struct BlockIterator {
    /// The internal `Block`, wrapped by an `Arc`
    block: Arc<Block>,
    /// The current key, empty represents the iterator is invalid
    key: Vec<u8>,
    /// the current value range in the block.data, corresponds to the current key
    value_range: (usize, usize),
    /// Current index of the key-value pair; the number of entries once the iterator is exhausted
    idx: usize,
    /// The first key in the block
    first_key: Vec<u8>,
}

/// Reads the entry at `pos`: its key, rebuilt from the `overlap` first bytes of `base` and the
/// stored rest, and where its value starts and ends.
fn decode_entry(data: &[u8], pos: usize, base: &[u8]) -> (r: (Vec<u8>, usize, usize))
    requires
        parse_entry(data@, pos as int, base@) is Some,
    ensures
        ({
            let (e, next) = parse_entry(data@, pos as int, base@)->0;
            &&& r.0@ == e.0
            &&& r.2 == next
            &&& 4 <= r.1 <= r.2 <= data@.len()
            &&& data@.subrange(r.1 as int, r.2 as int) == e.1
        }),
{
    let len = data.len();
    assert(len == data@.len());
    let overlap = read_u16(data, pos) as usize;
    let rest_len = read_u16(data, pos + 2) as usize;
    let mut key = vstd::slice::slice_to_vec(&base[0..overlap]);
    key.extend_from_slice(&data[pos + 4..pos + 4 + rest_len]);
    let value_len = read_u16(data, pos + 4 + rest_len) as usize;
    proof {
        let (entry, _) = parse_entry(data@, pos as int, base@)->0;
        assert(key@ =~= entry.0);
    }
    let start = pos + 6 + rest_len;
    (key, start, start + value_len)
}

impl BlockIterator {
    /// The iterator's fields agree with the entries of its block and its position.
    pub closed spec fn wf(&self) -> bool {
        let d = self.block.data@;
        let es = self.block.entries()->0;
        let (vs, ve) = self.value_range;
        &&& self.block.entries() is Some
        &&& self.idx <= es.len()
        &&& es.len() > 0 ==> self.first_key@ == es[0].0
        &&& if self.idx < es.len() {
            &&& self.key@ == es[self.idx as int].0
            &&& 4 <= vs <= ve <= d.len()
            &&& d.subrange(vs as int, ve as int) == es[self.idx as int].1
            &&& parse_later_from(d, ve as int, es[0].0) == Some(es.skip(self.idx + 1))
        } else {
            &&& self.key@.len() == 0
            &&& vs == 0
            &&& ve == 0
        }
    }

    /// The block this iterator walks.
    pub closed spec fn block_spec(&self) -> Block {
        *self.block
    }

    /// The entries of the block, in order.
    pub open spec fn entries(&self) -> Seq<Entry> {
        self.block_spec().entries()->0
    }

    /// The position of the current entry; the number of entries once the iterator is exhausted.
    pub closed spec fn pos(&self) -> int {
        self.idx as int
    }

    /// The key at the current position; empty once the iterator is exhausted.
    pub open spec fn current_key(&self) -> Seq<u8> {
        if self.pos() < self.entries().len() {
            self.entries()[self.pos()].0
        } else {
            seq![]
        }
    }

    /// A consistent iterator walks a block that reads back, and sits at one of its entries or
    /// just past the last.
    pub proof fn lemma_pos_bound(&self)
        requires
            self.wf(),
        ensures
            self.block_spec().entries() is Some,
            0 <= self.pos() <= self.entries().len(),
    {
    }

    /// An iterator that has read nothing yet.
    fn new(block: Arc<Block>) -> (it: Self)
        ensures
            it.block_spec() == *block,
            it.idx == 0,
            it.key@.len() == 0,
            it.value_range == (0usize, 0usize),
    {
        Self { block, key: Vec::new(), value_range: (0, 0), idx: 0, first_key: Vec::new() }
    }

    /// Creates a block iterator and seek to the first entry.
    pub fn create_and_seek_to_first(block: Arc<Block>) -> (it: Self)
        requires
            block.entries() matches Some(es) && es.len() > 0,
        ensures
            it.wf(),
            it.block_spec() == *block,
            it.pos() == 0,
    {
        let mut it = Self::new(block);
        it.seek_to_first();
        it
    }

    /// Creates a block iterator and seek to the first key that >= `key`.
    pub fn create_and_seek_to_key(block: Arc<Block>, key: &[u8]) -> (it: Self)
        requires
            block.entries() is Some,
        ensures
            it.wf(),
            it.block_spec() == *block,
            first_at_or_after(it.entries(), key@, it.pos()),
    {
        let mut it = Self::new(block);
        it.seek_to_key(key);
        it
    }

    /// Returns the key of the current entry.
    pub fn key(&self) -> (k: &[u8])
        requires
            self.wf(),
        ensures
            k@ == self.current_key(),
    {
        self.key.as_slice()
    }

    /// Returns the value of the current entry.
    pub fn value(&self) -> (v: &[u8])
        requires
            self.wf(),
        ensures
            self.pos() < self.entries().len() ==> v@ == self.entries()[self.pos()].1,
            self.pos() == self.entries().len() ==> v@.len() == 0,
    {
        let data = self.block.data.as_slice();
        &data[self.value_range.0..self.value_range.1]
    }

    /// Returns true if the iterator is valid.
    pub fn is_valid(&self) -> (r: bool)
        requires
            self.wf(),
        ensures
            r == (self.current_key().len() > 0),
    {
        !self.key.is_empty()
    }

    /// Seeks to the first key in the block.
    pub fn seek_to_first(&mut self)
        requires
            old(self).block_spec().entries() matches Some(es) && es.len() > 0,
        ensures
            final(self).wf(),
            final(self).block_spec() == old(self).block_spec(),
            final(self).pos() == 0,
    {
        let ghost es = self.block.entries()->0;
        let data = self.block.data.as_slice();
        proof {
            lemma_parse_entries_split(data@, es);
        }
        let no_base: Vec<u8> = Vec::new();
        let (key, start, end) = decode_entry(data, 0, no_base.as_slice());
        self.first_key = key.clone();
        proof {
            assert(self.first_key@ =~= key@);
        }
        self.key = key;
        self.value_range = (start, end);
        self.idx = 0;
    }

    /// Move to the next key in the block.
    pub fn next(&mut self)
        requires
            old(self).wf(),
        ensures
            final(self).wf(),
            final(self).block_spec() == old(self).block_spec(),
            final(self).pos() == if old(self).pos() < old(self).entries().len() {
                old(self).pos() + 1
            } else {
                old(self).pos()
            },
    {
        let ghost es = self.block.entries()->0;
        let next_key_len_offset = self.value_range.1;
        proof {
            lemma_parse_entries_len(self.block.data@, es);
        }
        if next_key_len_offset == 0 {
            // already past the last entry
            return;
        }
        let data = self.block.data.as_slice();
        proof {
            lemma_parse_later_from_step(data@, next_key_len_offset as int, es[0].0, es.skip(self.idx + 1));
        }
        if data.len() - next_key_len_offset < 2 {
            // out of entries: the iterator becomes invalid
            self.key = Vec::new();
            self.value_range = (0, 0);
            self.idx = self.idx + 1;
            return;
        }
        let (key, start, end) = decode_entry(data, next_key_len_offset, self.first_key.as_slice());
        proof {
            let rest = es.skip(self.idx + 1);
            assert(rest[0] == es[self.idx + 1]);
            assert(rest.skip(1) =~= es.skip(self.idx + 2));
        }
        self.key = key;
        self.idx = self.idx + 1;
        self.value_range = (start, end);
    }

    /// Seeks to the first key that is not below `key`, walking the entries in order: where the
    /// keys of the block rise, that is the smallest key at or after `key`.
    pub fn seek_to_key(&mut self, key: &[u8])
        requires
            old(self).block_spec().entries() is Some,
        ensures
            final(self).wf(),
            final(self).block_spec() == old(self).block_spec(),
            first_at_or_after(final(self).entries(), key@, final(self).pos()),
    {
        let ghost es = self.block.entries()->0;
        let data = self.block.data.as_slice();
        proof {
            lemma_parse_entries_split(data@, es);
            lemma_parse_entries_len(data@, es);
        }
        if data.len() == 0 {
            self.key = Vec::new();
            self.value_range = (0, 0);
            self.idx = 0;
            return;
        }
        let no_base: Vec<u8> = Vec::new();
        let (first, start0, end0) = decode_entry(data, 0, no_base.as_slice());
        let mut current_key = first.clone();
        proof {
            assert(current_key@ =~= first@);
        }
        let mut start = start0;
        let mut end = end0;
        let mut idx: usize = 0;
        while key_less(current_key.as_slice(), key)
            invariant
                self.block == old(self).block,
                data@ == self.block.data@,
                self.block.entries() == Some(es),
                es.len() <= data@.len(),
                es.len() > 0,
                first@ == es[0].0,
                idx < es.len(),
                current_key@ == es[idx as int].0,
                4 <= start <= end <= data@.len(),
                data@.subrange(start as int, end as int) == es[idx as int].1,
                parse_later_from(data@, end as int, es[0].0) == Some(es.skip(idx + 1)),
                forall|j: int| 0 <= j < idx ==> key_lt(#[trigger] es[j].0, key@),
            decreases es.len() - idx,
        {
            proof {
                lemma_parse_later_from_step(data@, end as int, es[0].0, es.skip(idx + 1));
            }
            if data.len() - end < 2 {
                // no key in the block is at or after `key`
                self.first_key = first;
                self.key = Vec::new();
                self.value_range = (0, 0);
                self.idx = idx + 1;
                return;
            }
            let (k, s, e) = decode_entry(data, end, first.as_slice());
            proof {
                let rest = es.skip(idx + 1);
                assert(rest[0] == es[idx + 1]);
                assert(rest.skip(1) =~= es.skip(idx + 2));
            }
            current_key = k;
            start = s;
            end = e;
            idx = idx + 1;
        }
        self.first_key = first;
        self.key = current_key;
        self.value_range = (start, end);
        self.idx = idx;
    }
}

} // verus!
