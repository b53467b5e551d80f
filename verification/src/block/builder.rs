//! Builds a block.
use vstd::prelude::*;
use crate::block::{block_layout, lemma_entry_fits_by_encoded_size, Block};
use crate::codec::{put_slice, put_u16};
use crate::format::{
    entries_bytes, entry_base, entry_bytes, entry_offsets, lemma_entries_push, Entry,
};
use crate::key::{compute_overlap, lemma_common_prefix};

verus! {

/// Builds a block.
pub struct BlockBuilder {
    /// Offsets of each key-value entries.
    offsets: Vec<u16>,
    /// All serialized key-value pairs in the block.
    data: Vec<u8>,
    /// The expected block size.
    block_size: usize,
    /// The first key in the block
    first_key: Vec<u8>,
    /// The entries added so far, in order.
    entries: Ghost<Seq<Entry>>,
}

/// The size that `BlockBuilder::add` estimates for a block of `es`: its encoded size, that is
/// its data section, two bytes per offset and the two-byte entry count.
pub open spec fn size_estimate(es: Seq<Entry>) -> int {
    (entries_bytes(es).len() + 2 * es.len() + 2) as int
}

/// Whether a block of `es` still takes `(key, value)`: an empty block takes any entry, a
/// non-empty one only while the estimate with the new key and value, their two length fields
/// and the new offset stays within `block_size`.
pub open spec fn entry_fits(es: Seq<Entry>, block_size: int, key: Seq<u8>, value: Seq<u8>) -> bool {
    es.len() == 0 || size_estimate(es) + key.len() + value.len() + 6 <= block_size
}

impl View for BlockBuilder {
    type V = Seq<Entry>;

    /// The entries added so far, in order.
    closed spec fn view(&self) -> Seq<Entry> {
        self.entries@
    }
}

impl BlockBuilder {
    /// The target block size this builder was made with.
    pub closed spec fn target_size(&self) -> usize {
        self.block_size
    }

    /// The data and offset sections hold exactly the entries added so far.
    pub closed spec fn wf(&self) -> bool {
        &&& self.data@ == entries_bytes(self.entries@)
        &&& self.offsets@ == entry_offsets(self.entries@)
        &&& self.first_key@ == entry_base(self.entries@, self.entries@.len() as int)
    }

    /// Creates a new block builder.
    pub fn new(block_size: usize) -> (b: Self)
        ensures
            b.wf(),
            b@ == Seq::<Entry>::empty(),
            b.target_size() == block_size,
    {
        let b = Self {
            offsets: Vec::new(),
            data: Vec::new(),
            block_size,
            first_key: Vec::new(),
            entries: Ghost(Seq::empty()),
        };
        proof {
            assert(b.offsets@ =~= entry_offsets(b.entries@));
        }
        b
    }

    /// Adds a key-value pair to the block. Returns false when the block is full.
    ///
    /// The first entry is always taken, however large: a block is never empty. Each key is
    /// stored relative to the first key of the block.
    pub fn add(&mut self, key: &[u8], value: &[u8]) -> (added: bool)
        requires
            old(self).wf(),
            size_estimate(old(self)@) + key@.len() + value@.len() + 6 <= usize::MAX,
        ensures
            final(self).wf(),
            final(self).target_size() == old(self).target_size(),
            added == entry_fits(old(self)@, old(self).target_size() as int, key@, value@),
            added <==> (old(self)@.len() == 0 || block_layout(
                entries_bytes(old(self)@),
                entry_offsets(old(self)@),
            ).len() + key@.len() + value@.len() + 6 <= old(self).target_size()),
            final(self)@ == if added {
                old(self)@.push((key@, value@))
            } else {
                old(self)@
            },
    {
        // the trailing entry count, the offsets and the data
        let estimated_size = 2 + self.offsets.len() * 2 + self.data.len();
        // the key and value, their two length fields and the new offset
        let upcoming = key.len() + value.len() + 6;
        proof {
            lemma_entry_fits_by_encoded_size(self.entries@, self.block_size as int, key@, value@);
        }
        if !self.offsets.is_empty() && estimated_size + upcoming > self.block_size {
            return false;
        }
        let ghost old_entries = self.entries@;
        let ghost e = (key@, value@);
        let is_first = self.offsets.is_empty();
        let pre = self.data.len();
        // overlap_len (u16) | rest_len (u16) | key_rest | value_len (u16) | value
        let overlap = compute_overlap(self.first_key.as_slice(), key);
        proof {
            lemma_common_prefix(self.first_key@, key@);
        }
        put_u16(&mut self.data, overlap as u16);
        put_u16(&mut self.data, (key.len() - overlap) as u16);
        put_slice(&mut self.data, &key[overlap..key.len()]);
        put_u16(&mut self.data, value.len() as u16);
        put_slice(&mut self.data, value);
        self.offsets.push(pre as u16);
        if is_first {
            self.first_key = vstd::slice::slice_to_vec(key);
        }
        self.entries = Ghost(old_entries.push(e));
        proof {
            let es = self.entries@;
            let base = entry_base(es, old_entries.len() as int);
            lemma_entries_push(old_entries, e);
            assert(key@.subrange(overlap as int, key@.len() as int) =~= key@.skip(overlap as int));
            assert(self.data@ =~= entries_bytes(old_entries) + entry_bytes(base, e));
            assert(es.take(old_entries.len() as int) =~= old_entries);
            assert forall|i: int| 0 <= i < old_entries.len() implies #[trigger] es.take(i) == old_entries.take(i) by {
                assert(es.take(i) =~= old_entries.take(i));
            }
            assert(self.offsets@ =~= entry_offsets(es));
            assert(es[0] == if old_entries.len() == 0 { e } else { old_entries[0] });
            assert(self.first_key@ =~= entry_base(es, es.len() as int));
        }
        true
    }

    /// Check if there is no key-value pair in the block.
    pub fn is_empty(&self) -> (r: bool)
        requires
            self.wf(),
        ensures
            r == (self@.len() == 0),
    {
        self.offsets.is_empty()
    }

    /// Finalize the block. A block is never empty: the builder must hold an entry.
    pub fn build(self) -> (b: Block)
        requires
            self.wf(),
            self@.len() > 0,
        ensures
            b.data@ == entries_bytes(self@),
            b.offsets@ == entry_offsets(self@),
    {
        Block { data: self.data, offsets: self.offsets }
    }
}

} // verus!
