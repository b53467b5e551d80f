//! The iterator interface that every storage iterator offers, and merging of iterators.
use vstd::prelude::*;
use crate::format::Entry;

pub mod merge_iterator;

verus! {

/// A failure reported by a storage iterator.
pub struct StorageError {
    /// What went wrong.
    pub message: String,
}

/// An iterator over sorted key/value entries.
pub trait StorageIterator {
    /// The iterator's state is consistent. An implementation that gives no account of its
    /// state claims none.
    closed spec fn inv(&self) -> bool {
        false
    }

    /// The entries still to come, the current one first; empty once the iterator is exhausted.
    closed spec fn remaining(&self) -> Seq<Entry> {
        Seq::empty()
    }

    /// No call of `next` on this iterator fails. An implementation that says nothing of its
    /// failures claims that they may happen.
    closed spec fn never_fails(&self) -> bool {
        false
    }

    /// Get the current value.
    fn value(&self) -> (v: &[u8])
        requires
            self.inv(),
            self.remaining().len() > 0,
        ensures
            v@ == self.remaining()[0].1,
    ;

    /// Get the current key.
    fn key(&self) -> (k: &[u8])
        requires
            self.inv(),
            self.remaining().len() > 0,
        ensures
            k@ == self.remaining()[0].0,
    ;

    /// Check if the current iterator is valid.
    fn is_valid(&self) -> (r: bool)
        requires
            self.inv(),
        ensures
            r == (self.remaining().len() > 0),
    ;

    /// Move to the next position: exactly one entry on, or nowhere once exhausted. It fails
    /// only where the iterator may fail.
    fn next(&mut self) -> (r: Result<(), StorageError>)
        requires
            old(self).inv(),
        ensures
            final(self).inv(),
            old(self).never_fails() ==> r is Ok && final(self).never_fails(),
            r is Ok ==> final(self).remaining() == if old(self).remaining().len() > 0 {
                old(self).remaining().skip(1)
            } else {
                old(self).remaining()
            },
    ;
}

} // verus!
