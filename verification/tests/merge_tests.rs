use std::sync::Arc;

use mini_lsm_starter::iterators::merge_iterator::MergeIterator;
use mini_lsm_starter::iterators::{StorageError, StorageIterator};
use mini_lsm_starter::table::{SsTableBuilder, SsTableIterator};

fn table_iter(entries: &[(&str, &str)]) -> Box<SsTableIterator> {
    let mut builder = SsTableBuilder::new(32);
    for (k, v) in entries {
        builder.add(k.as_bytes(), v.as_bytes());
    }
    let table = Arc::new(builder.build(0, 10));
    Box::new(SsTableIterator::create_and_seek_to_first(table).ok().unwrap())
}

fn collect<I: StorageIterator>(iter: &mut I) -> Vec<(String, String)> {
    let mut out = Vec::new();
    while iter.is_valid() {
        out.push((
            String::from_utf8(iter.key().to_vec()).unwrap(),
            String::from_utf8(iter.value().to_vec()).unwrap(),
        ));
        assert!(iter.next().is_ok());
    }
    out
}

fn pairs(entries: &[(&str, &str)]) -> Vec<(String, String)> {
    entries.iter().map(|(k, v)| (k.to_string(), v.to_string())).collect()
}

#[test]
fn merge_prefers_smaller_index_on_equal_keys() {
    let a = table_iter(&[("a", "1.1"), ("b", "2.1"), ("c", "3.1"), ("e", "5.1")]);
    let b = table_iter(&[("a", "1.2"), ("b", "2.2"), ("c", "3.2"), ("d", "4.2")]);
    let c = table_iter(&[("b", "2.3"), ("c", "3.3"), ("d", "4.3")]);
    let mut merged = MergeIterator::create(vec![a, b, c]);
    assert_eq!(
        collect(&mut merged),
        pairs(&[("a", "1.1"), ("b", "2.1"), ("c", "3.1"), ("d", "4.2"), ("e", "5.1")])
    );
    assert!(!merged.is_valid());
}

#[test]
fn merge_with_later_iterator_first() {
    let a = table_iter(&[("m", "a"), ("z", "a")]);
    let b = table_iter(&[("a", "b"), ("m", "b"), ("n", "b")]);
    let mut merged = MergeIterator::create(vec![a, b]);
    assert_eq!(collect(&mut merged), pairs(&[("a", "b"), ("m", "a"), ("n", "b"), ("z", "a")]));
}

#[test]
fn merge_of_nothing_is_invalid() {
    let mut merged: MergeIterator<SsTableIterator> = MergeIterator::create(Vec::new());
    assert!(!merged.is_valid());
    assert!(merged.next().is_ok());
    assert!(!merged.is_valid());
}

/// Yields its entries, then fails when moved past the entry at `fail_at`.
struct Flaky {
    entries: Vec<(Vec<u8>, Vec<u8>)>,
    pos: usize,
    fail_at: usize,
}

impl StorageIterator for Flaky {
    fn value(&self) -> &[u8] {
        &self.entries[self.pos].1
    }

    fn key(&self) -> &[u8] {
        &self.entries[self.pos].0
    }

    fn is_valid(&self) -> bool {
        self.pos < self.entries.len()
    }

    fn next(&mut self) -> Result<(), StorageError> {
        if self.pos == self.fail_at {
            return Err(StorageError { message: "read failed".to_string() });
        }
        self.pos += 1;
        Ok(())
    }
}

fn flaky(keys: &[&str], fail_at: usize) -> Box<Flaky> {
    Box::new(Flaky {
        entries: keys.iter().map(|k| (k.as_bytes().to_vec(), b"v".to_vec())).collect(),
        pos: 0,
        fail_at,
    })
}

#[test]
fn merge_stops_with_the_error_of_a_sibling() {
    let a = flaky(&["a", "b"], 99);
    let b = flaky(&["a", "c"], 0);
    let mut merged = MergeIterator::create(vec![a, b]);
    assert_eq!(merged.key(), b"a");
    let r = merged.next();
    assert_eq!(r.err().unwrap().message, "read failed");
    assert!(!merged.is_valid());
}

#[test]
fn merge_stops_with_the_error_of_the_current_iterator() {
    let a = flaky(&["a", "b"], 0);
    let b = flaky(&["c"], 99);
    let mut merged = MergeIterator::create(vec![a, b]);
    assert!(merged.next().is_err());
    assert!(!merged.is_valid());
}
