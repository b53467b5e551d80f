//! The byte layout of the entries inside a block, and how to read it back.
//!
//! Every entry is `overlap (u16) | rest_len (u16) | rest | value_len (u16) | value`, where
//! `overlap` is the length of the prefix that the key shares with the first key of the block
//! and `rest` is the remainder of the key. The first entry shares nothing with a key before it,
//! so its overlap is 0 and its rest is the whole key. All integers are big-endian.
use vstd::prelude::*;
use crate::codec::{be16_at, u16_be};
use crate::key::{common_prefix_len, lemma_common_prefix};

verus! {

/// A key and its value.
pub type Entry = (Seq<u8>, Seq<u8>);

/// The bytes of entry `e`, its key stored relative to `base`.
pub open spec fn entry_bytes(base: Seq<u8>, e: Entry) -> Seq<u8> {
    let o = common_prefix_len(base, e.0);
    u16_be(o as u16) + u16_be((e.0.len() - o) as u16) + e.0.skip(o) + u16_be(e.1.len() as u16)
        + e.1
}

/// The bytes of a run of entries that follow the first entry, whose key is `first_key`.
pub open spec fn later_entries_bytes(first_key: Seq<u8>, es: Seq<Entry>) -> Seq<u8>
    decreases es.len(),
{
    if es.len() == 0 {
        seq![]
    } else {
        entry_bytes(first_key, es[0]) + later_entries_bytes(first_key, es.skip(1))
    }
}

/// The data section of a block that holds `es`, in order.
pub open spec fn entries_bytes(es: Seq<Entry>) -> Seq<u8> {
    if es.len() == 0 {
        seq![]
    } else {
        entry_bytes(seq![], es[0]) + later_entries_bytes(es[0].0, es.skip(1))
    }
}

/// The key that the `i`-th entry of `es` is stored relative to: nothing for the first entry,
/// the first key for every later one.
pub open spec fn entry_base(es: Seq<Entry>, i: int) -> Seq<u8> {
    if i == 0 {
        seq![]
    } else {
        es[0].0
    }
}

/// Where the `i`-th entry of `es` starts in the data section.
pub open spec fn entry_start(es: Seq<Entry>, i: int) -> int {
    entries_bytes(es.take(i)).len() as int
}

/// The offset section of a block that holds `es`: each entry's start, as a `u16`.
pub open spec fn entry_offsets(es: Seq<Entry>) -> Seq<u16> {
    Seq::new(es.len(), |i: int| entry_start(es, i) as u16)
}

/// Every length that the layout stores fits in its `u16` field.
pub open spec fn entries_fit(es: Seq<Entry>) -> bool {
    forall|i: int| 0 <= i < es.len() ==> #[trigger] es[i].1.len() <= 65535 && es[i].0.len() <= 65535
}

/// Reads the entry at `pos`, its key stored relative to `base`; gives the entry and where the
/// next one starts.
pub open spec fn parse_entry(data: Seq<u8>, pos: int, base: Seq<u8>) -> Option<(Entry, int)> {
    if pos < 0 || pos + 4 > data.len() {
        None
    } else {
        let o = be16_at(data, pos) as int;
        let r = be16_at(data, pos + 2) as int;
        if o > base.len() || pos + 4 + r + 2 > data.len() {
            None
        } else {
            let vl = be16_at(data, pos + 4 + r) as int;
            let end = pos + 6 + r + vl;
            if end > data.len() {
                None
            } else {
                Some(
                    (
                        (base.take(o) + data.subrange(pos + 4, pos + 4 + r), data.subrange(
                            pos + 6 + r,
                            end,
                        )),
                        end,
                    ),
                )
            }
        }
    }
}

/// Reads the entries from `pos` to the end of `data`, their keys stored relative to
/// `first_key`.
pub open spec fn parse_later_from(data: Seq<u8>, pos: int, first_key: Seq<u8>) -> Option<Seq<Entry>>
    decreases data.len() - pos,
{
    if pos >= data.len() {
        if pos == data.len() {
            Some(seq![])
        } else {
            None
        }
    } else {
        match parse_entry(data, pos, first_key) {
            Some((e, next)) => if pos < next <= data.len() {
                match parse_later_from(data, next, first_key) {
                    Some(es) => Some(seq![e] + es),
                    None => None,
                }
            } else {
                None
            },
            None => None,
        }
    }
}

/// The entries that a data section holds, or `None` where it is malformed.
pub open spec fn parse_entries(data: Seq<u8>) -> Option<Seq<Entry>> {
    if data.len() == 0 {
        Some(seq![])
    } else {
        match parse_entry(data, 0, seq![]) {
            Some((e, next)) => match parse_later_from(data, next, e.0) {
                Some(es) => Some(seq![e] + es),
                None => None,
            },
            None => None,
        }
    }
}

// ---------------------------------------------------------------------------------------------
// Lemmas

pub proof fn lemma_be16_of_u16_be(p: Seq<u8>, n: u16, q: Seq<u8>)
    ensures
        be16_at(p + u16_be(n) + q, p.len() as int) == n,
        (p + u16_be(n) + q).len() == p.len() + 2 + q.len(),
{
    let s = p + u16_be(n) + q;
    assert(s[p.len() as int] == u16_be(n)[0]);
    assert(s[p.len() as int + 1] == u16_be(n)[1]);
}

/// An entry takes its three length fields, the part of its key not shared with `base`, and
/// its value.
pub proof fn lemma_entry_bytes_len(base: Seq<u8>, e: Entry)
    ensures
        entry_bytes(base, e).len() == 6 + e.0.len() - common_prefix_len(base, e.0) + e.1.len(),
        entry_bytes(base, e).len() >= 6,
        entry_bytes(seq![], e).len() == 6 + e.0.len() + e.1.len(),
{
    lemma_common_prefix(base, e.0);
    lemma_common_prefix(seq![], e.0);
}

/// Appending one more later entry appends its bytes.
pub proof fn lemma_later_entries_push(first_key: Seq<u8>, es: Seq<Entry>, e: Entry)
    ensures
        later_entries_bytes(first_key, es.push(e)) == later_entries_bytes(first_key, es)
            + entry_bytes(first_key, e),
    decreases es.len(),
{
    if es.len() == 0 {
        assert(es.push(e).skip(1) =~= seq![]);
        assert(later_entries_bytes(first_key, es.push(e).skip(1)) == Seq::<u8>::empty());
        assert(later_entries_bytes(first_key, es.push(e)) =~= entry_bytes(first_key, e));
    } else {
        lemma_later_entries_push(first_key, es.skip(1), e);
        assert(es.push(e).skip(1) =~= es.skip(1).push(e));
        assert(es.push(e)[0] == es[0]);
        assert(later_entries_bytes(first_key, es.push(e)) =~= later_entries_bytes(first_key, es)
            + entry_bytes(first_key, e));
    }
}

/// Appending an entry to a block appends exactly that entry's bytes, its key stored relative
/// to the first key (to nothing, for the first entry).
pub proof fn lemma_entries_push(es: Seq<Entry>, e: Entry)
    ensures
        entries_bytes(es.push(e)) == entries_bytes(es) + entry_bytes(entry_base(es.push(e), es.len() as int), e),
{
    if es.len() == 0 {
        assert(es.push(e).skip(1) =~= seq![]);
        assert(entries_bytes(es.push(e)) =~= entry_bytes(seq![], e));
    } else {
        assert(es.push(e).skip(1) =~= es.skip(1).push(e));
        lemma_later_entries_push(es[0].0, es.skip(1), e);
        assert(es.push(e)[0] == es[0]);
        assert(entries_bytes(es.push(e)) =~= entries_bytes(es) + entry_bytes(es[0].0, e));
    }
}

proof fn lemma_entry_fields(p: Seq<u8>, base: Seq<u8>, e: Entry, rest: Seq<u8>)
    ensures
        ({
            let o = common_prefix_len(base, e.0);
            let r = e.0.len() - o;
            let d = p + entry_bytes(base, e) + rest;
            let pl = p.len() as int;
            &&& be16_at(d, pl) == o as u16
            &&& be16_at(d, pl + 2) == r as u16
            &&& be16_at(d, pl + 4 + r) == e.1.len() as u16
            &&& d.subrange(pl + 4, pl + 4 + r) == e.0.skip(o)
            &&& d.subrange(pl + 6 + r, pl + 6 + r + e.1.len()) == e.1
            &&& d.len() == pl + 6 + r + e.1.len() + rest.len()
        }),
{
    lemma_common_prefix(base, e.0);
    let o = common_prefix_len(base, e.0);
    let k = e.0;
    let r = k.len() - o;
    let vb = u16_be(e.1.len() as u16);
    let d = p + entry_bytes(base, e) + rest;
    let pl = p.len() as int;
    assert(d =~= p + u16_be(o as u16) + (u16_be(r as u16) + k.skip(o) + vb + e.1 + rest));
    lemma_be16_of_u16_be(p, o as u16, u16_be(r as u16) + k.skip(o) + vb + e.1 + rest);
    let p2 = p + u16_be(o as u16);
    assert(d =~= p2 + u16_be(r as u16) + (k.skip(o) + vb + e.1 + rest));
    lemma_be16_of_u16_be(p2, r as u16, k.skip(o) + vb + e.1 + rest);
    let p3 = p2 + u16_be(r as u16);
    assert(d =~= p3 + k.skip(o) + (vb + e.1 + rest));
    assert(d.subrange(pl + 4, pl + 4 + r) =~= k.skip(o));
    let p4 = p3 + k.skip(o);
    assert(d =~= p4 + vb + (e.1 + rest));
    lemma_be16_of_u16_be(p4, e.1.len() as u16, e.1 + rest);
    let p5 = p4 + vb;
    assert(d =~= p5 + e.1 + rest);
    assert(d.subrange(pl + 6 + r, pl + 6 + r + e.1.len()) =~= e.1);
}

/// Reading back an entry whose lengths fit their fields gives the entry, its key rebuilt from
/// `base`.
pub proof fn lemma_parse_entry(p: Seq<u8>, base: Seq<u8>, e: Entry, rest: Seq<u8>)
    requires
        e.0.len() <= 65535,
        e.1.len() <= 65535,
    ensures
        parse_entry(p + entry_bytes(base, e) + rest, p.len() as int, base) == Some(
            (e, (p.len() + entry_bytes(base, e).len()) as int),
        ),
{
    lemma_common_prefix(base, e.0);
    lemma_entry_fields(p, base, e, rest);
    lemma_entry_bytes_len(base, e);
    let o = common_prefix_len(base, e.0);
    let k = e.0;
    assert(base.take(o) =~= k.take(o));
    assert(k.take(o) + k.skip(o) =~= k);
}

pub proof fn lemma_parse_later_entries(p: Seq<u8>, first_key: Seq<u8>, es: Seq<Entry>)
    requires
        entries_fit(es),
    ensures
        parse_later_from(p + later_entries_bytes(first_key, es), p.len() as int, first_key) == Some(es),
    decreases es.len(),
{
    let d = p + later_entries_bytes(first_key, es);
    if es.len() == 0 {
        assert(d =~= p);
    } else {
        let e = es[0];
        let b = entry_bytes(first_key, e);
        let tail = later_entries_bytes(first_key, es.skip(1));
        assert(d =~= p + b + tail);
        assert(es[0].1.len() <= 65535);
        lemma_parse_entry(p, first_key, e, tail);
        assert forall|i: int| 0 <= i < es.skip(1).len() implies #[trigger] es.skip(1)[i].1.len()
            <= 65535 && es.skip(1)[i].0.len() <= 65535 by {
            assert(es.skip(1)[i] == es[i + 1]);
            assert(es[i + 1].1.len() <= 65535);
        }
        lemma_parse_later_entries(p + b, first_key, es.skip(1));
        assert((p + b) + tail =~= d);
        lemma_entry_bytes_len(first_key, e);
        assert(seq![e] + es.skip(1) =~= es);
    }
}

/// Reading back the data section of a block gives the entries it was made from, where every
/// stored length fits its field.
pub proof fn lemma_parse_entries_bytes(es: Seq<Entry>)
    requires
        entries_fit(es),
    ensures
        parse_entries(entries_bytes(es)) == Some(es),
{
    if es.len() > 0 {
        let e = es[0];
        let fb = entry_bytes(seq![], e);
        let tail = later_entries_bytes(e.0, es.skip(1));
        assert(es[0].1.len() <= 65535);
        lemma_parse_entry(seq![], seq![], e, tail);
        assert(seq![] + fb + tail =~= entries_bytes(es));
        assert(seq![] + fb =~= fb);
        lemma_entry_bytes_len(seq![], e);
        assert forall|i: int| 0 <= i < es.skip(1).len() implies #[trigger] es.skip(1)[i].1.len()
            <= 65535 && es.skip(1)[i].0.len() <= 65535 by {
            assert(es.skip(1)[i] == es[i + 1]);
            assert(es[i + 1].1.len() <= 65535);
        }
        lemma_parse_later_entries(fb, e.0, es.skip(1));
        assert(seq![e] + es.skip(1) =~= es);
    }
}

/// Reading a run of later entries takes one entry at a time.
pub proof fn lemma_parse_later_from_step(data: Seq<u8>, pos: int, first_key: Seq<u8>, es: Seq<Entry>)
    requires
        parse_later_from(data, pos, first_key) == Some(es),
    ensures
        pos <= data.len(),
        (pos == data.len()) == (es.len() == 0),
        es.len() > 0 ==> pos + 6 <= data.len(),
        es.len() > 0 ==> match parse_entry(data, pos, first_key) {
            Some((e, next)) => {
                &&& e == es[0]
                &&& pos < next <= data.len()
                &&& parse_later_from(data, next, first_key) == Some(es.skip(1))
            },
            None => false,
        },
{
    if pos < data.len() {
        if let Some((e, next)) = parse_entry(data, pos, first_key) {
            if let Some(rest) = parse_later_from(data, next, first_key) {
                assert(es == seq![e] + rest);
                assert(es.skip(1) =~= rest);
            }
        }
    }
}

/// A non-empty data section that reads back starts with its first entry, followed by the
/// later entries.
pub proof fn lemma_parse_entries_split(data: Seq<u8>, es: Seq<Entry>)
    requires
        parse_entries(data) == Some(es),
    ensures
        (data.len() == 0) == (es.len() == 0),
        data.len() > 0 ==> match parse_entry(data, 0, seq![]) {
            Some((e, next)) => {
                &&& e == es[0]
                &&& 0 < next <= data.len()
                &&& parse_later_from(data, next, e.0) == Some(es.skip(1))
            },
            None => false,
        },
{
    if data.len() > 0 {
        if let Some((e, next)) = parse_entry(data, 0, seq![]) {
            if let Some(rest) = parse_later_from(data, next, e.0) {
                assert(es == seq![e] + rest);
                assert(es.skip(1) =~= rest);
                lemma_parse_later_from_step(data, next, e.0, rest);
            }
        }
    }
}

/// Every entry takes at least one byte, so a run of entries is no longer than its bytes.
pub proof fn lemma_parse_later_from_len(data: Seq<u8>, pos: int, first_key: Seq<u8>, es: Seq<Entry>)
    requires
        parse_later_from(data, pos, first_key) == Some(es),
    ensures
        es.len() <= data.len() - pos,
    decreases data.len() - pos,
{
    lemma_parse_later_from_step(data, pos, first_key, es);
    if es.len() > 0 {
        if let Some((e, next)) = parse_entry(data, pos, first_key) {
            lemma_parse_later_from_len(data, next, first_key, es.skip(1));
        }
    }
}

/// A data section holds no more entries than bytes.
pub proof fn lemma_parse_entries_len(data: Seq<u8>, es: Seq<Entry>)
    requires
        parse_entries(data) == Some(es),
    ensures
        es.len() <= data.len(),
{
    lemma_parse_entries_split(data, es);
    if data.len() > 0 {
        if let Some((e, next)) = parse_entry(data, 0, seq![]) {
            lemma_parse_later_from_len(data, next, e.0, es.skip(1));
        }
    }
}

} // verus!
