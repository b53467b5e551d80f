//! Merges iterators of the same type.
use vstd::prelude::*;
use crate::format::Entry;
use crate::key::{keys_increasing, 
    key_equal, key_less, key_lt, lemma_key_lt_transitive, lemma_key_lt_trichotomy,
};
use super::{StorageError, StorageIterator};

verus! {

/// Among the first `n` streams, the one that comes first: the non-empty stream whose current
/// key is smallest, the smaller index winning ties; -1 when they are all empty.
pub open spec fn min_stream_upto(s: Seq<Seq<Entry>>, n: int) -> int
    decreases n,
{
    if n <= 0 {
        -1
    } else {
        let m = min_stream_upto(s, n - 1);
        if s[n - 1].len() == 0 {
            m
        } else if m < 0 || key_lt(s[n - 1][0].0, s[m][0].0) {
            n - 1
        } else {
            m
        }
    }
}

/// The stream that comes first; -1 when all streams are empty.
pub open spec fn min_stream(s: Seq<Seq<Entry>>) -> int {
    min_stream_upto(s, s.len() as int)
}

/// Every stream whose current key is `k` moves past it.
pub open spec fn advance_streams(s: Seq<Seq<Entry>>, k: Seq<u8>) -> Seq<Seq<Entry>> {
    Seq::new(s.len(), |i: int| if s[i].len() > 0 && s[i][0].0 == k { s[i].skip(1) } else { s[i] })
}

/// The number of entries left in all streams.
pub open spec fn total_len(s: Seq<Seq<Entry>>) -> nat
    decreases s.len(),
{
    if s.len() == 0 {
        0
    } else {
        total_len(s.drop_last()) + s.last().len()
    }
}

/// The merge of the streams: repeatedly the entry of the stream that comes first, after which
/// every stream at that same key moves past it. Of entries with equal keys, the one from the
/// stream with the smallest index is kept.
pub open spec fn merged(s: Seq<Seq<Entry>>) -> Seq<Entry>
    decreases total_len(s),
{
    let m = min_stream(s);
    if 0 <= m < s.len() && s[m].len() > 0 {
        proof {
            lemma_advance_shrinks(s, m);
        }
        seq![s[m][0]] + merged(advance_streams(s, s[m][0].0))
    } else {
        seq![]
    }
}

proof fn lemma_total_len_le(t: Seq<Seq<Entry>>, u: Seq<Seq<Entry>>, m: int)
    requires
        t.len() == u.len(),
        forall|i: int| 0 <= i < t.len() ==> #[trigger] t[i].len() <= u[i].len(),
        0 <= m < t.len() ==> t[m].len() < u[m].len(),
    ensures
        total_len(t) <= total_len(u),
        0 <= m < t.len() ==> total_len(t) < total_len(u),
    decreases t.len(),
{
    if t.len() > 0 {
        let n = t.len() - 1;
        assert forall|i: int| 0 <= i < t.drop_last().len() implies #[trigger] t.drop_last()[i].len()
            <= u.drop_last()[i].len() by {
            assert(t[i].len() <= u[i].len());
        }
        assert(t.last().len() <= u.last().len());
        lemma_total_len_le(t.drop_last(), u.drop_last(), if m < n { m } else { -1 });
    }
}

/// Moving past the first stream's current key leaves fewer entries.
pub proof fn lemma_advance_shrinks(s: Seq<Seq<Entry>>, m: int)
    requires
        0 <= m < s.len(),
        s[m].len() > 0,
    ensures
        total_len(advance_streams(s, s[m][0].0)) < total_len(s),
{
    let t = advance_streams(s, s[m][0].0);
    assert forall|i: int| 0 <= i < t.len() implies #[trigger] t[i].len() <= s[i].len() by {}
    lemma_total_len_le(t, s, m);
}

proof fn lemma_min_stream_upto(s: Seq<Seq<Entry>>, n: int)
    requires
        0 <= n <= s.len(),
    ensures
        -1 <= min_stream_upto(s, n) < n,
        min_stream_upto(s, n) >= 0 ==> s[min_stream_upto(s, n)].len() > 0,
        min_stream_upto(s, n) < 0 ==> forall|j: int| 0 <= j < n ==> (#[trigger] s[j]).len() == 0,
        min_stream_upto(s, n) >= 0 ==> forall|j: int|
            0 <= j < n && (#[trigger] s[j]).len() > 0 ==> !key_lt(s[j][0].0, s[min_stream_upto(s, n)][0].0),
        min_stream_upto(s, n) >= 0 ==> forall|j: int|
            0 <= j < n && (#[trigger] s[j]).len() > 0 && s[j][0].0 == s[min_stream_upto(s, n)][0].0
                ==> min_stream_upto(s, n) <= j,
    decreases n,
{
    if n > 0 {
        lemma_min_stream_upto(s, n - 1);
        let m = min_stream_upto(s, n - 1);
        if s[n - 1].len() > 0 && m >= 0 && key_lt(s[n - 1][0].0, s[m][0].0) {
            assert forall|j: int| 0 <= j < n && (#[trigger] s[j]).len() > 0 implies !key_lt(
                s[j][0].0,
                s[n - 1][0].0,
            ) by {
                if j < n - 1 && key_lt(s[j][0].0, s[n - 1][0].0) {
                    lemma_key_lt_transitive(s[j][0].0, s[n - 1][0].0, s[m][0].0);
                }
                lemma_key_lt_trichotomy(s[j][0].0, s[j][0].0);
            }
        } else if s[n - 1].len() > 0 && m < 0 {
            lemma_key_lt_trichotomy(s[n - 1][0].0, s[n - 1][0].0);
        }
    }
}

/// The first stream is `-1` exactly when every stream is empty, and otherwise a non-empty one.
pub proof fn lemma_min_stream(s: Seq<Seq<Entry>>)
    ensures
        -1 <= min_stream(s) < s.len(),
        min_stream(s) >= 0 ==> s[min_stream(s)].len() > 0,
        min_stream(s) < 0 ==> forall|j: int| 0 <= j < s.len() ==> (#[trigger] s[j]).len() == 0,
        min_stream(s) >= 0 ==> forall|j: int|
            0 <= j < s.len() && (#[trigger] s[j]).len() > 0 ==> !key_lt(s[j][0].0, s[min_stream(s)][0].0),
        min_stream(s) >= 0 ==> forall|j: int|
            0 <= j < s.len() && (#[trigger] s[j]).len() > 0 && s[j][0].0 == s[min_stream(s)][0].0
                ==> min_stream(s) <= j,
{
    lemma_min_stream_upto(s, s.len() as int);
}

/// Every entry of every stream has a key above `k`.
pub open spec fn all_above(s: Seq<Seq<Entry>>, k: Seq<u8>) -> bool {
    forall|i: int, j: int| 0 <= i < s.len() && 0 <= j < s[i].len() ==> key_lt(k, (#[trigger] s[i][j]).0)
}

proof fn lemma_merged_above(s: Seq<Seq<Entry>>, k: Seq<u8>)
    requires
        all_above(s, k),
    ensures
        forall|a: int| 0 <= a < merged(s).len() ==> key_lt(k, (#[trigger] merged(s)[a]).0),
    decreases total_len(s),
{
    let m = min_stream(s);
    lemma_min_stream(s);
    if 0 <= m < s.len() && s[m].len() > 0 {
        let t = advance_streams(s, s[m][0].0);
        lemma_advance_shrinks(s, m);
        assert forall|i: int, j: int| 0 <= i < t.len() && 0 <= j < t[i].len() implies key_lt(
            k,
            (#[trigger] t[i][j]).0,
        ) by {
            if s[i].len() > 0 && s[i][0].0 == s[m][0].0 {
                assert(t[i][j] == s[i][j + 1]);
            } else {
                assert(t[i][j] == s[i][j]);
            }
        }
        lemma_merged_above(t, k);
        let r = merged(s);
        assert(r == seq![s[m][0]] + merged(t));
        assert forall|a: int| 0 <= a < r.len() implies key_lt(k, (#[trigger] r[a]).0) by {
            if a > 0 {
                assert(r[a] == merged(t)[a - 1]);
            } else {
                assert(r[a] == s[m][0]);
            }
        }
    }
}

/// Merging streams whose keys strictly rise gives entries whose keys strictly rise: the merge
/// emits each key once, in order.
pub proof fn lemma_merged_sorted(s: Seq<Seq<Entry>>)
    requires
        forall|i: int| 0 <= i < s.len() ==> keys_increasing(#[trigger] s[i]),
    ensures
        keys_increasing(merged(s)),
    decreases total_len(s),
{
    let m = min_stream(s);
    lemma_min_stream(s);
    lemma_min_stream_upto(s, s.len() as int);
    if 0 <= m < s.len() && s[m].len() > 0 {
        let h = s[m][0].0;
        let t = advance_streams(s, h);
        lemma_advance_shrinks(s, m);
        assert forall|i: int| 0 <= i < t.len() implies keys_increasing(#[trigger] t[i]) by {
            assert(keys_increasing(s[i]));
            if s[i].len() > 0 && s[i][0].0 == h {
                assert forall|a: int, b: int| 0 <= a < b < t[i].len() implies key_lt(
                    #[trigger] t[i][a].0,
                    #[trigger] t[i][b].0,
                ) by {
                    assert(t[i][a] == s[i][a + 1]);
                    assert(t[i][b] == s[i][b + 1]);
                }
            }
        }
        assert forall|i: int, j: int| 0 <= i < t.len() && 0 <= j < t[i].len() implies key_lt(
            h,
            (#[trigger] t[i][j]).0,
        ) by {
            assert(keys_increasing(s[i]));
            assert(s[i].len() > 0);
            let hi = s[i][0].0;
            assert(!key_lt(hi, h));
            if hi == h {
                assert(t[i][j] == s[i][j + 1]);
                assert(key_lt(s[i][0].0, s[i][j + 1].0));
            } else {
                lemma_key_lt_trichotomy(hi, h);
                assert(key_lt(h, hi));
                assert(t[i][j] == s[i][j]);
                if j > 0 {
                    assert(key_lt(s[i][0].0, s[i][j].0));
                    lemma_key_lt_transitive(h, hi, s[i][j].0);
                }
            }
        }
        lemma_merged_above(t, h);
        lemma_merged_sorted(t);
        let r = merged(s);
        let rt = merged(t);
        assert(r == seq![s[m][0]] + rt);
        assert forall|a: int, b: int| 0 <= a < b < r.len() implies key_lt(
            #[trigger] r[a].0,
            #[trigger] r[b].0,
        ) by {
            assert(r[b] == rt[b - 1]);
            if a == 0 {
                assert(r[a] == s[m][0]);
            } else {
                assert(r[a] == rt[a - 1]);
            }
        }
    }
}

/// Some entry of `es` has key `k`.
pub open spec fn holds_key(es: Seq<Entry>, k: Seq<u8>) -> bool {
    exists|j: int| 0 <= j < es.len() && (#[trigger] es[j]).0 == k
}

/// Stream `i` is the first stream with an entry of key `k`.
pub open spec fn first_holder(s: Seq<Seq<Entry>>, k: Seq<u8>, i: int) -> bool {
    &&& 0 <= i < s.len()
    &&& holds_key(s[i], k)
    &&& forall|j: int| 0 <= j < i ==> !holds_key(#[trigger] s[j], k)
}

proof fn lemma_sorted_tail_above(es: Seq<Entry>, j: int)
    requires
        keys_increasing(es),
        0 < j < es.len(),
    ensures
        key_lt(es[0].0, es[j].0),
{
}

/// Merging streams whose keys strictly rise keeps, of each key, the entry of the first stream
/// that has the key, and nothing else: an entry is in the merge exactly when it belongs to the
/// first stream holding its key.
pub proof fn lemma_merged_prefers_first(s: Seq<Seq<Entry>>, k: Seq<u8>, v: Seq<u8>)
    requires
        forall|i: int| 0 <= i < s.len() ==> keys_increasing(#[trigger] s[i]),
    ensures
        merged(s).contains((k, v)) <==> exists|i: int| first_holder(s, k, i) && s[i].contains((k, v)),
    decreases total_len(s),
{
    let m = min_stream(s);
    lemma_min_stream(s);
    if !(0 <= m < s.len() && s[m].len() > 0) {
        assert(merged(s) =~= Seq::<Entry>::empty());
        assert forall|i: int| #![trigger first_holder(s, k, i)] !first_holder(s, k, i) by {
            if 0 <= i < s.len() {
                assert(s[i].len() == 0);
            }
        }
    } else {
        let h = s[m][0].0;
        let t = advance_streams(s, h);
        lemma_advance_shrinks(s, m);
        // the advanced streams are sorted, and hold only keys above h
        assert forall|i: int| 0 <= i < t.len() implies keys_increasing(#[trigger] t[i]) by {
            assert(keys_increasing(s[i]));
            if s[i].len() > 0 && s[i][0].0 == h {
                assert forall|a: int, b: int| 0 <= a < b < t[i].len() implies key_lt(
                    #[trigger] t[i][a].0,
                    #[trigger] t[i][b].0,
                ) by {
                    assert(t[i][a] == s[i][a + 1]);
                    assert(t[i][b] == s[i][b + 1]);
                }
            }
        }
        // every entry of every stream other than the heads at h lies above h
        assert forall|i: int, j: int| 0 <= i < s.len() && 0 <= j < s[i].len() && !(j == 0
            && s[i][0].0 == h) implies key_lt(h, (#[trigger] s[i][j]).0) by {
            assert(keys_increasing(s[i]));
            let hi = s[i][0].0;
            assert(!key_lt(hi, h));
            if hi == h {
                lemma_sorted_tail_above(s[i], j);
            } else {
                lemma_key_lt_trichotomy(hi, h);
                if j > 0 {
                    lemma_sorted_tail_above(s[i], j);
                    lemma_key_lt_transitive(h, hi, s[i][j].0);
                }
            }
        }
        assert forall|i: int, j: int| 0 <= i < t.len() && 0 <= j < t[i].len() implies key_lt(
            h,
            (#[trigger] t[i][j]).0,
        ) by {
            if s[i].len() > 0 && s[i][0].0 == h {
                assert(t[i][j] == s[i][j + 1]);
            } else {
                assert(t[i][j] == s[i][j]);
            }
        }
        lemma_merged_above(t, h);
        lemma_merged_prefers_first(t, k, v);
        let r = merged(s);
        let rt = merged(t);
        assert(r == seq![s[m][0]] + rt);
        lemma_key_lt_trichotomy(h, h);
        if k == h {
            // the merge holds key h only at its head
            assert(!rt.contains((k, v))) by {
                if rt.contains((k, v)) {
                    let a = choose|a: int| 0 <= a < rt.len() && rt[a] == (k, v);
                    assert(key_lt(h, rt[a].0));
                }
            }
            assert(r.contains((k, v)) <==> s[m][0] == (k, v)) by {
                if r.contains((k, v)) {
                    let a = choose|a: int| 0 <= a < r.len() && r[a] == (k, v);
                    if a > 0 {
                        assert(r[a] == rt[a - 1]);
                    }
                }
                if s[m][0] == (k, v) {
                    assert(r[0] == (k, v));
                }
            }
            // stream m is the first holder of h
            assert(holds_key(s[m], h)) by {
                assert(s[m][0].0 == h);
            }
            assert forall|j: int| 0 <= j < m implies !holds_key(#[trigger] s[j], h) by {
                if holds_key(s[j], h) {
                    let b = choose|b: int| 0 <= b < s[j].len() && (#[trigger] s[j][b]).0 == h;
                    if !(b == 0 && s[j][0].0 == h) {
                        assert(key_lt(h, s[j][b].0));
                    } else {
                        assert(m <= j);
                    }
                }
            }
            assert(first_holder(s, k, m));
            assert(s[m].contains((k, v)) <==> s[m][0] == (k, v)) by {
                if s[m].contains((k, v)) {
                    let b = choose|b: int| 0 <= b < s[m].len() && s[m][b] == (k, v);
                    if b > 0 {
                        assert(key_lt(h, s[m][b].0));
                    }
                }
            }
            assert forall|i: int| #[trigger] first_holder(s, k, i) implies i == m by {
                if i < m {
                    assert(!holds_key(s[i], h));
                }
                if m < i {
                    assert(!holds_key(s[m], k));
                }
            }
        } else {
            assert(r.contains((k, v)) <==> rt.contains((k, v))) by {
                if r.contains((k, v)) {
                    let a = choose|a: int| 0 <= a < r.len() && r[a] == (k, v);
                    assert(a > 0);
                    assert(rt[a - 1] == (k, v));
                }
                if rt.contains((k, v)) {
                    let a = choose|a: int| 0 <= a < rt.len() && rt[a] == (k, v);
                    assert(r[a + 1] == (k, v));
                }
            }
            // away from h, the advanced streams hold what the streams hold
            assert forall|i: int| 0 <= i < s.len() implies (holds_key(#[trigger] t[i], k) <==> holds_key(
                s[i],
                k,
            )) && (t[i].contains((k, v)) <==> s[i].contains((k, v))) by {
                if s[i].len() > 0 && s[i][0].0 == h {
                    if holds_key(s[i], k) {
                        let b = choose|b: int| 0 <= b < s[i].len() && (#[trigger] s[i][b]).0 == k;
                        assert(b > 0);
                        assert(t[i][b - 1] == s[i][b]);
                    }
                    if holds_key(t[i], k) {
                        let b = choose|b: int| 0 <= b < t[i].len() && (#[trigger] t[i][b]).0 == k;
                        assert(t[i][b] == s[i][b + 1]);
                    }
                    if s[i].contains((k, v)) {
                        let b = choose|b: int| 0 <= b < s[i].len() && s[i][b] == (k, v);
                        assert(b > 0);
                        assert(t[i][b - 1] == s[i][b]);
                    }
                    if t[i].contains((k, v)) {
                        let b = choose|b: int| 0 <= b < t[i].len() && t[i][b] == (k, v);
                        assert(t[i][b] == s[i][b + 1]);
                    }
                } else {
                    assert(t[i] == s[i]);
                }
            }
            assert forall|i: int| #[trigger] first_holder(t, k, i) implies first_holder(s, k, i) by {
                assert(holds_key(t[i], k) <==> holds_key(s[i], k));
                assert forall|j: int| 0 <= j < i implies !holds_key(#[trigger] s[j], k) by {
                    assert(!holds_key(t[j], k));
                    assert(holds_key(t[j], k) <==> holds_key(s[j], k));
                }
            }
            assert forall|i: int| #[trigger] first_holder(s, k, i) implies first_holder(t, k, i) by {
                assert(holds_key(t[i], k) <==> holds_key(s[i], k));
                assert forall|j: int| 0 <= j < i implies !holds_key(#[trigger] t[j], k) by {
                    assert(!holds_key(s[j], k));
                    assert(holds_key(t[j], k) <==> holds_key(s[j], k));
                }
            }
            if exists|i: int| first_holder(s, k, i) && s[i].contains((k, v)) {
                let i = choose|i: int| first_holder(s, k, i) && s[i].contains((k, v));
                assert(first_holder(t, k, i) && t[i].contains((k, v)));
            }
            if exists|i: int| first_holder(t, k, i) && t[i].contains((k, v)) {
                let i = choose|i: int| first_holder(t, k, i) && t[i].contains((k, v));
                assert(first_holder(s, k, i) && s[i].contains((k, v)));
            }
        }
    }
}

/// Merge multiple iterators of the same type. If the same key occurs multiple times in some
/// iterators, prefer the one with smaller index.
pub struct MergeIterator<I: StorageIterator> {
    /// One slot per merged iterator, by index; empty once that iterator is exhausted.
    iters: Vec<Option<Box<I>>>,
    /// The slot of the iterator positioned at the output key.
    current: Option<usize>,
}

/// What is left of the iterator in a slot; nothing for an empty slot.
pub open spec fn slot_stream<I: StorageIterator>(slot: Option<Box<I>>) -> Seq<Entry> {
    match slot {
        Some(it) => it.remaining(),
        None => seq![],
    }
}

/// A slot is empty or holds an iterator that never fails.
pub open spec fn slot_never_fails<I: StorageIterator>(slot: Option<Box<I>>) -> bool {
    match slot {
        Some(it) => it.never_fails(),
        None => true,
    }
}

/// A slot is empty or holds a consistent iterator that still has entries.
pub open spec fn slot_ok<I: StorageIterator>(slot: Option<Box<I>>) -> bool {
    match slot {
        Some(it) => it.inv() && it.remaining().len() > 0,
        None => true,
    }
}

impl<I: StorageIterator> MergeIterator<I> {
    /// What is left of each merged iterator, by index.
    pub closed spec fn streams(&self) -> Seq<Seq<Entry>> {
        Seq::new(self.iters@.len(), |i: int| slot_stream(self.iters@[i]))
    }

    /// Every slot is empty or live, and the current slot is the stream that comes first.
    pub closed spec fn wf(&self) -> bool {
        &&& forall|i: int| 0 <= i < self.iters@.len() ==> #[trigger] slot_ok(self.iters@[i])
        &&& self.current matches Some(c) ==> c == min_stream(self.streams())
    }

    /// Whether the iterator is positioned at an output entry.
    pub closed spec fn has_current(&self) -> bool {
        self.current is Some
    }

    /// None of the iterators still merged fails.
    pub closed spec fn slots_never_fail(&self) -> bool {
        forall|i: int| 0 <= i < self.iters@.len() ==> #[trigger] slot_never_fails(self.iters@[i])
    }

    /// The slot whose stream comes first.
    fn find_first(&self) -> (r: Option<usize>)
        requires
            forall|i: int| 0 <= i < self.iters@.len() ==> #[trigger] slot_ok(self.iters@[i]),
        ensures
            match r {
                Some(c) => c == min_stream(self.streams()),
                None => min_stream(self.streams()) < 0,
            },
    {
        let ghost s = self.streams();
        let n = self.iters.len();
        let mut best: Option<usize> = None;
        let mut i: usize = 0;
        while i < n
            invariant
                n == self.iters@.len(),
                s == self.streams(),
                forall|j: int| 0 <= j < self.iters@.len() ==> #[trigger] slot_ok(self.iters@[j]),
                i <= n,
                match best {
                    Some(b) => b == min_stream_upto(s, i as int),
                    None => min_stream_upto(s, i as int) < 0,
                },
            decreases n - i,
        {
            proof {
                lemma_min_stream_upto(s, i as int);
                assert(slot_ok(self.iters@[i as int]));
            }
            match &self.iters[i] {
                Some(it) => {
                    assert(s[i as int] == it.remaining());
                    match best {
                        Some(b) => {
                            assert(slot_ok(self.iters@[b as int]));
                            let cur = self.iters[b].as_ref().unwrap();
                            assert(s[b as int] == cur.remaining());
                            if key_less(it.key(), cur.key()) {
                                best = Some(i);
                            }
                        },
                        None => {
                            best = Some(i);
                        },
                    }
                },
                None => {},
            }
            i = i + 1;
        }
        best
    }

    pub fn create(iters: Vec<Box<I>>) -> (m: Self)
        requires
            forall|i: int| 0 <= i < iters@.len() ==> (#[trigger] iters@[i]).inv(),
        ensures
            m.wf(),
            m.streams() == Seq::new(iters@.len(), |i: int| iters@[i].remaining()),
            m.has_current() == (min_stream(m.streams()) >= 0),
            m.remaining() == merged(m.streams()),
            (forall|i: int| 0 <= i < iters@.len() ==> (#[trigger] iters@[i]).never_fails()) ==> m.never_fails(),
    {
        let ghost orig = iters@;
        let n = iters.len();
        let mut rest = iters;
        let mut slots: Vec<Option<Box<I>>> = Vec::new();
        let mut i: usize = 0;
        while i < n
            invariant
                n == orig.len(),
                i <= n,
                rest@ == orig.skip(i as int),
                slots@.len() == i,
                forall|j: int| 0 <= j < orig.len() ==> (#[trigger] orig[j]).inv(),
                forall|j: int| 0 <= j < i ==> #[trigger] slot_ok(slots@[j]),
                forall|j: int| 0 <= j < i ==> #[trigger] slot_stream(slots@[j]) == orig[j].remaining(),
                forall|j: int| 0 <= j < i ==> orig[j].never_fails() ==> #[trigger] slot_never_fails(slots@[j]),
            decreases n - i,
        {
            let iter = rest.remove(0);
            assert(iter == orig[i as int]);
            if iter.is_valid() {
                slots.push(Some(iter));
            } else {
                slots.push(None);
            }
            proof {
                assert(rest@ =~= orig.skip(i + 1));
            }
            i = i + 1;
        }
        let mut m = Self { iters: slots, current: None };
        proof {
            assert(m.streams() =~= Seq::new(orig.len(), |i: int| orig[i].remaining()));
        }
        m.current = m.find_first();
        proof {
            lemma_min_stream(m.streams());
            if forall|i: int| 0 <= i < orig.len() ==> (#[trigger] orig[i]).never_fails() {
                assert forall|j: int| 0 <= j < m.iters@.len() implies #[trigger] slot_never_fails(m.iters@[j]) by {
                    assert(orig[j].never_fails());
                }
            }
        }
        m
    }
}

impl<I: StorageIterator> StorageIterator for MergeIterator<I> {
    open spec fn inv(&self) -> bool {
        self.wf()
    }

    open spec fn remaining(&self) -> Seq<Entry> {
        if self.has_current() {
            merged(self.streams())
        } else {
            seq![]
        }
    }

    /// None of the merged iterators fails.
    open spec fn never_fails(&self) -> bool {
        self.slots_never_fail()
    }

    fn key(&self) -> (k: &[u8]) {
        let c = self.current.unwrap();
        proof {
            self.lemma_current();
        }
        self.iters[c].as_ref().unwrap().key()
    }

    fn value(&self) -> (v: &[u8]) {
        let c = self.current.unwrap();
        proof {
            self.lemma_current();
        }
        self.iters[c].as_ref().unwrap().value()
    }

    fn is_valid(&self) -> (r: bool) {
        proof {
            if self.current is Some {
                self.lemma_current();
            }
        }
        self.current.is_some()
    }

    /// Moves every iterator at the current key past it, so that each key is output once, then
    /// picks the iterator that now comes first. An iterator that fails there is dropped, and the
    /// merge stops with its error.
    fn next(&mut self) -> (r: Result<(), StorageError>)
        ensures
            !old(self).has_current() ==> {
                &&& r is Ok
                &&& !final(self).has_current()
                &&& final(self).streams() == old(self).streams()
            },
            old(self).has_current() && r is Ok ==> {
                &&& final(self).streams() == advance_streams(old(self).streams(), old(self).remaining()[0].0)
                &&& final(self).has_current() == (min_stream(final(self).streams()) >= 0)
            },
            r is Err ==> {
                let s = old(self).streams();
                let k = old(self).remaining()[0].0;
                &&& old(self).has_current()
                &&& !old(self).never_fails()
                &&& !final(self).has_current()
                &&& exists|j: int|
                    0 <= j < s.len() && s[j].len() > 0 && s[j][0].0 == k
                        && #[trigger] final(self).streams()[j] == Seq::<Entry>::empty()
            },
    {
        let c = match self.current {
            Some(c) => c,
            None => {
                return Ok(());
            },
        };
        proof {
            self.lemma_current();
        }
        let ghost s = self.streams();
        let ghost k = s[c as int][0].0;
        let ghost old_iters = self.iters@;
        let ghost nf = self.slots_never_fail();
        assert(self.remaining()[0] == s[c as int][0]);
        let current_key = vstd::slice::slice_to_vec(self.iters[c].as_ref().unwrap().key());
        let n = self.iters.len();
        let mut i: usize = 0;
        while i < n
            invariant
                n == self.iters@.len(),
                n == s.len(),
                n == old_iters.len(),
                current_key@ == k,
                c < n,
                c == min_stream(s),
                s[c as int].len() > 0,
                self.current == Some(c),
                i <= n,
                forall|j: int| 0 <= j < n ==> #[trigger] slot_ok(self.iters@[j]),
                forall|j: int|
                    0 <= j < n ==> #[trigger] slot_stream(self.iters@[j]) == if j < i && j != c {
                        advance_streams(s, k)[j]
                    } else {
                        s[j]
                    },
                forall|j: int| i <= j < n || j == c ==> #[trigger] self.iters@[j] == old_iters[j],
                forall|j: int| 0 <= j < n ==> #[trigger] slot_stream(old_iters[j]) == s[j],
                nf == (forall|j: int| 0 <= j < n ==> #[trigger] slot_never_fails(old_iters[j])),
                old(self).iters@ == old_iters,
                old(self).current == Some(c),
                old(self).streams() == s,
                old(self).remaining().len() > 0,
                old(self).remaining()[0].0 == k,
                nf ==> forall|j: int| 0 <= j < n ==> #[trigger] slot_never_fails(self.iters@[j]),
            decreases n - i,
        {
            if i != c {
                let ghost before = self.iters@;
                proof {
                    assert(slot_ok(before[i as int]));
                    assert(slot_stream(before[i as int]) == s[i as int]);
                    assert(before[i as int] == old_iters[i as int]);
                }
                let slot = self.iters.remove(i);
                let new_slot: Option<Box<I>> = match slot {
                    Some(mut it) => {
                        proof {
                            if nf {
                                assert(slot_never_fails(old_iters[i as int]));
                            }
                        }
                        if key_equal(it.key(), current_key.as_slice()) {
                            match it.next() {
                                Ok(()) => {
                                    if it.is_valid() {
                                        Some(it)
                                    } else {
                                        None
                                    }
                                },
                                Err(e) => {
                                    self.iters.insert(i, None);
                                    self.current = None;
                                    proof {
                                        assert(!slot_never_fails(old_iters[i as int]));
                                        assert(!nf);
                                        assert(self.streams()[i as int] == Seq::<Entry>::empty());
                                        assert(s[i as int].len() > 0 && s[i as int][0].0 == k);
                                    }
                                    return Err(e);
                                },
                            }
                        } else {
                            Some(it)
                        }
                    },
                    None => None,
                };
                self.iters.insert(i, new_slot);
                proof {
                    assert(self.iters@ =~= before.update(i as int, self.iters@[i as int]));
                }
            }
            i = i + 1;
        }
        let ghost before = self.iters@;
        proof {
            assert(slot_ok(before[c as int]));
            assert(slot_stream(before[c as int]) == s[c as int]);
        }
        let slot = self.iters.remove(c);
        let mut it = slot.unwrap();
        let ghost was_nf = it.never_fails();
        proof {
            if nf {
                assert(slot_never_fails(old_iters[c as int]));
            }
        }
        let new_slot: Option<Box<I>> = match it.next() {
            Ok(()) => {
                if it.is_valid() {
                    Some(it)
                } else {
                    None
                }
            },
            Err(e) => {
                self.iters.insert(c, None);
                self.current = None;
                proof {
                    assert(!slot_never_fails(old_iters[c as int]));
                    assert(!nf);
                    assert(self.streams()[c as int] == Seq::<Entry>::empty());
                }
                return Err(e);
            },
        };
        self.iters.insert(c, new_slot);
        proof {
            assert(self.iters@ =~= before.update(c as int, self.iters@[c as int]));
            assert(before[c as int] == old_iters[c as int]);
            assert(slot_stream(self.iters@[c as int]) == s[c as int].skip(1));
            assert forall|j: int| 0 <= j < n implies #[trigger] self.streams()[j] == advance_streams(s, k)[j] by {
                if j != c {
                    assert(slot_stream(before[j]) == advance_streams(s, k)[j]);
                    assert(self.iters@[j] == before[j]);
                }
            }
            assert(self.streams() =~= advance_streams(s, k));
            assert((seq![s[c as int][0]] + merged(advance_streams(s, k))).skip(1) =~= merged(
                advance_streams(s, k),
            ));
            if nf {
                assert forall|j: int| 0 <= j < n implies #[trigger] slot_never_fails(self.iters@[j]) by {
                    if j != c {
                        assert(self.iters@[j] == before[j]);
                    }
                }
            }
        }
        self.current = self.find_first();
        Ok(())
    }
}

impl<I: StorageIterator> MergeIterator<I> {
    proof fn lemma_current(&self)
        requires
            self.wf(),
            self.current is Some,
        ensures
            ({
                let c = self.current->0;
                &&& 0 <= c < self.iters@.len()
                &&& self.iters@[c as int] is Some
                &&& self.iters@[c as int]->0.inv()
                &&& self.iters@[c as int]->0.remaining() == self.streams()[c as int]
                &&& self.streams()[c as int].len() > 0
                &&& merged(self.streams()) == seq![self.streams()[c as int][0]] + merged(
                    advance_streams(self.streams(), self.streams()[c as int][0].0),
                )
            }),
    {
        let s = self.streams();
        let c = self.current->0 as int;
        lemma_min_stream(s);
        assert(slot_ok(self.iters@[c]));
    }
}

} // verus!
