//! Keys are byte strings ordered lexicographically.
use vstd::prelude::*;

verus! {

/// Length of the longest common prefix of `a` and `b`, counting from position `i` on.
pub open spec fn common_prefix_from(a: Seq<u8>, b: Seq<u8>, i: int) -> int
    decreases a.len() - i,
{
    if 0 <= i < a.len() && i < b.len() && a[i] == b[i] {
        common_prefix_from(a, b, i + 1)
    } else {
        i
    }
}

/// Length of the longest common prefix of `a` and `b`.
pub open spec fn common_prefix_len(a: Seq<u8>, b: Seq<u8>) -> int {
    common_prefix_from(a, b, 0)
}

/// Lexicographic byte order: `a` sorts strictly before `b`.
pub open spec fn key_lt(a: Seq<u8>, b: Seq<u8>) -> bool {
    let n = common_prefix_len(a, b);
    if n < a.len() && n < b.len() {
        a[n] < b[n]
    } else {
        n == a.len() && n < b.len()
    }
}

/// Keys strictly rise from each entry to every later one.
pub open spec fn keys_increasing(es: Seq<(Seq<u8>, Seq<u8>)>) -> bool {
    forall|i: int, j: int| 0 <= i < j < es.len() ==> key_lt(#[trigger] es[i].0, #[trigger] es[j].0)
}

proof fn lemma_common_prefix_from(a: Seq<u8>, b: Seq<u8>, i: int)
    requires
        0 <= i <= a.len(),
        i <= b.len(),
        forall|j: int| 0 <= j < i ==> a[j] == b[j],
    ensures
        i <= common_prefix_from(a, b, i) <= a.len(),
        common_prefix_from(a, b, i) <= b.len(),
        forall|j: int| 0 <= j < common_prefix_from(a, b, i) ==> a[j] == b[j],
        common_prefix_from(a, b, i) == a.len() || common_prefix_from(a, b, i) == b.len() || a[common_prefix_from(a, b, i)] != b[common_prefix_from(a, b, i)],
    decreases a.len() - i,
{
    if i < a.len() && i < b.len() && a[i] == b[i] {
        lemma_common_prefix_from(a, b, i + 1);
    }
}

/// The common prefix length is the first position where the two strings differ or one ends.
pub proof fn lemma_common_prefix(a: Seq<u8>, b: Seq<u8>)
    ensures
        0 <= common_prefix_len(a, b) <= a.len(),
        common_prefix_len(a, b) <= b.len(),
        forall|j: int| 0 <= j < common_prefix_len(a, b) ==> a[j] == b[j],
        a.take(common_prefix_len(a, b)) == b.take(common_prefix_len(a, b)),
        common_prefix_len(a, b) == a.len() || common_prefix_len(a, b) == b.len() || a[common_prefix_len(a, b)] != b[common_prefix_len(a, b)],
{
    lemma_common_prefix_from(a, b, 0);
    assert(a.take(common_prefix_len(a, b)) =~= b.take(common_prefix_len(a, b)));
}

/// Any position before which the two strings agree, and at which they differ or one ends,
/// is the common prefix length.
pub proof fn lemma_common_prefix_unique(a: Seq<u8>, b: Seq<u8>, n: int)
    requires
        0 <= n <= a.len(),
        n <= b.len(),
        forall|j: int| 0 <= j < n ==> a[j] == b[j],
        n == a.len() || n == b.len() || a[n] != b[n],
    ensures
        common_prefix_len(a, b) == n,
{
    lemma_common_prefix(a, b);
    let m = common_prefix_len(a, b);
    if m < n {
        assert(a[m] == b[m]);
    }
    if n < m {
        assert(a[n] == b[n]);
    }
}

pub proof fn lemma_common_prefix_symmetric(a: Seq<u8>, b: Seq<u8>)
    ensures
        common_prefix_len(a, b) == common_prefix_len(b, a),
{
    lemma_common_prefix(a, b);
    lemma_common_prefix_unique(b, a, common_prefix_len(a, b));
}

/// The strict order is irreflexive and total over distinct keys.
pub proof fn lemma_key_lt_trichotomy(a: Seq<u8>, b: Seq<u8>)
    ensures
        !key_lt(a, a),
        a != b ==> (key_lt(a, b) || key_lt(b, a)),
        !(key_lt(a, b) && key_lt(b, a)),
{
    lemma_common_prefix(a, a);
    lemma_common_prefix(a, b);
    lemma_common_prefix_symmetric(a, b);
    let n = common_prefix_len(a, b);
    if n == a.len() && n == b.len() {
        assert(a =~= b);
    }
}

/// The strict order is transitive.
pub proof fn lemma_key_lt_transitive(a: Seq<u8>, b: Seq<u8>, c: Seq<u8>)
    requires
        key_lt(a, b),
        key_lt(b, c),
    ensures
        key_lt(a, c),
{
    lemma_common_prefix(a, b);
    lemma_common_prefix(b, c);
    lemma_common_prefix(a, c);
    let p = common_prefix_len(a, b);
    let q = common_prefix_len(b, c);
    let m = if p < q { p } else { q };
    assert forall|j: int| 0 <= j < m implies a[j] == c[j] by {
        assert(a[j] == b[j]);
        assert(b[j] == c[j]);
    }
    if p < q {
        // a and c first differ where a and b do
        assert(p < b.len());
        if p < a.len() {
            assert(a[p] < b[p] && b[p] == c[p]);
            lemma_common_prefix_unique(a, c, p);
        } else {
            lemma_common_prefix_unique(a, c, p);
        }
    } else if q < p {
        assert(q < c.len() && q < b.len());
        assert(b[q] < c[q] && a[q] == b[q]);
        lemma_common_prefix_unique(a, c, q);
    } else {
        // p == q
        assert(p < b.len());
        if p < a.len() {
            assert(a[p] < b[p]);
            assert(p < c.len());
            assert(b[p] < c[p]);
            lemma_common_prefix_unique(a, c, p);
        } else {
            assert(p < c.len());
            lemma_common_prefix_unique(a, c, p);
        }
    }
}

/// Keys are ordered byte by byte, bytes taken as unsigned numbers 0..=255: where `a` and `b`
/// first differ, at position `i`, `a` sorts before `b` exactly when its byte there is smaller.
pub proof fn lemma_key_lt_first_difference(a: Seq<u8>, b: Seq<u8>, i: int)
    requires
        0 <= i < a.len(),
        i < b.len(),
        forall|j: int| 0 <= j < i ==> a[j] == b[j],
        a[i] != b[i],
    ensures
        key_lt(a, b) <==> (a[i] as int) < (b[i] as int),
        key_lt(b, a) <==> (b[i] as int) < (a[i] as int),
{
    lemma_common_prefix_unique(a, b, i);
    lemma_common_prefix_unique(b, a, i);
}

/// A key sorts before every longer key that it begins, and never after one.
pub proof fn lemma_key_lt_proper_prefix(a: Seq<u8>, b: Seq<u8>)
    requires
        a.len() < b.len(),
        b.take(a.len() as int) == a,
    ensures
        key_lt(a, b),
        !key_lt(b, a),
{
    assert forall|j: int| 0 <= j < a.len() implies a[j] == b[j] by {
        assert(b.take(a.len() as int)[j] == b[j]);
    }
    lemma_common_prefix_unique(a, b, a.len() as int);
    lemma_common_prefix_unique(b, a, a.len() as int);
}

/// Counts the leading bytes that `a` and `b` share.
pub fn compute_overlap(a: &[u8], b: &[u8]) -> (n: usize)
    ensures
        n == common_prefix_len(a@, b@),
{
    let mut i: usize = 0;
    while i < a.len() && i < b.len() && a[i] == b[i]
        invariant
            i <= a@.len(),
            i <= b@.len(),
            forall|j: int| 0 <= j < i ==> a@[j] == b@[j],
        decreases a@.len() - i,
    {
        i = i + 1;
    }
    proof {
        lemma_common_prefix_unique(a@, b@, i as int);
    }
    i
}

/// Whether `a` sorts strictly before `b`.
pub fn key_less(a: &[u8], b: &[u8]) -> (r: bool)
    ensures
        r == key_lt(a@, b@),
{
    let n = compute_overlap(a, b);
    if n < a.len() && n < b.len() {
        a[n] < b[n]
    } else {
        n == a.len() && n < b.len()
    }
}

/// Whether `a` and `b` are the same key.
pub fn key_equal(a: &[u8], b: &[u8]) -> (r: bool)
    ensures
        r == (a@ == b@),
{
    let n = compute_overlap(a, b);
    proof {
        lemma_common_prefix(a@, b@);
        if n == a.len() && n == b.len() {
            assert(a@ =~= b@);
        }
    }
    n == a.len() && n == b.len()
}

} // verus!
