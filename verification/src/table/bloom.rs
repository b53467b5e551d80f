//! A bloom filter over the keys of a table: a bit array in which every key sets `k` bits, so
//! that a key whose bits are not all set is certainly absent.
//!
//! Encoded layout: `filter | k (u8) | checksum (u32)`, the checksum being the CRC-32 of the
//! filter and `k`.
use vstd::prelude::*;
use crate::codec::{crc32_hash, crc32_of, put_slice, put_u32, u32_be};

verus! {

/// The 32-bit fingerprint of `key`, as `farmhash::fingerprint32` computes it.
pub uninterp spec fn fingerprint32_of(key: Seq<u8>) -> u32;

/// `farmhash::fingerprint32`: the 32-bit fingerprint of `key`. Only that it is a function of the
/// bytes is stated, not which function.
#[verifier::external_body]
pub fn key_fingerprint(key: &[u8]) -> (h: u32)
    ensures
        h == fingerprint32_of(key@),
{
    farmhash::fingerprint32(key)
}

/// `h` rotated left by 15 bits.
pub open spec fn rotl15(h: u32) -> u32 {
    (h << 15u32) | (h >> 17u32)
}

/// The `j`-th probe of hash `h`: `h + j * rotl15(h)`, wrapping modulo 2^32.
pub open spec fn probe(h: u32, j: int) -> u32
    decreases j,
{
    if j <= 0 {
        h
    } else {
        let s = probe(h, j - 1) + rotl15(h);
        if s > u32::MAX {
            (s - 0x1_0000_0000) as u32
        } else {
            s as u32
        }
    }
}

/// The number of probes per key: 0.69 times `bits_per_key`, rounded down, kept within 1..=30.
pub open spec fn bloom_k(bits_per_key: int) -> int {
    let k = bits_per_key * 69 / 100;
    if k < 1 {
        1
    } else if k > 30 {
        30
    } else {
        k
    }
}

/// The number of bits of the filter for `n` keys: `bits_per_key` per key, at least 64,
/// rounded up to whole bytes.
pub open spec fn bloom_nbits(n: int, bits_per_key: int) -> int {
    let m = if n * bits_per_key < 64 {
        64
    } else {
        n * bits_per_key
    };
    (m + 7) / 8 * 8
}

/// Some hash of `hashes` sets bit `p`: one of its first `k` probes, modulo `nbits`, is `p`.
pub open spec fn bit_set_by(hashes: Seq<u32>, k: int, nbits: int, p: int) -> bool {
    exists|i: int, j: int|
        0 <= i < hashes.len() && 0 <= j < k && #[trigger] probe(hashes[i], j) as int % nbits == p
}

/// Bit `p` of `filter`: bit `p % 8` of byte `p / 8`.
pub open spec fn get_bit(filter: Seq<u8>, p: int) -> bool {
    (filter[p / 8] >> ((p % 8) as u8)) & 1u8 == 1u8
}

/// `filter` has `nbits` bits, and exactly those that the hashes probe are set.
pub open spec fn is_bloom_of(filter: Seq<u8>, hashes: Seq<u32>, k: int, nbits: int) -> bool {
    &&& filter.len() * 8 == nbits
    &&& forall|p: int| 0 <= p < nbits ==> (#[trigger] get_bit(filter, p) <==> bit_set_by(hashes, k, nbits, p))
}

/// The encoded form of a filter and its number of probes, with its checksum.
pub open spec fn bloom_section(filter: Seq<u8>, k: u8) -> Seq<u8> {
    filter + seq![k] + u32_be(crc32_of(filter + seq![k]))
}

/// A filter has no false negatives: every bit that a hash of its keys probes is set.
pub proof fn lemma_bloom_no_false_negatives(filter: Seq<u8>, hashes: Seq<u32>, k: int, nbits: int, i: int, j: int)
    requires
        is_bloom_of(filter, hashes, k, nbits),
        nbits > 0,
        0 <= i < hashes.len(),
        0 <= j < k,
    ensures
        get_bit(filter, probe(hashes[i], j) as int % nbits),
{
    let p = probe(hashes[i], j) as int % nbits;
    assert(0 <= p < nbits);
    assert(bit_set_by(hashes, k, nbits, p));
}

/// A bloom filter.
pub struct Bloom {
    /// The bit array, eight bits to a byte.
    pub filter: Vec<u8>,
    /// The number of bits each key sets.
    pub k: u8,
}

proof fn lemma_set_bit(x: u8, t: u8, s: u8)
    requires
        t < 8,
        s < 8,
    ensures
        ((x | (1u8 << t)) >> s) & 1u8 == 1u8 <==> (s == t || (x >> s) & 1u8 == 1u8),
{
    assert(((x | (1u8 << t)) >> s) & 1u8 == 1u8 <==> (s == t || (x >> s) & 1u8 == 1u8))
        by (bit_vector)
        requires
            t < 8,
            s < 8,
    ;
}

proof fn lemma_zero_bits(s: u8)
    ensures
        (0u8 >> s) & 1u8 != 1u8,
{
    assert((0u8 >> s) & 1u8 != 1u8) by (bit_vector);
}

/// A hash appended to the list adds exactly the bits its own probes land on.
proof fn lemma_bit_set_by_push(hashes: Seq<u32>, h: u32, k: int, nbits: int, p: int)
    ensures
        bit_set_by(hashes.push(h), k, nbits, p) <==> (bit_set_by(hashes, k, nbits, p) || exists|j: int|
            0 <= j < k && #[trigger] probe(h, j) as int % nbits == p),
{
    let hs = hashes.push(h);
    if bit_set_by(hs, k, nbits, p) {
        let (i, j) = choose|i: int, j: int|
            0 <= i < hs.len() && 0 <= j < k && #[trigger] probe(hs[i], j) as int % nbits == p;
        if i < hashes.len() {
            assert(hs[i] == hashes[i]);
            assert(probe(hashes[i], j) as int % nbits == p);
        } else {
            assert(hs[i] == h);
            assert(probe(h, j) as int % nbits == p);
        }
    }
    if bit_set_by(hashes, k, nbits, p) {
        let (i, j) = choose|i: int, j: int|
            0 <= i < hashes.len() && 0 <= j < k && #[trigger] probe(hashes[i], j) as int % nbits == p;
        assert(hs[i] == hashes[i]);
        assert(probe(hs[i], j) as int % nbits == p);
    }
    if exists|j: int| 0 <= j < k && #[trigger] probe(h, j) as int % nbits == p {
        let j = choose|j: int| 0 <= j < k && #[trigger] probe(h, j) as int % nbits == p;
        let i = hashes.len() as int;
        assert(hs[i] == h);
        assert(probe(hs[i], j) as int % nbits == p);
    }
}

/// Sets bit `pos` of `filter`.
fn set_bit(filter: &mut Vec<u8>, pos: usize)
    requires
        pos < old(filter)@.len() * 8,
    ensures
        final(filter)@.len() == old(filter)@.len(),
        forall|p: int|
            0 <= p < old(filter)@.len() * 8 ==> (#[trigger] get_bit(final(filter)@, p) <==> (get_bit(
                old(filter)@,
                p,
            ) || p == pos)),
{
    let idx = pos / 8;
    let byte = filter[idx];
    let t = (pos % 8) as u8;
    filter.set(idx, byte | (1u8 << t));
    proof {
        assert forall|p: int| 0 <= p < old(filter)@.len() * 8 implies (#[trigger] get_bit(filter@, p) <==> (
        get_bit(old(filter)@, p) || p == pos)) by {
            let s = (p % 8) as u8;
            if p / 8 == idx {
                lemma_set_bit(byte, t, s);
                assert(filter@[p / 8] == byte | (1u8 << t));
                assert((s == t) <==> (p == pos));
            } else {
                assert(filter@[p / 8] == old(filter)@[p / 8]);
                assert(p != pos);
            }
        }
    }
}

impl Bloom {
    /// Builds a filter from the hashes of the keys, with `bits_per_key` bits per key: each hash
    /// `h` sets its first `k` probes `h, h + d, h + 2d, ..` (with `d = h` rotated left by 15
    /// bits, wrapping), each taken modulo the number of bits.
    pub fn build_from_key_hashes(keys: &[u32], bits_per_key: usize) -> (b: Self)
        requires
            keys@.len() * bits_per_key + 64 <= usize::MAX,
        ensures
            b.k == bloom_k(bits_per_key as int),
            is_bloom_of(b.filter@, keys@, b.k as int, bloom_nbits(keys@.len() as int, bits_per_key as int)),
    {
        let k: u8 = if bits_per_key > 100 {
            30
        } else {
            let k0 = bits_per_key * 69 / 100;
            if k0 < 1 {
                1
            } else if k0 > 30 {
                30
            } else {
                k0 as u8
            }
        };
        let m0 = keys.len() * bits_per_key;
        let m = if m0 < 64 {
            64
        } else {
            m0
        };
        let nbytes = (m + 7) / 8;
        let nbits = nbytes * 8;
        let mut filter: Vec<u8> = Vec::new();
        while filter.len() < nbytes
            invariant
                filter@.len() <= nbytes,
                forall|q: int| 0 <= q < filter@.len() ==> #[trigger] filter@[q] == 0u8,
            decreases nbytes - filter@.len(),
        {
            filter.push(0u8);
        }
        proof {
            assert forall|p: int| 0 <= p < nbits implies !#[trigger] get_bit(filter@, p)
                && !bit_set_by(keys@.take(0), k as int, nbits as int, p) by {
                assert(filter@[p / 8] == 0u8);
                lemma_zero_bits((p % 8) as u8);
            }
        }
        let mut i: usize = 0;
        while i < keys.len()
            invariant
                1 <= k <= 30,
                nbits > 0,
                filter@.len() * 8 == nbits,
                i <= keys@.len(),
                forall|p: int|
                    0 <= p < nbits ==> (#[trigger] get_bit(filter@, p) <==> bit_set_by(
                        keys@.take(i as int),
                        k as int,
                        nbits as int,
                        p,
                    )),
            decreases keys@.len() - i,
        {
            let h0 = keys[i];
            let delta = (h0 << 15u32) | (h0 >> 17u32);
            let mut h = h0;
            let mut j: u8 = 0;
            while j < k
                invariant
                    1 <= k <= 30,
                    nbits > 0,
                    filter@.len() * 8 == nbits,
                    i < keys@.len(),
                    h0 == keys@[i as int],
                    delta == rotl15(h0),
                    j <= k,
                    h == probe(h0, j as int),
                    forall|p: int|
                        0 <= p < nbits ==> (#[trigger] get_bit(filter@, p) <==> (bit_set_by(
                            keys@.take(i as int),
                            k as int,
                            nbits as int,
                            p,
                        ) || exists|j2: int| 0 <= j2 < j && #[trigger] probe(h0, j2) as int % (nbits as int) == p)),
                decreases k - j,
            {
                let pos = (h as usize) % nbits;
                let ghost before = filter@;
                set_bit(&mut filter, pos);
                proof {
                    assert forall|p: int| 0 <= p < nbits implies (#[trigger] get_bit(filter@, p) <==> (
                    bit_set_by(keys@.take(i as int), k as int, nbits as int, p) || exists|j2: int|
                        0 <= j2 < j + 1 && #[trigger] probe(h0, j2) as int % (nbits as int) == p)) by {
                        assert(get_bit(filter@, p) <==> (get_bit(before, p) || p == pos));
                        if p == pos {
                            assert(probe(h0, j as int) as int % (nbits as int) == p);
                        }
                        if exists|j2: int| 0 <= j2 < j + 1 && #[trigger] probe(h0, j2) as int % (nbits as int) == p {
                            let j2 = choose|j2: int| 0 <= j2 < j + 1 && #[trigger] probe(h0, j2) as int % (nbits as int) == p;
                            if j2 < j {
                                assert(exists|j3: int| 0 <= j3 < j && #[trigger] probe(h0, j3) as int % (nbits as int) == p);
                            }
                        }
                        if exists|j3: int| 0 <= j3 < j && #[trigger] probe(h0, j3) as int % (nbits as int) == p {
                            let j3 = choose|j3: int| 0 <= j3 < j && #[trigger] probe(h0, j3) as int % (nbits as int) == p;
                            assert(0 <= j3 < j + 1);
                        }
                    }
                }
                h = h.wrapping_add(delta);
                j = j + 1;
            }
            proof {
                assert(keys@.take(i + 1) =~= keys@.take(i as int).push(h0));
                assert forall|p: int| 0 <= p < nbits implies (#[trigger] get_bit(filter@, p) <==> bit_set_by(
                    keys@.take(i + 1),
                    k as int,
                    nbits as int,
                    p,
                )) by {
                    lemma_bit_set_by_push(keys@.take(i as int), h0, k as int, nbits as int, p);
                }
            }
            i = i + 1;
        }
        proof {
            assert(keys@.take(keys@.len() as int) =~= keys@);
        }
        Bloom { filter, k }
    }

    /// Appends the encoded filter: its bits, `k`, and the CRC-32 of both.
    pub fn encode(&self, buf: &mut Vec<u8>)
        ensures
            final(buf)@ == old(buf)@ + bloom_section(self.filter@, self.k),
    {
        let offset = buf.len();
        put_slice(buf, self.filter.as_slice());
        buf.push(self.k);
        let end = buf.len();
        let checksum = crc32_hash(&buf.as_slice()[offset..end]);
        proof {
            assert(buf@.subrange(offset as int, end as int) =~= self.filter@ + seq![self.k]);
        }
        put_u32(buf, checksum);
        proof {
            assert(buf@ =~= old(buf)@ + bloom_section(self.filter@, self.k));
        }
    }
}

} // verus!
