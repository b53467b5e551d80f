//! Big-endian integer framing, checksums, and the outside crate calls that do the work.
use vstd::prelude::*;

verus! {

/// The two big-endian bytes of `n`.
pub open spec fn u16_be(n: u16) -> Seq<u8> {
    seq![(n / 256) as u8, (n % 256) as u8]
}

/// The four big-endian bytes of `n`.
pub open spec fn u32_be(n: u32) -> Seq<u8> {
    seq![(n / 16777216) as u8, ((n / 65536) % 256) as u8, ((n / 256) % 256) as u8, (n % 256) as u8]
}

/// The number that two bytes spell in big-endian order.
pub open spec fn be16(hi: u8, lo: u8) -> u16 {
    (hi as int * 256 + lo as int) as u16
}

/// The big-endian `u16` that starts at `pos` in `s`.
pub open spec fn be16_at(s: Seq<u8>, pos: int) -> u16 {
    be16(s[pos], s[pos + 1])
}

pub proof fn lemma_u16_be_roundtrip(n: u16)
    ensures
        u16_be(n).len() == 2,
        be16(u16_be(n)[0], u16_be(n)[1]) == n,
{
}

/// `bytes::Bytes`, an immutable shared byte buffer.
#[verifier::external_type_specification]
#[verifier::external_body]
pub struct ExBytes(bytes::Bytes);

/// The bytes that a `bytes::Bytes` holds.
pub uninterp spec fn bytes_view(b: bytes::Bytes) -> Seq<u8>;

/// `bytes::Bytes::from(Vec<u8>)`: takes over the vector's bytes.
#[verifier::external_body]
pub fn bytes_from_vec(v: Vec<u8>) -> (b: bytes::Bytes)
    ensures
        bytes_view(b) == v@,
{
    bytes::Bytes::from(v)
}

/// `<bytes::Bytes as AsRef<[u8]>>::as_ref`: the held bytes as a slice.
#[verifier::external_body]
pub fn bytes_as_slice(b: &bytes::Bytes) -> (s: &[u8])
    ensures
        s@ == bytes_view(*b),
{
    b.as_ref()
}

/// `bytes::BufMut::put_slice` on a `Vec<u8>`: appends `src`.
#[verifier::external_body]
pub fn put_slice(buf: &mut Vec<u8>, src: &[u8])
    ensures
        final(buf)@ == old(buf)@ + src@,
{
    bytes::BufMut::put_slice(buf, src)
}

/// `bytes::BufMut::put_u32` on a `Vec<u8>`: appends the four big-endian bytes of `n`.
#[verifier::external_body]
pub fn put_u32(buf: &mut Vec<u8>, n: u32)
    ensures
        final(buf)@ == old(buf)@ + u32_be(n),
{
    bytes::BufMut::put_u32(buf, n)
}

/// `bytes::Buf::get_u16` on a byte slice: the big-endian `u16` at its start.
#[verifier::external_body]
pub fn get_u16(buf: &[u8]) -> (n: u16)
    requires
        buf@.len() >= 2,
    ensures
        n == be16(buf@[0], buf@[1]),
{
    let mut b = buf;
    bytes::Buf::get_u16(&mut b)
}

/// The big-endian `u16` stored at `pos` in `data`.
pub fn read_u16(data: &[u8], pos: usize) -> (n: u16)
    requires
        pos + 2 <= data@.len(),
    ensures
        n == be16_at(data@, pos as int),
{
    let len = data.len();
    assert(len == data@.len());
    let s = &data[pos..pos + 2];
    get_u16(s)
}

/// The CRC-32 checksum of `data`, as `crc32fast::hash` computes it.
pub uninterp spec fn crc32_of(data: Seq<u8>) -> u32;

/// `crc32fast::hash`: the CRC-32 checksum of `data`. Only that it is a function of the bytes is
/// stated, not which checksum it is.
#[verifier::external_body]
pub fn crc32_hash(data: &[u8]) -> (c: u32)
    ensures
        c == crc32_of(data@),
{
    crc32fast::hash(data)
}

/// `bytes::BufMut::put_u16` on a `Vec<u8>`: appends the two big-endian bytes of `n`.
#[verifier::external_body]
pub fn put_u16(buf: &mut Vec<u8>, n: u16)
    ensures
        final(buf)@ == old(buf)@ + u16_be(n),
{
    bytes::BufMut::put_u16(buf, n)
}

} // verus!
