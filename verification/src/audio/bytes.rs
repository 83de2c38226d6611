//! Fixed-width integers read from byte sequences, little- and big-endian.

use vstd::prelude::*;

verus! {

/// Unsigned 16-bit little-endian value of `d[i..i + 2]`.
pub open spec fn le_u16(d: Seq<u8>, i: int) -> int {
    d[i] + 256 * d[i + 1]
}

/// Unsigned 32-bit little-endian value of `d[i..i + 4]`.
pub open spec fn le_u32(d: Seq<u8>, i: int) -> int {
    d[i] + 256 * d[i + 1] + 65536 * d[i + 2] + 16777216 * d[i + 3]
}

/// Unsigned 16-bit big-endian value of `d[i..i + 2]`.
pub open spec fn be_u16(d: Seq<u8>, i: int) -> int {
    256 * d[i] + d[i + 1]
}

/// Unsigned 32-bit big-endian value of `d[i..i + 4]`.
pub open spec fn be_u32(d: Seq<u8>, i: int) -> int {
    16777216 * d[i] + 65536 * d[i + 1] + 256 * d[i + 2] + d[i + 3]
}

/// Unsigned 64-bit big-endian value of `d[i..i + 8]`.
pub open spec fn be_u64(d: Seq<u8>, i: int) -> int {
    be_u32(d, i) * 4294967296 + be_u32(d, i + 4)
}

/// The four bytes at `d[i..i + 4]` are `t0 t1 t2 t3`.
pub open spec fn tag_at(d: Seq<u8>, i: int, t0: u8, t1: u8, t2: u8, t3: u8) -> bool {
    &&& 0 <= i
    &&& i + 4 <= d.len()
    &&& d[i] == t0
    &&& d[i + 1] == t1
    &&& d[i + 2] == t2
    &&& d[i + 3] == t3
}

pub fn read_le_u16(d: &[u8], i: usize) -> (r: u16)
    requires
        i + 2 <= d.len(),
    ensures
        r == le_u16(d@, i as int),
{
    d[i] as u16 + (d[i + 1] as u16) * 256
}

pub fn read_le_u32(d: &[u8], i: usize) -> (r: u32)
    requires
        i + 4 <= d.len(),
    ensures
        r == le_u32(d@, i as int),
{
    d[i] as u32 + (d[i + 1] as u32) * 256 + (d[i + 2] as u32) * 65536 + (d[i + 3] as u32)
        * 16777216
}

pub fn read_be_u16(d: &[u8], i: usize) -> (r: u16)
    requires
        i + 2 <= d.len(),
    ensures
        r == be_u16(d@, i as int),
{
    (d[i] as u16) * 256 + d[i + 1] as u16
}

pub fn read_be_u32(d: &[u8], i: usize) -> (r: u32)
    requires
        i + 4 <= d.len(),
    ensures
        r == be_u32(d@, i as int),
{
    (d[i] as u32) * 16777216 + (d[i + 1] as u32) * 65536 + (d[i + 2] as u32) * 256 + d[i
        + 3] as u32
}

pub fn read_be_u64(d: &[u8], i: usize) -> (r: u64)
    requires
        i + 8 <= d.len(),
    ensures
        r == be_u64(d@, i as int),
{
    let hi = read_be_u32(d, i) as u64;
    let lo = read_be_u32(d, i + 4) as u64;
    hi * 4294967296 + lo
}

/// Whether `d[i..i + 4]` holds the tag `t0 t1 t2 t3`.
pub fn has_tag(d: &[u8], i: usize, t0: u8, t1: u8, t2: u8, t3: u8) -> (r: bool)
    requires
        i + 4 <= d.len(),
    ensures
        r == tag_at(d@, i as int, t0, t1, t2, t3),
{
    d[i] == t0 && d[i + 1] == t1 && d[i + 2] == t2 && d[i + 3] == t3
}

/// An IFF or RIFF chunk: its tag `id`, the four little-endian bytes `size` of its
/// declared size, its body, and a pad byte `pad` after a body of odd length.
pub open spec fn chunk_bytes(id: Seq<u8>, size: Seq<u8>, body: Seq<u8>, pad: u8) -> Seq<u8> {
    id + size + body + if body.len() % 2 == 1 {
        seq![pad]
    } else {
        Seq::<u8>::empty()
    }
}

/// `d` with `chunk` inserted right after its 12-byte header.
pub open spec fn with_chunk_after_header(d: Seq<u8>, chunk: Seq<u8>) -> Seq<u8> {
    d.subrange(0, 12) + chunk + d.subrange(12, d.len() as int)
}

/// A byte range moved `l` bytes on.
pub open spec fn shifted_range(a: Option<(int, int)>, l: int) -> Option<(int, int)> {
    match a {
        Some((s, e)) => Some((s + l, e + l)),
        None => None,
    }
}

/// The bytes of the chunks `cs` in order, each given as its tag, its four
/// size bytes, its body and the pad byte that follows an odd body.
pub open spec fn chunks_bytes(cs: Seq<(Seq<u8>, Seq<u8>, Seq<u8>, u8)>) -> Seq<u8>
    decreases cs.len(),
{
    if cs.len() == 0 {
        Seq::empty()
    } else {
        chunk_bytes(cs[0].0, cs[0].1, cs[0].2, cs[0].3) + chunks_bytes(cs.drop_first())
    }
}

} // verus!
