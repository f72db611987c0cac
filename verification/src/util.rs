//! Fixed big-endian conversions between unsigned integers and byte vectors.
//!
//! Every on-disk integer in the engine (block ids, record sizes, checkpoint
//! ids) is stored big-endian with a fixed width.  The spec functions below
//! are the single definition of those encodings; the executable converters
//! return exactly them.

use vstd::prelude::*;

verus! {

/// The two-byte big-endian encoding of a `u16`.
pub open spec fn spec_u16_bytes(u: u16) -> Seq<u8> {
    seq![(u / 256) as u8, (u % 256) as u8]
}

/// The `u16` denoted by two big-endian bytes.
pub open spec fn spec_bytes_u16(s: Seq<u8>) -> u16
    recommends
        s.len() == 2,
{
    (s[0] * 256 + s[1]) as u16
}

/// The four-byte big-endian encoding of a `u32`.
pub open spec fn spec_u32_bytes(u: u32) -> Seq<u8> {
    seq![
        (u / 0x1000000) as u8,
        ((u / 0x10000) % 256) as u8,
        ((u / 256) % 256) as u8,
        (u % 256) as u8,
    ]
}

/// The `u32` denoted by four big-endian bytes.
pub open spec fn spec_bytes_u32(s: Seq<u8>) -> u32
    recommends
        s.len() == 4,
{
    (s[0] * 0x1000000 + s[1] * 0x10000 + s[2] * 256 + s[3]) as u32
}

/// The eight-byte big-endian encoding of a `u64`.
pub open spec fn spec_u64_bytes(u: u64) -> Seq<u8> {
    seq![
        (u / 0x100000000000000) as u8,
        ((u / 0x1000000000000) % 256) as u8,
        ((u / 0x10000000000) % 256) as u8,
        ((u / 0x100000000) % 256) as u8,
        ((u / 0x1000000) % 256) as u8,
        ((u / 0x10000) % 256) as u8,
        ((u / 256) % 256) as u8,
        (u % 256) as u8,
    ]
}

/// The `u64` denoted by eight big-endian bytes.
pub open spec fn spec_bytes_u64(s: Seq<u8>) -> u64
    recommends
        s.len() == 8,
{
    (s[0] * 0x100000000000000 + s[1] * 0x1000000000000 + s[2] * 0x10000000000
        + s[3] * 0x100000000 + s[4] * 0x1000000 + s[5] * 0x10000 + s[6] * 256 + s[7]) as u64
}

/// Decoding inverts encoding for every `u16`.
pub proof fn lemma_u16_round_trip(u: u16)
    ensures
        spec_bytes_u16(spec_u16_bytes(u)) == u,
{
}

/// Decoding inverts encoding for every `u32`.
pub proof fn lemma_u32_round_trip(u: u32)
    ensures
        spec_bytes_u32(spec_u32_bytes(u)) == u,
{
    assert(spec_bytes_u32(spec_u32_bytes(u)) == u) by (nonlinear_arith);
}

/// Decoding inverts encoding for every `u64`.
pub proof fn lemma_u64_round_trip(u: u64)
    ensures
        spec_bytes_u64(spec_u64_bytes(u)) == u,
{
    assert((u / 0x100000000000000) * 0x100000000000000
        + ((u / 0x1000000000000) % 256) * 0x1000000000000
        + ((u / 0x10000000000) % 256) * 0x10000000000
        + ((u / 0x100000000) % 256) * 0x100000000 + ((u / 0x1000000) % 256) * 0x1000000
        + ((u / 0x10000) % 256) * 0x10000 + ((u / 256) % 256) * 256 + (u % 256) == u
        && u / 0x100000000000000 < 256) by (bit_vector);
}

/// Encoding inverts decoding for every two-byte sequence.
pub proof fn lemma_u16_bytes_round_trip(s: Seq<u8>)
    requires
        s.len() == 2,
    ensures
        spec_u16_bytes(spec_bytes_u16(s)) =~= s,
{
}

pub fn bytes_to_u8(data: &[u8]) -> (r: u8)
    requires
        data@.len() == 1,
    ensures
        r == data@[0],
{
    data[0]
}

pub fn u8_to_bytes(u: u8) -> (r: Vec<u8>)
    ensures
        r@ =~= seq![u],
{
    let mut v: Vec<u8> = Vec::new();
    v.push(u);
    v
}

pub fn bytes_to_u16(data: &[u8]) -> (r: u16)
    requires
        data@.len() == 2,
    ensures
        r == spec_bytes_u16(data@),
{
    (data[0] as u16) * 256 + (data[1] as u16)
}

pub fn u16_to_bytes(u: u16) -> (r: Vec<u8>)
    ensures
        r@ =~= spec_u16_bytes(u),
{
    let mut v: Vec<u8> = Vec::new();
    v.push((u / 256) as u8);
    v.push((u % 256) as u8);
    v
}

pub fn bytes_to_u32(data: &[u8]) -> (r: u32)
    requires
        data@.len() == 4,
    ensures
        r == spec_bytes_u32(data@),
{
    (data[0] as u32) * 0x1000000 + (data[1] as u32) * 0x10000 + (data[2] as u32) * 256
        + (data[3] as u32)
}

pub fn u32_to_bytes(u: u32) -> (r: Vec<u8>)
    ensures
        r@ =~= spec_u32_bytes(u),
{
    let mut v: Vec<u8> = Vec::new();
    v.push((u / 0x1000000) as u8);
    v.push(((u / 0x10000) % 256) as u8);
    v.push(((u / 256) % 256) as u8);
    v.push((u % 256) as u8);
    v
}

pub fn bytes_to_u64(data: &[u8]) -> (r: u64)
    requires
        data@.len() == 8,
    ensures
        r == spec_bytes_u64(data@),
{
    (data[0] as u64) * 0x100000000000000 + (data[1] as u64) * 0x1000000000000
        + (data[2] as u64) * 0x10000000000 + (data[3] as u64) * 0x100000000
        + (data[4] as u64) * 0x1000000 + (data[5] as u64) * 0x10000 + (data[6] as u64) * 256
        + (data[7] as u64)
}

pub fn u64_to_bytes(u: u64) -> (r: Vec<u8>)
    ensures
        r@ =~= spec_u64_bytes(u),
{
    let mut v: Vec<u8> = Vec::new();
    v.push((u / 0x100000000000000) as u8);
    v.push(((u / 0x1000000000000) % 256) as u8);
    v.push(((u / 0x10000000000) % 256) as u8);
    v.push(((u / 0x100000000) % 256) as u8);
    v.push(((u / 0x1000000) % 256) as u8);
    v.push(((u / 0x10000) % 256) as u8);
    v.push(((u / 256) % 256) as u8);
    v.push((u % 256) as u8);
    v
}

/// Copy `len` bytes out of `src` starting at `off`.
pub fn read_bytes(src: &Vec<u8>, off: usize, len: usize) -> (r: Vec<u8>)
    requires
        off + len <= src@.len(),
    ensures
        r@ == src@.subrange(off as int, off + len),
{
    let srclen = src.len();
    let mut out: Vec<u8> = Vec::new();
    let mut i: usize = 0;
    while i < len
        invariant
            i <= len,
            srclen == src@.len(),
            off + len <= src@.len(),
            out@ =~= src@.subrange(off as int, off + i),
        decreases len - i,
    {
        out.push(src[off + i]);
        i = i + 1;
        assert(out@ =~= src@.subrange(off as int, off + i));
    }
    out
}

/// Overwrite the bytes of `dst` at `off` with the contents of `src`;
/// every byte outside the written window keeps its value.
pub fn write_bytes(dst: &mut Vec<u8>, off: usize, src: &Vec<u8>)
    requires
        off + src@.len() <= old(dst)@.len(),
    ensures
        final(dst)@.len() == old(dst)@.len(),
        forall|i: int|
            0 <= i < final(dst)@.len() ==> final(dst)@[i] == if off <= i < off + src@.len() {
                src@[i - off]
            } else {
                old(dst)@[i]
            },
{
    let n = src.len();
    let dlen = dst.len();
    let mut j: usize = 0;
    while j < n
        invariant
            j <= n,
            n == src@.len(),
            dlen == dst@.len(),
            off + n <= dst@.len(),
            dst@.len() == old(dst)@.len(),
            forall|i: int|
                0 <= i < dst@.len() ==> dst@[i] == if off <= i < off + j { src@[i - off] } else {
                    old(dst)@[i]
                },
        decreases n - j,
    {
        dst[off + j] = src[j];
        j = j + 1;
    }
}


/// A window of a matching region equals the same window of the match.
pub proof fn lemma_subrange_of_matching(data: Seq<u8>, off: int, enc: Seq<u8>, a: int, b: int)
    requires
        0 <= off,
        off + enc.len() <= data.len(),
        data.subrange(off, off + enc.len()) == enc,
        0 <= a <= b <= enc.len(),
    ensures
        data.subrange(off + a, off + b) == enc.subrange(a, b),
{
    assert forall|j: int|
        0 <= j < b - a implies data.subrange(off + a, off + b)[j] == enc.subrange(a, b)[j] by {
        assert(data.subrange(off, off + enc.len())[a + j] == enc[a + j]);
    }
    assert(data.subrange(off + a, off + b) =~= enc.subrange(a, b));
}

/// A single byte of a matching region.
pub proof fn lemma_byte_of_matching(data: Seq<u8>, off: int, enc: Seq<u8>, a: int)
    requires
        0 <= off,
        off + enc.len() <= data.len(),
        data.subrange(off, off + enc.len()) == enc,
        0 <= a < enc.len(),
    ensures
        data[off + a] == enc[a],
{
    assert(data.subrange(off, off + enc.len())[a] == enc[a]);
}

} // verus!
