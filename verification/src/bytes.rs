//! Fixed-width integers as bytes, and small helpers on byte vectors.
use vstd::prelude::*;

verus! {

/// Byte `i` (0 is the most significant) of the big-endian form of `x`.
pub open spec fn be_byte(x: u64, i: int) -> u8 {
    if i == 0 {
        ((x >> 56) & 0xff) as u8
    } else if i == 1 {
        ((x >> 48) & 0xff) as u8
    } else if i == 2 {
        ((x >> 40) & 0xff) as u8
    } else if i == 3 {
        ((x >> 32) & 0xff) as u8
    } else if i == 4 {
        ((x >> 24) & 0xff) as u8
    } else if i == 5 {
        ((x >> 16) & 0xff) as u8
    } else if i == 6 {
        ((x >> 8) & 0xff) as u8
    } else {
        (x & 0xff) as u8
    }
}

/// The eight bytes of `x`, most significant first.
pub open spec fn be64(x: u64) -> Seq<u8> {
    Seq::new(8, |i: int| be_byte(x, i))
}

/// The integer that eight bytes spell, most significant first.
pub open spec fn join_be64(b0: u8, b1: u8, b2: u8, b3: u8, b4: u8, b5: u8, b6: u8, b7: u8) -> u64 {
    ((b0 as u64) << 56) | ((b1 as u64) << 48) | ((b2 as u64) << 40) | ((b3 as u64) << 32) | ((b4 as u64)
        << 24) | ((b5 as u64) << 16) | ((b6 as u64) << 8) | (b7 as u64)
}

/// The integer spelled by the first eight bytes of `s`, most significant first.
pub open spec fn from_be64(s: Seq<u8>) -> u64
    recommends
        s.len() >= 8,
{
    join_be64(s[0], s[1], s[2], s[3], s[4], s[5], s[6], s[7])
}

/// The four bytes of `x`, most significant first.
pub open spec fn be32(x: u32) -> Seq<u8> {
    be64(x as u64).subrange(4, 8)
}

/// The integer spelled by the first four bytes of `s`, most significant first.
pub open spec fn from_be32(s: Seq<u8>) -> u32
    recommends
        s.len() >= 4,
{
    join_be64(0, 0, 0, 0, s[0], s[1], s[2], s[3]) as u32
}

/// The eight bytes of an integer, joined again, are the integer.
proof fn lemma_join_split(x: u64)
    by (bit_vector)
    ensures
        ((((x >> 56) & 0xff) as u8 as u64) << 56) | ((((x >> 48) & 0xff) as u8 as u64) << 48) | ((((x
            >> 40) & 0xff) as u8 as u64) << 40) | ((((x >> 32) & 0xff) as u8 as u64) << 32) | ((((x
            >> 24) & 0xff) as u8 as u64) << 24) | ((((x >> 16) & 0xff) as u8 as u64) << 16) | ((((x
            >> 8) & 0xff) as u8 as u64) << 8) | ((x & 0xff) as u8 as u64) == x,
{
}

/// Four bytes spell an integer of 32 bits.
proof fn lemma_low_half(b4: u8, b5: u8, b6: u8, b7: u8)
    by (bit_vector)
    ensures
        ({
            let x = ((0u8 as u64) << 56) | ((0u8 as u64) << 48) | ((0u8 as u64) << 40) | ((0u8 as u64)
                << 32) | ((b4 as u64) << 24) | ((b5 as u64) << 16) | ((b6 as u64) << 8) | (b7 as u64);
            &&& x <= 0xffff_ffff
            &&& x as u32 as u64 == x
        }),
{
}

/// The upper four bytes of an integer of 32 bits are 0.
proof fn lemma_high_half(x: u32)
    by (bit_vector)
    ensures
        (((x as u64) >> 56) & 0xff) as u8 == 0,
        (((x as u64) >> 48) & 0xff) as u8 == 0,
        (((x as u64) >> 40) & 0xff) as u8 == 0,
        (((x as u64) >> 32) & 0xff) as u8 == 0,
        (x as u64) as u32 == x,
{
}

/// Reading back the big-endian form of an integer gives the integer.
pub proof fn lemma_be64_round_trip(x: u64)
    ensures
        be64(x).len() == 8,
        from_be64(be64(x)) == x,
{
    lemma_join_split(x);
}

/// Reading back the four-byte form of an integer gives the integer.
pub proof fn lemma_be32_round_trip(x: u32)
    ensures
        be32(x).len() == 4,
        from_be32(be32(x)) == x,
{
    lemma_high_half(x);
    lemma_join_split(x as u64);
    let s = be32(x);
    assert(s[0] == be_byte(x as u64, 4));
    assert(s[1] == be_byte(x as u64, 5));
    assert(s[2] == be_byte(x as u64, 6));
    assert(s[3] == be_byte(x as u64, 7));
}

/// Appends the big-endian form of `x` to `buf`.
pub fn put_be64(buf: &mut Vec<u8>, x: u64)
    ensures
        final(buf)@ == old(buf)@ + be64(x),
{
    buf.push(((x >> 56) & 0xff) as u8);
    buf.push(((x >> 48) & 0xff) as u8);
    buf.push(((x >> 40) & 0xff) as u8);
    buf.push(((x >> 32) & 0xff) as u8);
    buf.push(((x >> 24) & 0xff) as u8);
    buf.push(((x >> 16) & 0xff) as u8);
    buf.push(((x >> 8) & 0xff) as u8);
    buf.push((x & 0xff) as u8);
    assert(buf@ =~= old(buf)@ + be64(x));
}

/// Appends the four-byte big-endian form of `x` to `buf`.
pub fn put_be32(buf: &mut Vec<u8>, x: u32)
    ensures
        final(buf)@ == old(buf)@ + be32(x),
{
    let w: u64 = x as u64;
    buf.push(((w >> 24) & 0xff) as u8);
    buf.push(((w >> 16) & 0xff) as u8);
    buf.push(((w >> 8) & 0xff) as u8);
    buf.push((w & 0xff) as u8);
    assert(buf@ =~= old(buf)@ + be32(x));
}

/// Reads the big-endian integer that starts at `pos`.
pub fn get_be64(data: &[u8], pos: usize) -> (x: u64)
    requires
        pos + 8 <= data@.len(),
    ensures
        x == from_be64(data@.subrange(pos as int, pos + 8)),
{
    let b0: u64 = data[pos] as u64;
    let b1: u64 = data[pos + 1] as u64;
    let b2: u64 = data[pos + 2] as u64;
    let b3: u64 = data[pos + 3] as u64;
    let b4: u64 = data[pos + 4] as u64;
    let b5: u64 = data[pos + 5] as u64;
    let b6: u64 = data[pos + 6] as u64;
    let b7: u64 = data[pos + 7] as u64;
    (b0 << 56) | (b1 << 48) | (b2 << 40) | (b3 << 32) | (b4 << 24) | (b5 << 16) | (b6 << 8) | b7
}

/// Reads the four-byte big-endian integer that starts at `pos`.
pub fn get_be32(data: &[u8], pos: usize) -> (x: u32)
    requires
        pos + 4 <= data@.len(),
    ensures
        x == from_be32(data@.subrange(pos as int, pos + 4)),
{
    let b4: u64 = data[pos] as u64;
    let b5: u64 = data[pos + 1] as u64;
    let b6: u64 = data[pos + 2] as u64;
    let b7: u64 = data[pos + 3] as u64;
    let x: u64 = (0u64 << 56) | (0u64 << 48) | (0u64 << 40) | (0u64 << 32) | (b4 << 24) | (b5 << 16) | (
    b6 << 8) | b7;
    proof {
        lemma_low_half(data[pos as int], data[pos + 1], data[pos + 2], data[pos + 3]);
    }
    x as u32
}

/// The eight bytes of `x`, least significant first.
pub open spec fn le64(x: u64) -> Seq<u8> {
    Seq::new(8, |i: int| be_byte(x, 7 - i))
}

/// The integer that the first eight bytes of `s` spell, least significant first.
pub open spec fn from_le64(s: Seq<u8>) -> u64
    recommends
        s.len() >= 8,
{
    join_be64(s[7], s[6], s[5], s[4], s[3], s[2], s[1], s[0])
}

/// The four bytes of `x`, least significant first.
pub open spec fn le32(x: u32) -> Seq<u8> {
    Seq::new(4, |i: int| be_byte(x as u64, 7 - i))
}

/// The integer that the first four bytes of `s` spell, least significant first.
pub open spec fn from_le32(s: Seq<u8>) -> u32
    recommends
        s.len() >= 4,
{
    join_be64(0, 0, 0, 0, s[3], s[2], s[1], s[0]) as u32
}

/// Reading back the little-endian form of an integer gives the integer.
pub proof fn lemma_le64_round_trip(x: u64)
    ensures
        le64(x).len() == 8,
        from_le64(le64(x)) == x,
{
    lemma_join_split(x);
}

/// Reading back the four-byte little-endian form of an integer gives the integer.
pub proof fn lemma_le32_round_trip(x: u32)
    ensures
        le32(x).len() == 4,
        from_le32(le32(x)) == x,
{
    lemma_high_half(x);
    lemma_join_split(x as u64);
}

/// Appends the little-endian form of `x` to `buf`.
pub fn put_le64(buf: &mut Vec<u8>, x: u64)
    ensures
        final(buf)@ == old(buf)@ + le64(x),
{
    buf.push((x & 0xff) as u8);
    buf.push(((x >> 8) & 0xff) as u8);
    buf.push(((x >> 16) & 0xff) as u8);
    buf.push(((x >> 24) & 0xff) as u8);
    buf.push(((x >> 32) & 0xff) as u8);
    buf.push(((x >> 40) & 0xff) as u8);
    buf.push(((x >> 48) & 0xff) as u8);
    buf.push(((x >> 56) & 0xff) as u8);
    assert(buf@ =~= old(buf)@ + le64(x));
}

/// Appends the four-byte little-endian form of `x` to `buf`.
pub fn put_le32(buf: &mut Vec<u8>, x: u32)
    ensures
        final(buf)@ == old(buf)@ + le32(x),
{
    let w: u64 = x as u64;
    buf.push((w & 0xff) as u8);
    buf.push(((w >> 8) & 0xff) as u8);
    buf.push(((w >> 16) & 0xff) as u8);
    buf.push(((w >> 24) & 0xff) as u8);
    assert(buf@ =~= old(buf)@ + le32(x));
}

/// Reads the little-endian integer that starts at `pos`.
pub fn get_le64(data: &[u8], pos: usize) -> (x: u64)
    requires
        pos + 8 <= data@.len(),
    ensures
        x == from_le64(data@.subrange(pos as int, pos + 8)),
{
    let b7: u64 = data[pos] as u64;
    let b6: u64 = data[pos + 1] as u64;
    let b5: u64 = data[pos + 2] as u64;
    let b4: u64 = data[pos + 3] as u64;
    let b3: u64 = data[pos + 4] as u64;
    let b2: u64 = data[pos + 5] as u64;
    let b1: u64 = data[pos + 6] as u64;
    let b0: u64 = data[pos + 7] as u64;
    (b0 << 56) | (b1 << 48) | (b2 << 40) | (b3 << 32) | (b4 << 24) | (b5 << 16) | (b6 << 8) | b7
}

/// Reads the four-byte little-endian integer that starts at `pos`.
pub fn get_le32(data: &[u8], pos: usize) -> (x: u32)
    requires
        pos + 4 <= data@.len(),
    ensures
        x == from_le32(data@.subrange(pos as int, pos + 4)),
{
    let b7: u64 = data[pos] as u64;
    let b6: u64 = data[pos + 1] as u64;
    let b5: u64 = data[pos + 2] as u64;
    let b4: u64 = data[pos + 3] as u64;
    let x: u64 = (0u64 << 56) | (0u64 << 48) | (0u64 << 40) | (0u64 << 32) | (b4 << 24) | (b5 << 16) | (
    b6 << 8) | b7;
    proof {
        lemma_low_half(data[pos + 3], data[pos + 2], data[pos + 1], data[pos as int]);
    }
    x as u32
}

/// Appends a copy of `src[from..to]` to `buf`.
pub fn put_range(buf: &mut Vec<u8>, src: &[u8], from: usize, to: usize)
    requires
        from <= to <= src@.len(),
    ensures
        final(buf)@ == old(buf)@ + src@.subrange(from as int, to as int),
{
    let part = &src[from..to];
    buf.extend_from_slice(part);
    assert(buf@ =~= old(buf)@ + src@.subrange(from as int, to as int));
}

/// A fresh vector holding `src[from..to]`.
pub fn copy_range(src: &[u8], from: usize, to: usize) -> (out: Vec<u8>)
    requires
        from <= to <= src@.len(),
    ensures
        out@ == src@.subrange(from as int, to as int),
{
    let mut out: Vec<u8> = Vec::new();
    put_range(&mut out, src, from, to);
    assert(out@ =~= src@.subrange(from as int, to as int));
    out
}

/// A fresh vector with the bytes of `src`.
pub fn copy_bytes(src: &[u8]) -> (out: Vec<u8>)
    ensures
        out@ == src@,
{
    let out = copy_range(src, 0, src.len());
    assert(src@.subrange(0, src@.len() as int) =~= src@);
    out
}

/// Whether two byte strings hold the same bytes.
pub fn same_bytes(a: &[u8], b: &[u8]) -> (r: bool)
    ensures
        r == (a@ == b@),
{
    if a.len() != b.len() {
        return false;
    }
    let mut i: usize = 0;
    while i < a.len()
        invariant
            i <= a@.len(),
            a@.len() == b@.len(),
            forall|j: int| 0 <= j < i ==> a@[j] == b@[j],
        decreases a@.len() - i,
    {
        if a[i] != b[i] {
            return false;
        }
        i = i + 1;
    }
    assert(a@ =~= b@);
    true
}

} // verus!
