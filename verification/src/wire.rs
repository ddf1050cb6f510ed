//! Big-endian integer encodings shared by the on-wire formats.

use vstd::prelude::*;

verus! {

/// Big-endian bytes of a `u16`.
pub open spec fn be16(x: u16) -> Seq<u8> {
    seq![((x >> 8u16) & 0xffu16) as u8, (x & 0xffu16) as u8]
}

/// Big-endian bytes of a `u32`.
pub open spec fn be32(x: u32) -> Seq<u8> {
    seq![
        ((x >> 24u32) & 0xffu32) as u8,
        ((x >> 16u32) & 0xffu32) as u8,
        ((x >> 8u32) & 0xffu32) as u8,
        (x & 0xffu32) as u8,
    ]
}

/// Big-endian bytes of a `u64`.
pub open spec fn be64(x: u64) -> Seq<u8> {
    seq![
        ((x >> 56u64) & 0xffu64) as u8,
        ((x >> 48u64) & 0xffu64) as u8,
        ((x >> 40u64) & 0xffu64) as u8,
        ((x >> 32u64) & 0xffu64) as u8,
        ((x >> 24u64) & 0xffu64) as u8,
        ((x >> 16u64) & 0xffu64) as u8,
        ((x >> 8u64) & 0xffu64) as u8,
        (x & 0xffu64) as u8,
    ]
}

/// The `u16` stored big-endian at `s[i..i + 2]`.
pub open spec fn u16_at(s: Seq<u8>, i: int) -> u16 {
    ((s[i] as u16) << 8u16) | (s[i + 1] as u16)
}

/// The `u32` stored big-endian at `s[i..i + 4]`.
pub open spec fn u32_at(s: Seq<u8>, i: int) -> u32 {
    ((s[i] as u32) << 24u32) | ((s[i + 1] as u32) << 16u32) | ((s[i + 2] as u32) << 8u32) | (s[i
        + 3] as u32)
}

/// The `u64` stored big-endian at `s[i..i + 8]`.
pub open spec fn u64_at(s: Seq<u8>, i: int) -> u64 {
    ((s[i] as u64) << 56u64) | ((s[i + 1] as u64) << 48u64) | ((s[i + 2] as u64) << 40u64) | ((s[i
        + 3] as u64) << 32u64) | ((s[i + 4] as u64) << 24u64) | ((s[i + 5] as u64) << 16u64) | ((s[i
        + 6] as u64) << 8u64) | (s[i + 7] as u64)
}

/// Reading back the big-endian bytes of a `u16` gives the `u16`.
pub proof fn lemma_be16_decode(x: u16)
    ensures
        u16_at(be16(x), 0) == x,
{
    let b0 = ((x >> 8u16) & 0xffu16) as u8;
    let b1 = (x & 0xffu16) as u8;
    assert(((b0 as u16) << 8u16) | (b1 as u16) == x) by (bit_vector)
        requires
            b0 == ((x >> 8u16) & 0xffu16) as u8,
            b1 == (x & 0xffu16) as u8,
    ;
}

/// The big-endian bytes of the `u16` read at `i` are the bytes at `i`.
pub proof fn lemma_be16_encode(s: Seq<u8>, i: int)
    requires
        0 <= i,
        i + 2 <= s.len(),
    ensures
        be16(u16_at(s, i)) == s.subrange(i, i + 2),
{
    let b0 = s[i];
    let b1 = s[i + 1];
    let x = ((b0 as u16) << 8u16) | (b1 as u16);
    assert(((x >> 8u16) & 0xffu16) as u8 == b0 && (x & 0xffu16) as u8 == b1) by (bit_vector)
        requires
            x == ((b0 as u16) << 8u16) | (b1 as u16),
    ;
    assert(be16(u16_at(s, i)) =~= s.subrange(i, i + 2));
}

/// Reading back the big-endian bytes of a `u32` gives the `u32`.
pub proof fn lemma_be32_decode(x: u32)
    ensures
        u32_at(be32(x), 0) == x,
{
    let b0 = ((x >> 24u32) & 0xffu32) as u8;
    let b1 = ((x >> 16u32) & 0xffu32) as u8;
    let b2 = ((x >> 8u32) & 0xffu32) as u8;
    let b3 = (x & 0xffu32) as u8;
    assert(((b0 as u32) << 24u32) | ((b1 as u32) << 16u32) | ((b2 as u32) << 8u32) | (b3 as u32)
        == x) by (bit_vector)
        requires
            b0 == ((x >> 24u32) & 0xffu32) as u8,
            b1 == ((x >> 16u32) & 0xffu32) as u8,
            b2 == ((x >> 8u32) & 0xffu32) as u8,
            b3 == (x & 0xffu32) as u8,
    ;
}

/// The big-endian bytes of the `u32` read at `i` are the bytes at `i`.
pub proof fn lemma_be32_encode(s: Seq<u8>, i: int)
    requires
        0 <= i,
        i + 4 <= s.len(),
    ensures
        be32(u32_at(s, i)) == s.subrange(i, i + 4),
{
    let b0 = s[i];
    let b1 = s[i + 1];
    let b2 = s[i + 2];
    let b3 = s[i + 3];
    let x = ((b0 as u32) << 24u32) | ((b1 as u32) << 16u32) | ((b2 as u32) << 8u32) | (b3 as u32);
    assert(((x >> 24u32) & 0xffu32) as u8 == b0 && ((x >> 16u32) & 0xffu32) as u8 == b1 && ((x
        >> 8u32) & 0xffu32) as u8 == b2 && (x & 0xffu32) as u8 == b3) by (bit_vector)
        requires
            x == ((b0 as u32) << 24u32) | ((b1 as u32) << 16u32) | ((b2 as u32) << 8u32) | (
            b3 as u32),
    ;
    assert(be32(u32_at(s, i)) =~= s.subrange(i, i + 4));
}

/// Reading back the big-endian bytes of a `u64` gives the `u64`.
pub proof fn lemma_be64_decode(x: u64)
    ensures
        u64_at(be64(x), 0) == x,
{
    let b0 = ((x >> 56u64) & 0xffu64) as u8;
    let b1 = ((x >> 48u64) & 0xffu64) as u8;
    let b2 = ((x >> 40u64) & 0xffu64) as u8;
    let b3 = ((x >> 32u64) & 0xffu64) as u8;
    let b4 = ((x >> 24u64) & 0xffu64) as u8;
    let b5 = ((x >> 16u64) & 0xffu64) as u8;
    let b6 = ((x >> 8u64) & 0xffu64) as u8;
    let b7 = (x & 0xffu64) as u8;
    assert(((b0 as u64) << 56u64) | ((b1 as u64) << 48u64) | ((b2 as u64) << 40u64) | ((b3 as u64)
        << 32u64) | ((b4 as u64) << 24u64) | ((b5 as u64) << 16u64) | ((b6 as u64) << 8u64) | (
    b7 as u64) == x) by (bit_vector)
        requires
            b0 == ((x >> 56u64) & 0xffu64) as u8,
            b1 == ((x >> 48u64) & 0xffu64) as u8,
            b2 == ((x >> 40u64) & 0xffu64) as u8,
            b3 == ((x >> 32u64) & 0xffu64) as u8,
            b4 == ((x >> 24u64) & 0xffu64) as u8,
            b5 == ((x >> 16u64) & 0xffu64) as u8,
            b6 == ((x >> 8u64) & 0xffu64) as u8,
            b7 == (x & 0xffu64) as u8,
    ;
}

/// The big-endian bytes of the `u64` read at `i` are the bytes at `i`.
pub proof fn lemma_be64_encode(s: Seq<u8>, i: int)
    requires
        0 <= i,
        i + 8 <= s.len(),
    ensures
        be64(u64_at(s, i)) == s.subrange(i, i + 8),
{
    let b0 = s[i];
    let b1 = s[i + 1];
    let b2 = s[i + 2];
    let b3 = s[i + 3];
    let b4 = s[i + 4];
    let b5 = s[i + 5];
    let b6 = s[i + 6];
    let b7 = s[i + 7];
    let x = ((b0 as u64) << 56u64) | ((b1 as u64) << 48u64) | ((b2 as u64) << 40u64) | ((b3 as u64)
        << 32u64) | ((b4 as u64) << 24u64) | ((b5 as u64) << 16u64) | ((b6 as u64) << 8u64) | (
    b7 as u64);
    assert(((x >> 56u64) & 0xffu64) as u8 == b0 && ((x >> 48u64) & 0xffu64) as u8 == b1 && ((x
        >> 40u64) & 0xffu64) as u8 == b2 && ((x >> 32u64) & 0xffu64) as u8 == b3 && ((x >> 24u64)
        & 0xffu64) as u8 == b4 && ((x >> 16u64) & 0xffu64) as u8 == b5 && ((x >> 8u64) & 0xffu64)
        as u8 == b6 && (x & 0xffu64) as u8 == b7) by (bit_vector)
        requires
            x == ((b0 as u64) << 56u64) | ((b1 as u64) << 48u64) | ((b2 as u64) << 40u64) | ((
            b3 as u64) << 32u64) | ((b4 as u64) << 24u64) | ((b5 as u64) << 16u64) | ((b6 as u64)
                << 8u64) | (b7 as u64),
    ;
    assert(be64(u64_at(s, i)) =~= s.subrange(i, i + 8));
}

/// Appends the big-endian bytes of `x`.
pub fn push_be16(out: &mut Vec<u8>, x: u16)
    ensures
        final(out)@ == old(out)@ + be16(x),
{
    out.push(((x >> 8u16) & 0xffu16) as u8);
    out.push((x & 0xffu16) as u8);
    assert(out@ =~= old(out)@ + be16(x));
}

/// Appends the big-endian bytes of `x`.
pub fn push_be32(out: &mut Vec<u8>, x: u32)
    ensures
        final(out)@ == old(out)@ + be32(x),
{
    out.push(((x >> 24u32) & 0xffu32) as u8);
    out.push(((x >> 16u32) & 0xffu32) as u8);
    out.push(((x >> 8u32) & 0xffu32) as u8);
    out.push((x & 0xffu32) as u8);
    assert(out@ =~= old(out)@ + be32(x));
}

/// Appends the big-endian bytes of `x`.
pub fn push_be64(out: &mut Vec<u8>, x: u64)
    ensures
        final(out)@ == old(out)@ + be64(x),
{
    out.push(((x >> 56u64) & 0xffu64) as u8);
    out.push(((x >> 48u64) & 0xffu64) as u8);
    out.push(((x >> 40u64) & 0xffu64) as u8);
    out.push(((x >> 32u64) & 0xffu64) as u8);
    out.push(((x >> 24u64) & 0xffu64) as u8);
    out.push(((x >> 16u64) & 0xffu64) as u8);
    out.push(((x >> 8u64) & 0xffu64) as u8);
    out.push((x & 0xffu64) as u8);
    assert(out@ =~= old(out)@ + be64(x));
}

/// Appends every byte of `src`.
pub fn push_all(out: &mut Vec<u8>, src: &[u8])
    ensures
        final(out)@ == old(out)@ + src@,
{
    let n = src.len();
    let mut i: usize = 0;
    while i < n
        invariant
            n == src@.len(),
            i <= n,
            out@ == old(out)@ + src@.subrange(0, i as int),
        decreases n - i,
    {
        out.push(src[i]);
        i = i + 1;
        assert(out@ =~= old(out)@ + src@.subrange(0, i as int));
    }
    assert(src@.subrange(0, n as int) =~= src@);
}

/// Reads the `u16` stored big-endian at `buf[i..i + 2]`.
pub fn read_u16(buf: &[u8], i: usize) -> (r: u16)
    requires
        i + 2 <= buf@.len(),
    ensures
        r == u16_at(buf@, i as int),
{
    ((buf[i] as u16) << 8u16) | (buf[i + 1] as u16)
}

/// Reads the `u32` stored big-endian at `buf[i..i + 4]`.
pub fn read_u32(buf: &[u8], i: usize) -> (r: u32)
    requires
        i + 4 <= buf@.len(),
    ensures
        r == u32_at(buf@, i as int),
{
    ((buf[i] as u32) << 24u32) | ((buf[i + 1] as u32) << 16u32) | ((buf[i + 2] as u32) << 8u32) | (
    buf[i + 3] as u32)
}

/// Reads the `u64` stored big-endian at `buf[i..i + 8]`.
pub fn read_u64(buf: &[u8], i: usize) -> (r: u64)
    requires
        i + 8 <= buf@.len(),
    ensures
        r == u64_at(buf@, i as int),
{
    ((buf[i] as u64) << 56u64) | ((buf[i + 1] as u64) << 48u64) | ((buf[i + 2] as u64) << 40u64) | (
    (buf[i + 3] as u64) << 32u64) | ((buf[i + 4] as u64) << 24u64) | ((buf[i + 5] as u64)
        << 16u64) | ((buf[i + 6] as u64) << 8u64) | (buf[i + 7] as u64)
}

} // verus!

verus! {

/// The byte contents of each buffer in `s`.
pub open spec fn views(s: Seq<Vec<u8>>) -> Seq<Seq<u8>> {
    s.map_values(|v: Vec<u8>| v@)
}

} // verus!
