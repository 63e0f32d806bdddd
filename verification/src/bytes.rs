//! Little-endian integer layouts and byte-buffer helpers shared by the codecs.

use vstd::prelude::*;

verus! {

/// Little-endian bytes of a `u16`.
pub open spec fn le16_bytes(v: u16) -> Seq<u8> {
    seq![v as u8, (v >> 8u16) as u8]
}

/// Little-endian bytes of a `u32`.
pub open spec fn le32_bytes(v: u32) -> Seq<u8> {
    seq![v as u8, (v >> 8u32) as u8, (v >> 16u32) as u8, (v >> 24u32) as u8]
}

/// The `u16` whose little-endian bytes start `s`.
pub open spec fn le16_value(s: Seq<u8>) -> u16 {
    ((s[0] as u16) | ((s[1] as u16) << 8u16)) as u16
}

/// The `u32` whose little-endian bytes start `s`.
pub open spec fn le32_value(s: Seq<u8>) -> u32 {
    ((s[0] as u32) | ((s[1] as u32) << 8u32) | ((s[2] as u32) << 16u32) | ((s[3] as u32) << 24u32)) as u32
}

/// Reading back the little-endian bytes of a `u32` gives it back.
pub proof fn lemma_le32_roundtrip(v: u32)
    ensures
        le32_value(le32_bytes(v)) == v,
        le32_bytes(v).len() == 4,
{
    let b0 = v as u8;
    let b1 = (v >> 8u32) as u8;
    let b2 = (v >> 16u32) as u8;
    let b3 = (v >> 24u32) as u8;
    assert(((b0 as u32) | ((b1 as u32) << 8u32) | ((b2 as u32) << 16u32) | ((b3 as u32) << 24u32)) == v)
        by (bit_vector)
        requires
            b0 == v as u8,
            b1 == (v >> 8u32) as u8,
            b2 == (v >> 16u32) as u8,
            b3 == (v >> 24u32) as u8,
    ;
}

/// Reading back the little-endian bytes of a `u16` gives it back.
pub proof fn lemma_le16_roundtrip(v: u16)
    ensures
        le16_value(le16_bytes(v)) == v,
        le16_bytes(v).len() == 2,
{
    let b0 = v as u8;
    let b1 = (v >> 8u16) as u8;
    assert(((b0 as u16) | ((b1 as u16) << 8u16)) == v) by (bit_vector)
        requires
            b0 == v as u8,
            b1 == (v >> 8u16) as u8,
    ;
}

/// Four bytes determine their little-endian `u32` and are determined by it.
pub proof fn lemma_le32_of_bytes(s: Seq<u8>)
    requires
        s.len() == 4,
    ensures
        le32_bytes(le32_value(s)) == s,
{
    let v = le32_value(s);
    let (b0, b1, b2, b3) = (s[0], s[1], s[2], s[3]);
    assert(v as u8 == b0 && (v >> 8u32) as u8 == b1 && (v >> 16u32) as u8 == b2 && (v >> 24u32) as u8 == b3)
        by (bit_vector)
        requires
            v == ((b0 as u32) | ((b1 as u32) << 8u32) | ((b2 as u32) << 16u32) | ((b3 as u32) << 24u32)),
    ;
    assert(le32_bytes(v) =~= s);
}

/// Append `s` to `out`.
pub fn append_bytes(out: &mut Vec<u8>, s: &[u8])
    ensures
        final(out)@ == old(out)@ + s@,
{
    let ghost start = out@;
    let mut i: usize = 0;
    while i < s.len()
        invariant
            i <= s@.len(),
            out@ == start + s@.subrange(0, i as int),
        decreases s@.len() - i,
    {
        out.push(s[i]);
        i = i + 1;
        assert(out@ =~= start + s@.subrange(0, i as int));
    }
    assert(s@.subrange(0, i as int) =~= s@);
}

/// Append the little-endian bytes of `v`.
pub fn push_le32(out: &mut Vec<u8>, v: u32)
    ensures
        final(out)@ == old(out)@ + le32_bytes(v),
{
    let ghost start = out@;
    out.push(v as u8);
    out.push((v >> 8) as u8);
    out.push((v >> 16) as u8);
    out.push((v >> 24) as u8);
    assert(out@ =~= start + le32_bytes(v));
}

/// Append the little-endian bytes of `v`.
pub fn push_le16(out: &mut Vec<u8>, v: u16)
    ensures
        final(out)@ == old(out)@ + le16_bytes(v),
{
    let ghost start = out@;
    out.push(v as u8);
    out.push((v >> 8) as u8);
    assert(out@ =~= start + le16_bytes(v));
}

/// The little-endian `u32` stored at `data[pos..pos + 4]`.
pub fn read_le32(data: &[u8], pos: usize) -> (r: u32)
    requires
        pos + 4 <= data@.len(),
    ensures
        r == le32_value(data@.subrange(pos as int, pos + 4)),
{
    (data[pos] as u32) | ((data[pos + 1] as u32) << 8) | ((data[pos + 2] as u32) << 16) | ((data[pos + 3] as u32) << 24)
}

/// The little-endian `u16` stored at `data[pos..pos + 2]`.
pub fn read_le16(data: &[u8], pos: usize) -> (r: u16)
    requires
        pos + 2 <= data@.len(),
    ensures
        r == le16_value(data@.subrange(pos as int, pos + 2)),
{
    (data[pos] as u16) | ((data[pos + 1] as u16) << 8)
}

} // verus!
