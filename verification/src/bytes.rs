//! Byte sequences: fixed-width integers in both byte orders, and appending.

use vstd::prelude::*;

verus! {

/// Little-endian 16-bit value of `s[i..i + 2]`.
pub open spec fn le16(s: Seq<u8>, i: int) -> int {
    s[i] + 256 * s[i + 1]
}

/// Big-endian 16-bit value of `s[i..i + 2]`.
pub open spec fn be16(s: Seq<u8>, i: int) -> int {
    256 * s[i] + s[i + 1]
}

/// Little-endian 32-bit value of `s[i..i + 4]`.
pub open spec fn le32(s: Seq<u8>, i: int) -> int {
    le16(s, i) + 65536 * le16(s, i + 2)
}

/// Big-endian 32-bit value of `s[i..i + 4]`.
pub open spec fn be32(s: Seq<u8>, i: int) -> int {
    65536 * be16(s, i) + be16(s, i + 2)
}

/// Little-endian 64-bit value of `s[i..i + 8]`.
pub open spec fn le64(s: Seq<u8>, i: int) -> int {
    le32(s, i) + 0x1_0000_0000 * le32(s, i + 4)
}

/// The two little-endian bytes of `v`.
pub open spec fn le16_bytes(v: int) -> Seq<u8> {
    seq![(v % 256) as u8, ((v / 256) % 256) as u8]
}

/// The two big-endian bytes of `v`.
pub open spec fn be16_bytes(v: int) -> Seq<u8> {
    seq![((v / 256) % 256) as u8, (v % 256) as u8]
}

/// The four little-endian bytes of `v`.
pub open spec fn le32_bytes(v: int) -> Seq<u8> {
    le16_bytes(v % 65536) + le16_bytes((v / 65536) % 65536)
}

/// The four big-endian bytes of `v`.
pub open spec fn be32_bytes(v: int) -> Seq<u8> {
    be16_bytes((v / 65536) % 65536) + be16_bytes(v % 65536)
}

/// The eight little-endian bytes of `v`.
pub open spec fn le64_bytes(v: int) -> Seq<u8> {
    le32_bytes(v % 0x1_0000_0000) + le32_bytes((v / 0x1_0000_0000) % 0x1_0000_0000)
}

/// Appends `src` to `dst`.
pub fn push_all(dst: &mut Vec<u8>, src: &[u8])
    ensures
        final(dst)@ == old(dst)@ + src@,
{
    let mut i: usize = 0;
    while i < src.len()
        invariant
            i <= src@.len(),
            dst@ == old(dst)@ + src@.subrange(0, i as int),
        decreases src@.len() - i,
    {
        dst.push(src[i]);
        i += 1;
        assert(src@.subrange(0, i as int) == src@.subrange(0, i - 1).push(src@[i - 1]));
    }
    assert(src@.subrange(0, src@.len() as int) == src@);
}

/// Copies `s[start..end]` into a new vector.
pub fn copy_range(s: &[u8], start: usize, end: usize) -> (out: Vec<u8>)
    requires
        start <= end <= s@.len(),
    ensures
        out@ == s@.subrange(start as int, end as int),
{
    let mut out: Vec<u8> = Vec::with_capacity(end - start);
    push_all(&mut out, &s[start..end]);
    out
}

/// Big-endian bytes of a 16-bit value.
pub fn be16_of(v: u16) -> (out: [u8; 2])
    ensures
        out@ == be16_bytes(v as int),
{
    let out = [(v / 256) as u8, (v % 256) as u8];
    assert(out@ =~= be16_bytes(v as int));
    out
}

/// Big-endian bytes of a 32-bit value.
pub fn be32_of(v: u32) -> (out: [u8; 4])
    ensures
        out@ == be32_bytes(v as int),
{
    let hi = (v / 65536) as u16;
    let lo = (v % 65536) as u16;
    let out = [(hi / 256) as u8, (hi % 256) as u8, (lo / 256) as u8, (lo % 256) as u8];
    assert(out@ =~= be32_bytes(v as int));
    out
}

/// Little-endian bytes of a 16-bit value.
pub fn le16_of(v: u16) -> (out: [u8; 2])
    ensures
        out@ == le16_bytes(v as int),
{
    let out = [(v % 256) as u8, (v / 256) as u8];
    assert(out@ =~= le16_bytes(v as int));
    out
}

/// Little-endian bytes of a 32-bit value.
pub fn le32_of(v: u32) -> (out: [u8; 4])
    ensures
        out@ == le32_bytes(v as int),
{
    let lo = (v % 65536) as u16;
    let hi = (v / 65536) as u16;
    let out = [(lo % 256) as u8, (lo / 256) as u8, (hi % 256) as u8, (hi / 256) as u8];
    assert(out@ =~= le32_bytes(v as int));
    out
}

/// Little-endian bytes of a 64-bit value.
pub fn le64_of(v: u64) -> (out: [u8; 8])
    ensures
        out@ == le64_bytes(v as int),
{
    let lo = le32_of((v % 0x1_0000_0000) as u32);
    let hi = le32_of((v / 0x1_0000_0000) as u32);
    assert((v / 0x1_0000_0000) % 0x1_0000_0000 == v / 0x1_0000_0000);
    let out = [lo[0], lo[1], lo[2], lo[3], hi[0], hi[1], hi[2], hi[3]];
    assert(out@ =~= lo@ + hi@);
    assert(out@ =~= le64_bytes(v as int));
    out
}

/// Reading back the little-endian bytes of a 32-bit value gives the value.
pub proof fn lemma_le32_roundtrip(v: int)
    requires
        0 <= v < 0x1_0000_0000,
    ensures
        le32(le32_bytes(v), 0) == v,
{
    let s = le32_bytes(v);
    assert(s.subrange(0, 2) == le16_bytes(v % 65536));
}

/// Reading back the little-endian bytes of a 64-bit value gives the value.
pub proof fn lemma_le64_roundtrip(v: int)
    requires
        0 <= v < 0x1_0000_0000_0000_0000,
    ensures
        le64(le64_bytes(v), 0) == v,
{
    let s = le64_bytes(v);
    lemma_le32_roundtrip(v % 0x1_0000_0000);
    lemma_le32_roundtrip((v / 0x1_0000_0000) % 0x1_0000_0000);
    let a = le32_bytes(v % 0x1_0000_0000);
    let b = le32_bytes((v / 0x1_0000_0000) % 0x1_0000_0000);
    assert(s == a + b);
    assert(le32(s, 0) == le32(a, 0));
    assert(le32(s, 4) == le32(b, 0));
}

} // verus!
