//! Little-endian integers at byte offsets.
use vstd::prelude::*;

verus! {

/// The unsigned 16-bit little-endian integer at `i`.
pub open spec fn le_u16(d: Seq<u8>, i: int) -> int {
    d[i] as int + 256 * d[i + 1] as int
}

/// The signed (two's complement) 16-bit little-endian integer at `i`.
pub open spec fn le_i16(d: Seq<u8>, i: int) -> int {
    if le_u16(d, i) < 32768 {
        le_u16(d, i)
    } else {
        le_u16(d, i) - 65536
    }
}

/// The unsigned 32-bit little-endian integer at `i`.
pub open spec fn le_u32(d: Seq<u8>, i: int) -> int {
    d[i] as int + 256 * d[i + 1] as int + 65536 * d[i + 2] as int + 16777216 * d[i + 3] as int
}

/// The two bytes that encode `v` in little-endian order.
pub open spec fn u16_bytes(v: int) -> Seq<u8> {
    seq![(v % 256) as u8, (v / 256) as u8]
}

/// The four bytes that encode `v` in little-endian order.
pub open spec fn u32_bytes(v: int) -> Seq<u8> {
    seq![(v % 256) as u8, ((v / 256) % 256) as u8, ((v / 65536) % 256) as u8, (v / 16777216) as u8]
}

/// Reading back the two bytes that encode `v` gives `v`.
pub proof fn lemma_u16_round_trip(s: Seq<u8>, i: int, v: int)
    requires
        0 <= v <= u16::MAX,
        0 <= i,
        i + 2 <= s.len(),
        s.subrange(i, i + 2) == u16_bytes(v),
    ensures
        le_u16(s, i) == v,
{
    assert(s[i] == s.subrange(i, i + 2)[0]);
    assert(s[i + 1] == s.subrange(i, i + 2)[1]);
}

/// Reading back the four bytes that encode `v` gives `v`.
pub proof fn lemma_u32_round_trip(s: Seq<u8>, i: int, v: int)
    requires
        0 <= v <= u32::MAX,
        0 <= i,
        i + 4 <= s.len(),
        s.subrange(i, i + 4) == u32_bytes(v),
    ensures
        le_u32(s, i) == v,
{
    assert(s[i] == s.subrange(i, i + 4)[0]);
    assert(s[i + 1] == s.subrange(i, i + 4)[1]);
    assert(s[i + 2] == s.subrange(i, i + 4)[2]);
    assert(s[i + 3] == s.subrange(i, i + 4)[3]);
}

pub fn read_u16(d: &[u8], i: usize) -> (r: u16)
    requires
        i + 2 <= d@.len(),
    ensures
        r == le_u16(d@, i as int),
{
    d[i] as u16 + 256 * (d[i + 1] as u16)
}

pub fn read_i16(d: &[u8], i: usize) -> (r: i16)
    requires
        i + 2 <= d@.len(),
    ensures
        r == le_i16(d@, i as int),
{
    let u = read_u16(d, i);
    if u < 32768 {
        u as i16
    } else {
        (u as i32 - 65536) as i16
    }
}

pub fn read_u32(d: &[u8], i: usize) -> (r: u32)
    requires
        i + 4 <= d@.len(),
    ensures
        r == le_u32(d@, i as int),
{
    d[i] as u32 + 256 * (d[i + 1] as u32) + 65536 * (d[i + 2] as u32) + 16777216 * (d[i + 3] as u32)
}

/// Appends the little-endian encoding of `v`.
pub fn push_u16(out: &mut Vec<u8>, v: u16)
    ensures
        final(out)@ == old(out)@ + u16_bytes(v as int),
{
    out.push((v % 256) as u8);
    out.push((v / 256) as u8);
    assert(final(out)@ =~= old(out)@ + u16_bytes(v as int));
}

/// Appends the little-endian encoding of `v`.
pub fn push_u32(out: &mut Vec<u8>, v: u32)
    ensures
        final(out)@ == old(out)@ + u32_bytes(v as int),
{
    out.push((v % 256) as u8);
    out.push(((v / 256) % 256) as u8);
    out.push(((v / 65536) % 256) as u8);
    out.push((v / 16777216) as u8);
    assert(final(out)@ =~= old(out)@ + u32_bytes(v as int));
}

} // verus!
