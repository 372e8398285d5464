//! Little-endian integer fields, as used throughout the MEGA file format.

use vstd::prelude::*;

verus! {

/// The little-endian `u16` stored at `pos` of `s`.
pub open spec fn spec_u16_le(s: Seq<u8>, pos: int) -> u16 {
    (s[pos] as int + 256 * s[pos + 1] as int) as u16
}

/// The little-endian `u32` stored at `pos` of `s`.
pub open spec fn spec_u32_le(s: Seq<u8>, pos: int) -> u32 {
    (s[pos] as int + 256 * s[pos + 1] as int + 65536 * s[pos + 2] as int + 16777216 * s[pos
        + 3] as int) as u32
}

/// The two little-endian bytes of `v`.
pub open spec fn u16_le_bytes(v: u16) -> Seq<u8> {
    seq![(v % 256) as u8, (v / 256) as u8]
}

/// The four little-endian bytes of `v`.
pub open spec fn u32_le_bytes(v: u32) -> Seq<u8> {
    seq![(v % 256) as u8, ((v / 256) % 256) as u8, ((v / 65536) % 256) as u8, (v / 16777216) as u8]
}

/// Reads a little-endian `u16` at `pos`.
pub fn read_u16_le(b: &[u8], pos: usize) -> (r: u16)
    requires
        pos + 2 <= b@.len(),
    ensures
        r == spec_u16_le(b@, pos as int),
{
    let lo = b[pos] as u16;
    let hi = b[pos + 1] as u16;
    lo + hi * 256
}

/// Reads a little-endian `u32` at `pos`.
pub fn read_u32_le(b: &[u8], pos: usize) -> (r: u32)
    requires
        pos + 4 <= b@.len(),
    ensures
        r == spec_u32_le(b@, pos as int),
{
    let b0 = b[pos] as u32;
    let b1 = b[pos + 1] as u32;
    let b2 = b[pos + 2] as u32;
    let b3 = b[pos + 3] as u32;
    b0 + b1 * 256 + b2 * 65536 + b3 * 16777216
}

/// Appends the little-endian bytes of `v`.
pub fn push_u16_le(out: &mut Vec<u8>, v: u16)
    ensures
        final(out)@ == old(out)@ + u16_le_bytes(v),
{
    out.push((v % 256) as u8);
    out.push((v / 256) as u8);
    assert(final(out)@ =~= old(out)@ + u16_le_bytes(v));
}

/// Appends the little-endian bytes of `v`.
pub fn push_u32_le(out: &mut Vec<u8>, v: u32)
    ensures
        final(out)@ == old(out)@ + u32_le_bytes(v),
{
    out.push((v % 256) as u8);
    out.push(((v / 256) % 256) as u8);
    out.push(((v / 65536) % 256) as u8);
    out.push((v / 16777216) as u8);
    assert(final(out)@ =~= old(out)@ + u32_le_bytes(v));
}

/// Appends `data`.
pub fn append_bytes(out: &mut Vec<u8>, data: &[u8])
    ensures
        final(out)@ == old(out)@ + data@,
{
    let n = data.len();
    let mut i: usize = 0;
    let ghost start = out@;
    while i < n
        invariant
            n == data@.len(),
            0 <= i <= n,
            out@ =~= start + data@.subrange(0, i as int),
        decreases n - i,
    {
        out.push(data[i]);
        i = i + 1;
    }
    assert(data@.subrange(0, n as int) =~= data@);
}

/// Reading back the bytes of a `u16` gives the value.
pub proof fn lemma_u16_roundtrip(v: u16, s: Seq<u8>, pos: int)
    requires
        0 <= pos,
        pos + 2 <= s.len(),
        s.subrange(pos, pos + 2) == u16_le_bytes(v),
    ensures
        spec_u16_le(s, pos) == v,
{
    assert(s[pos] == s.subrange(pos, pos + 2)[0]);
    assert(s[pos + 1] == s.subrange(pos, pos + 2)[1]);
    assert((v % 256) as int + 256 * (v / 256) as int == v) by (nonlinear_arith);
}

/// Reading back the bytes of a `u32` gives the value.
pub proof fn lemma_u32_roundtrip(v: u32, s: Seq<u8>, pos: int)
    requires
        0 <= pos,
        pos + 4 <= s.len(),
        s.subrange(pos, pos + 4) == u32_le_bytes(v),
    ensures
        spec_u32_le(s, pos) == v,
{
    let t = s.subrange(pos, pos + 4);
    assert(s[pos] == t[0]);
    assert(s[pos + 1] == t[1]);
    assert(s[pos + 2] == t[2]);
    assert(s[pos + 3] == t[3]);
    let a = v as int;
    assert((a % 256) + 256 * ((a / 256) % 256) + 65536 * ((a / 65536) % 256) + 16777216 * (a
        / 16777216) == a) by (nonlinear_arith)
        requires
            0 <= a < 0x1_0000_0000,
    ;
}

} // verus!
