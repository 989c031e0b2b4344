//! Little-endian integer fields in byte buffers.

use vstd::prelude::*;

verus! {

/// Byte `k` (counting from the least significant) of `v`.
pub open spec fn byte_of(v: int, k: nat) -> u8 {
    if k == 0 { (v % 256) as u8 }
    else if k == 1 { ((v / 0x100) % 256) as u8 }
    else if k == 2 { ((v / 0x10000) % 256) as u8 }
    else { ((v / 0x1000000) % 256) as u8 }
}

/// The two little-endian bytes of `v` (taken modulo 2^16).
pub open spec fn le16(v: int) -> Seq<u8> {
    seq![byte_of(v, 0), byte_of(v, 1)]
}

/// The four little-endian bytes of `v` (taken modulo 2^32).
pub open spec fn le32(v: int) -> Seq<u8> {
    seq![byte_of(v, 0), byte_of(v, 1), byte_of(v, 2), byte_of(v, 3)]
}

/// The eight little-endian bytes of `v` (taken modulo 2^64).
pub open spec fn le64(v: int) -> Seq<u8> {
    le32(v % 0x1_0000_0000) + le32(v / 0x1_0000_0000)
}

/// The little-endian 16-bit value at `at`.
pub open spec fn read16(s: Seq<u8>, at: int) -> int {
    s[at] + 256 * s[at + 1]
}

/// The little-endian 32-bit value at `at`.
pub open spec fn read32(s: Seq<u8>, at: int) -> int {
    s[at] + 0x100 * s[at + 1] + 0x10000 * s[at + 2] + 0x1000000 * s[at + 3]
}

/// The little-endian 64-bit value at `at`.
pub open spec fn read64(s: Seq<u8>, at: int) -> int {
    read32(s, at) + 0x1_0000_0000 * read32(s, at + 4)
}

/// Two bytes holding the low bytes of a 16-bit value read back as the value.
pub proof fn lemma_read16_bytes(s: Seq<u8>, at: int, v: int)
    requires
        0 <= v < 0x10000,
        0 <= at,
        at + 2 <= s.len(),
        s[at] == byte_of(v, 0),
        s[at + 1] == byte_of(v, 1),
    ensures
        read16(s, at) == v,
{
    assert((v % 256) + 256 * ((v / 256) % 256) == v) by (nonlinear_arith) requires 0 <= v < 0x10000;
}

/// Four bytes holding the bytes of a 32-bit value read back as the value.
pub proof fn lemma_read32_bytes(s: Seq<u8>, at: int, v: int)
    requires
        0 <= v < 0x1_0000_0000,
        0 <= at,
        at + 4 <= s.len(),
        s[at] == byte_of(v, 0),
        s[at + 1] == byte_of(v, 1),
        s[at + 2] == byte_of(v, 2),
        s[at + 3] == byte_of(v, 3),
    ensures
        read32(s, at) == v,
{
    assert((v % 256) + 0x100 * ((v / 0x100) % 256) + 0x10000 * ((v / 0x10000) % 256)
        + 0x1000000 * ((v / 0x1000000) % 256) == v) by (nonlinear_arith) requires 0 <= v < 0x1_0000_0000;
}

/// Reading back the bytes of a 16-bit value gives the value.
pub proof fn lemma_le16_roundtrip(v: int)
    requires
        0 <= v < 0x10000,
    ensures
        read16(le16(v), 0) == v,
        le16(v).len() == 2,
{
    assert((v % 256) + 256 * ((v / 256) % 256) == v) by (nonlinear_arith) requires 0 <= v < 0x10000;
}

/// Reading back the bytes of a 32-bit value gives the value.
pub proof fn lemma_le32_roundtrip(v: int)
    requires
        0 <= v < 0x1_0000_0000,
    ensures
        read32(le32(v), 0) == v,
        le32(v).len() == 4,
{
    assert((v % 256) + 0x100 * ((v / 0x100) % 256) + 0x10000 * ((v / 0x10000) % 256)
        + 0x1000000 * ((v / 0x1000000) % 256) == v) by (nonlinear_arith) requires 0 <= v < 0x1_0000_0000;
}

/// Reading back the bytes of a 64-bit value gives the value.
pub proof fn lemma_le64_roundtrip(v: int)
    requires
        0 <= v < 0x1_0000_0000_0000_0000,
    ensures
        read64(le64(v), 0) == v,
        le64(v).len() == 8,
{
    let lo = v % 0x1_0000_0000;
    let hi = v / 0x1_0000_0000;
    assert(0 <= hi < 0x1_0000_0000) by (nonlinear_arith) requires 0 <= v < 0x1_0000_0000_0000_0000, hi == v / 0x1_0000_0000;
    lemma_le32_roundtrip(lo);
    lemma_le32_roundtrip(hi);
    let s = le64(v);
    assert(read32(s, 0) == read32(le32(lo), 0));
    assert(read32(s, 4) == read32(le32(hi), 0));
    assert(lo + 0x1_0000_0000 * hi == v) by (nonlinear_arith) requires lo == v % 0x1_0000_0000, hi == v / 0x1_0000_0000;
}

/// Appends a byte.
pub fn put_u8(out: &mut Vec<u8>, v: u8)
    ensures
        final(out)@ == old(out)@.push(v),
{
    out.push(v);
}

/// Appends the little-endian bytes of a 16-bit value.
pub fn put_u16(out: &mut Vec<u8>, v: u16)
    ensures
        final(out)@ == old(out)@ + le16(v as int),
{
    out.push((v % 256) as u8);
    out.push((v / 256) as u8);
    assert(final(out)@ =~= old(out)@ + le16(v as int)) by {
        assert(((v as int / 256) % 256) == v as int / 256);
    }
}

/// Appends the little-endian bytes of a 32-bit value.
pub fn put_u32(out: &mut Vec<u8>, v: u32)
    ensures
        final(out)@ == old(out)@ + le32(v as int),
{
    out.push((v % 256) as u8);
    out.push(((v / 0x100) % 256) as u8);
    out.push(((v / 0x10000) % 256) as u8);
    out.push((v / 0x1000000) as u8);
    assert(final(out)@ =~= old(out)@ + le32(v as int)) by {
        assert(((v as int / 0x1000000) % 256) == v as int / 0x1000000);
    }
}

/// Appends the little-endian bytes of a 64-bit value.
pub fn put_u64(out: &mut Vec<u8>, v: u64)
    ensures
        final(out)@ == old(out)@ + le64(v as int),
{
    put_u32(out, (v % 0x1_0000_0000) as u32);
    put_u32(out, (v / 0x1_0000_0000) as u32);
    assert(final(out)@ =~= old(out)@ + le64(v as int));
}

/// The little-endian 16-bit value at `at`.
pub fn get_u16(buf: &[u8], at: usize) -> (v: u16)
    requires
        at + 2 <= buf@.len(),
    ensures
        v == read16(buf@, at as int),
{
    buf[at] as u16 + 256 * (buf[at + 1] as u16)
}

/// The little-endian 32-bit value at `at`.
pub fn get_u32(buf: &[u8], at: usize) -> (v: u32)
    requires
        at + 4 <= buf@.len(),
    ensures
        v == read32(buf@, at as int),
{
    buf[at] as u32 + 0x100 * (buf[at + 1] as u32) + 0x10000 * (buf[at + 2] as u32) + 0x1000000 * (buf[at + 3] as u32)
}

/// The little-endian 64-bit value at `at`.
pub fn get_u64(buf: &[u8], at: usize) -> (v: u64)
    requires
        at + 8 <= buf@.len(),
    ensures
        v == read64(buf@, at as int),
{
    let n = buf.len();
    assert(at + 8 <= n);
    let lo = get_u32(buf, at) as u64;
    let hi = get_u32(buf, at + 4) as u64;
    lo + 0x1_0000_0000 * hi
}

} // verus!
