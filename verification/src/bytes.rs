//! Big-endian integer encodings and the byte-slice cursor helpers that the
//! record format is built from.
use vstd::prelude::*;

verus! {

/// Big-endian bytes of a `u32`.
pub open spec fn be32(v: u32) -> Seq<u8> {
    seq![(v >> 24u32) as u8, (v >> 16u32) as u8, (v >> 8u32) as u8, v as u8]
}

/// The `u32` whose big-endian bytes are the first four of `s`.
pub open spec fn from_be32(s: Seq<u8>) -> u32 {
    ((s[0] as u32) << 24u32) | ((s[1] as u32) << 16u32) | ((s[2] as u32) << 8u32) | (s[3] as u32)
}

/// Big-endian bytes of a `u64`.
pub open spec fn be64(v: u64) -> Seq<u8> {
    be32((v >> 32u64) as u32) + be32(v as u32)
}

/// The `u64` whose big-endian bytes are the first eight of `s`.
pub open spec fn from_be64(s: Seq<u8>) -> u64 {
    ((from_be32(s.subrange(0, 4)) as u64) << 32u64) | (from_be32(s.subrange(4, 8)) as u64)
}

/// Big-endian bytes of a `u128`.
pub open spec fn be128(v: u128) -> Seq<u8> {
    be64((v >> 64u128) as u64) + be64(v as u64)
}

/// The `u128` whose big-endian bytes are the first sixteen of `s`.
pub open spec fn from_be128(s: Seq<u8>) -> u128 {
    ((from_be64(s.subrange(0, 8)) as u128) << 64u128) | (from_be64(s.subrange(8, 16)) as u128)
}

pub proof fn lemma_be32_roundtrip(v: u32)
    ensures
        be32(v).len() == 4,
        from_be32(be32(v)) == v,
{
    let b0 = (v >> 24u32) as u8;
    let b1 = (v >> 16u32) as u8;
    let b2 = (v >> 8u32) as u8;
    let b3 = v as u8;
    assert(((b0 as u32) << 24u32) | ((b1 as u32) << 16u32) | ((b2 as u32) << 8u32) | (b3 as u32)
        == v) by (bit_vector)
        requires
            b0 == (v >> 24u32) as u8,
            b1 == (v >> 16u32) as u8,
            b2 == (v >> 8u32) as u8,
            b3 == v as u8,
    ;
}

pub proof fn lemma_be64_roundtrip(v: u64)
    ensures
        be64(v).len() == 8,
        from_be64(be64(v)) == v,
{
    let hi = (v >> 32u64) as u32;
    let lo = v as u32;
    lemma_be32_roundtrip(hi);
    lemma_be32_roundtrip(lo);
    assert(be64(v).subrange(0, 4) =~= be32(hi));
    assert(be64(v).subrange(4, 8) =~= be32(lo));
    assert(((hi as u64) << 32u64) | (lo as u64) == v) by (bit_vector)
        requires
            hi == (v >> 32u64) as u32,
            lo == v as u32,
    ;
}

pub proof fn lemma_be128_roundtrip(v: u128)
    ensures
        be128(v).len() == 16,
        from_be128(be128(v)) == v,
{
    let hi = (v >> 64u128) as u64;
    let lo = v as u64;
    lemma_be64_roundtrip(hi);
    lemma_be64_roundtrip(lo);
    assert(be128(v).subrange(0, 8) =~= be64(hi));
    assert(be128(v).subrange(8, 16) =~= be64(lo));
    assert(((hi as u128) << 64u128) | (lo as u128) == v) by (bit_vector)
        requires
            hi == (v >> 64u128) as u64,
            lo == v as u64,
    ;
}

/// Appends `bytes` to the end of `buffer`.
pub fn push_all(buffer: &mut Vec<u8>, bytes: &[u8])
    ensures
        final(buffer)@ == old(buffer)@ + bytes@,
{
    let mut i: usize = 0;
    while i < bytes.len()
        invariant
            i <= bytes@.len(),
            buffer@ == old(buffer)@ + bytes@.subrange(0, i as int),
        decreases bytes@.len() - i,
    {
        buffer.push(bytes[i]);
        i = i + 1;
        assert(buffer@ =~= old(buffer)@ + bytes@.subrange(0, i as int));
    }
    assert(bytes@.subrange(0, bytes@.len() as int) =~= bytes@);
}

/// Appends the big-endian bytes of `value`.
pub fn write_be32(buffer: &mut Vec<u8>, value: u32)
    ensures
        final(buffer)@ == old(buffer)@ + be32(value),
{
    buffer.push((value >> 24u32) as u8);
    buffer.push((value >> 16u32) as u8);
    buffer.push((value >> 8u32) as u8);
    buffer.push(value as u8);
    assert(buffer@ =~= old(buffer)@ + be32(value));
}

/// Appends the big-endian bytes of `value`.
pub fn write_be64(buffer: &mut Vec<u8>, value: u64)
    ensures
        final(buffer)@ == old(buffer)@ + be64(value),
{
    write_be32(buffer, (value >> 32u64) as u32);
    write_be32(buffer, value as u32);
    assert(buffer@ =~= old(buffer)@ + be64(value));
}

/// Appends the big-endian bytes of `value`.
pub fn write_be128(buffer: &mut Vec<u8>, value: u128)
    ensures
        final(buffer)@ == old(buffer)@ + be128(value),
{
    write_be64(buffer, (value >> 64u128) as u64);
    write_be64(buffer, value as u64);
    assert(buffer@ =~= old(buffer)@ + be128(value));
}

/// Reads the `u32` stored big-endian at `bytes[at..at + 4]`.
pub fn get_be32(bytes: &[u8], at: usize) -> (v: u32)
    requires
        at + 4 <= bytes@.len(),
    ensures
        v == from_be32(bytes@.subrange(at as int, at + 4)),
{
    let s = Ghost(bytes@.subrange(at as int, at + 4));
    assert(s@[0] == bytes@[at as int] && s@[1] == bytes@[at + 1] && s@[2] == bytes@[at + 2] && s@[3]
        == bytes@[at + 3]);
    ((bytes[at] as u32) << 24u32) | ((bytes[at + 1] as u32) << 16u32) | ((bytes[at + 2] as u32)
        << 8u32) | (bytes[at + 3] as u32)
}

/// Reads the `u64` stored big-endian at `bytes[at..at + 8]`.
pub fn get_be64(bytes: &[u8], at: usize) -> (v: u64)
    requires
        at + 8 <= bytes@.len(),
    ensures
        v == from_be64(bytes@.subrange(at as int, at + 8)),
{
    let _len = bytes.len();
    let hi = get_be32(bytes, at);
    let lo = get_be32(bytes, at + 4);
    assert(bytes@.subrange(at as int, at + 8).subrange(0, 4) =~= bytes@.subrange(at as int, at + 4));
    assert(bytes@.subrange(at as int, at + 8).subrange(4, 8) =~= bytes@.subrange(at + 4, at + 8));
    ((hi as u64) << 32u64) | (lo as u64)
}

/// Reads the `u128` stored big-endian at `bytes[at..at + 16]`.
pub fn get_be128(bytes: &[u8], at: usize) -> (v: u128)
    requires
        at + 16 <= bytes@.len(),
    ensures
        v == from_be128(bytes@.subrange(at as int, at + 16)),
{
    let _len = bytes.len();
    let hi = get_be64(bytes, at);
    let lo = get_be64(bytes, at + 8);
    assert(bytes@.subrange(at as int, at + 16).subrange(0, 8) =~= bytes@.subrange(at as int, at + 8));
    assert(bytes@.subrange(at as int, at + 16).subrange(8, 16) =~= bytes@.subrange(
        at + 8,
        at + 16,
    ));
    ((hi as u128) << 64u128) | (lo as u128)
}

/// Copies `bytes[from..to]` into a new vector.
pub fn copy_range(bytes: &[u8], from: usize, to: usize) -> (out: Vec<u8>)
    requires
        from <= to <= bytes@.len(),
    ensures
        out@ == bytes@.subrange(from as int, to as int),
{
    let mut out: Vec<u8> = Vec::new();
    let mut i: usize = from;
    while i < to
        invariant
            from <= i <= to <= bytes@.len(),
            out@ == bytes@.subrange(from as int, i as int),
        decreases to - i,
    {
        out.push(bytes[i]);
        i = i + 1;
        assert(out@ =~= bytes@.subrange(from as int, i as int));
    }
    out
}

} // verus!
