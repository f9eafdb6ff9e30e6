//! Byte-level helpers shared by the fixed binary layouts of the storage
//! engine: little-endian integers appended to a buffer, and byte ranges
//! copied into and out of fixed-size blocks.
use vstd::bytes::*;
use vstd::prelude::*;

verus! {

/// Append the little-endian bytes of `x`.
pub fn push_u16(v: &mut Vec<u8>, x: u16)
    ensures
        final(v)@ == old(v)@ + spec_u16_to_le_bytes(x),
{
    let mut b = u16_to_le_bytes(x);
    v.append(&mut b);
}

/// Append the little-endian bytes of `x`.
pub fn push_u32(v: &mut Vec<u8>, x: u32)
    ensures
        final(v)@ == old(v)@ + spec_u32_to_le_bytes(x),
{
    let mut b = u32_to_le_bytes(x);
    v.append(&mut b);
}

/// Append the little-endian bytes of `x`.
pub fn push_u64(v: &mut Vec<u8>, x: u64)
    ensures
        final(v)@ == old(v)@ + spec_u64_to_le_bytes(x),
{
    let mut b = u64_to_le_bytes(x);
    v.append(&mut b);
}

/// Append every byte of `src`.
pub fn push_slice(v: &mut Vec<u8>, src: &[u8])
    ensures
        final(v)@ == old(v)@ + src@,
{
    let ghost start = v@;
    let mut i: usize = 0;
    while i < src.len()
        invariant
            i <= src@.len(),
            v@ == start + src@.subrange(0, i as int),
        decreases src@.len() - i,
    {
        v.push(src[i]);
        i += 1;
        assert(src@.subrange(0, i as int) =~= src@.subrange(0, i - 1) + seq![src@[i - 1]]);
    }
    assert(src@.subrange(0, src@.len() as int) =~= src@);
}

/// Copy `src` into `buf` starting at `at`; the other bytes keep their value.
pub fn copy_into<const N: usize>(buf: &mut [u8; N], at: usize, src: &[u8])
    requires
        at + src@.len() <= N,
    ensures
        final(buf)@ == old(buf)@.subrange(0, at as int) + src@ + old(buf)@.subrange(
            at + src@.len(),
            N as int,
        ),
{
    let ghost orig = buf@;
    let mut i: usize = 0;
    while i < src.len()
        invariant
            i <= src@.len(),
            at + src@.len() <= N,
            buf@.len() == N,
            orig.len() == N,
            forall|j: int|
                0 <= j < N ==> #[trigger] buf@[j] == if at <= j < at + i {
                    src@[j - at]
                } else {
                    orig[j]
                },
        decreases src@.len() - i,
    {
        buf[at + i] = src[i];
        i += 1;
    }
    assert(buf@ =~= orig.subrange(0, at as int) + src@ + orig.subrange(at + src@.len(), N as int));
}

/// The bytes `buf[at..at + len]`.
pub fn read_range<const N: usize>(buf: &[u8; N], at: usize, len: usize) -> (r: Vec<u8>)
    requires
        at + len <= N,
    ensures
        r@ == buf@.subrange(at as int, at + len),
{
    let mut r: Vec<u8> = Vec::new();
    let mut i: usize = 0;
    while i < len
        invariant
            i <= len,
            at + len <= N,
            buf@.len() == N,
            r@ == buf@.subrange(at as int, at + i),
        decreases len - i,
    {
        r.push(buf[at + i]);
        i += 1;
        assert(r@ =~= buf@.subrange(at as int, at + i));
    }
    r
}

/// The little-endian `u16` at `buf[at..at + 2]`.
pub fn get_u16<const N: usize>(buf: &[u8; N], at: usize) -> (x: u16)
    requires
        at + 2 <= N,
    ensures
        x == spec_u16_from_le_bytes(buf@.subrange(at as int, at + 2)),
{
    let b = read_range(buf, at, 2);
    u16_from_le_bytes(b.as_slice())
}

/// The little-endian `u32` at `buf[at..at + 4]`.
pub fn get_u32<const N: usize>(buf: &[u8; N], at: usize) -> (x: u32)
    requires
        at + 4 <= N,
    ensures
        x == spec_u32_from_le_bytes(buf@.subrange(at as int, at + 4)),
{
    let b = read_range(buf, at, 4);
    u32_from_le_bytes(b.as_slice())
}

/// The little-endian `u64` at `buf[at..at + 8]`.
pub fn get_u64<const N: usize>(buf: &[u8; N], at: usize) -> (x: u64)
    requires
        at + 8 <= N,
    ensures
        x == spec_u64_from_le_bytes(buf@.subrange(at as int, at + 8)),
{
    let b = read_range(buf, at, 8);
    u64_from_le_bytes(b.as_slice())
}

} // verus!
