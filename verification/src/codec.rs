//! Small byte-buffer building blocks shared by the on-disk codecs.
//!
//! Sectors are built by appending fields in their on-disk order, so the only
//! primitives needed are appending raw bytes, zero padding, and little-endian
//! integers, together with reads at fixed offsets.

use vstd::bytes::{spec_u16_from_le_bytes, spec_u64_from_le_bytes, u16_from_le_bytes, u16_to_le_bytes, u64_from_le_bytes, u64_to_le_bytes};
use vstd::prelude::*;
use vstd::slice::slice_subrange;

verus! {

/// A sequence of `n` zero bytes.
pub open spec fn zeros(n: nat) -> Seq<u8> {
    Seq::new(n, |i: int| 0u8)
}

/// Append every byte of `src` to `dst`.
pub fn push_bytes(dst: &mut Vec<u8>, src: &[u8])
    ensures
        final(dst)@ == old(dst)@ + src@,
{
    let mut i: usize = 0;
    while i < src.len()
        invariant
            i <= src@.len(),
            dst@ == old(dst)@ + src@.subrange(0, i as int),
        decreases src@.len() - i,
    {
        dst.push(src[i]);
        i = i + 1;
        proof {
            assert(src@.subrange(0, i as int) == src@.subrange(0, i - 1).push(src@[i - 1]));
        }
    }
    proof {
        assert(src@.subrange(0, src@.len() as int) == src@);
    }
}

/// Copy a vector of plain values into a fresh vector.
pub fn copy_vec<T: Copy>(src: &Vec<T>) -> (r: Vec<T>)
    ensures
        r@ == src@,
{
    let mut v: Vec<T> = Vec::new();
    let mut i: usize = 0;
    while i < src.len()
        invariant
            i <= src@.len(),
            v@ == src@.subrange(0, i as int),
        decreases src@.len() - i,
    {
        v.push(src[i]);
        i = i + 1;
        proof {
            assert(src@.subrange(0, i as int) =~= src@.subrange(0, i - 1).push(src@[i - 1]));
        }
    }
    proof {
        assert(src@.subrange(0, src@.len() as int) =~= src@);
    }
    v
}

/// Copy a byte slice into a fresh vector.
pub fn clone_bytes(src: &[u8]) -> (r: Vec<u8>)
    ensures
        r@ == src@,
{
    let mut v: Vec<u8> = Vec::new();
    push_bytes(&mut v, src);
    proof {
        assert(v@ =~= src@);
    }
    v
}

/// Append `n` zero bytes to `dst`.
pub fn push_zeros(dst: &mut Vec<u8>, n: usize)
    ensures
        final(dst)@ == old(dst)@ + zeros(n as nat),
{
    let mut i: usize = 0;
    while i < n
        invariant
            i <= n,
            dst@ == old(dst)@ + zeros(i as nat),
        decreases n - i,
    {
        dst.push(0u8);
        i = i + 1;
        proof {
            assert(zeros(i as nat) == zeros((i - 1) as nat).push(0u8));
        }
    }
}

/// Append the two little-endian bytes of `x` to `dst`.
pub fn push_u16_le(dst: &mut Vec<u8>, x: u16)
    ensures
        final(dst)@ == old(dst)@ + vstd::bytes::spec_u16_to_le_bytes(x),
        final(dst)@.len() == old(dst)@.len() + 2,
{
    let bytes = u16_to_le_bytes(x);
    push_bytes(dst, bytes.as_slice());
    proof {
        vstd::bytes::lemma_auto_spec_u16_to_from_le_bytes();
    }
}

/// Append the eight little-endian bytes of `x` to `dst`.
pub fn push_u64_le(dst: &mut Vec<u8>, x: u64)
    ensures
        final(dst)@ == old(dst)@ + vstd::bytes::spec_u64_to_le_bytes(x),
        final(dst)@.len() == old(dst)@.len() + 8,
{
    let bytes = u64_to_le_bytes(x);
    push_bytes(dst, bytes.as_slice());
    proof {
        vstd::bytes::lemma_auto_spec_u64_to_from_le_bytes();
    }
}

/// The little-endian `u64` stored at offset `off` of `buf`.
pub open spec fn spec_u64_at(buf: Seq<u8>, off: int) -> u64 {
    spec_u64_from_le_bytes(buf.subrange(off, off + 8))
}

/// The little-endian `u16` stored at offset `off` of `buf`.
pub open spec fn spec_u16_at(buf: Seq<u8>, off: int) -> u16 {
    spec_u16_from_le_bytes(buf.subrange(off, off + 2))
}

/// Read the little-endian `u64` stored at offset `off` of `buf`.
pub fn read_u64_at(buf: &[u8], off: usize) -> (r: u64)
    requires
        off + 8 <= buf@.len(),
    ensures
        r == spec_u64_at(buf@, off as int),
{
    let _n = buf.len();
    let part = slice_subrange(buf, off, off + 8);
    u64_from_le_bytes(part)
}

/// Read the little-endian `u16` stored at offset `off` of `buf`.
pub fn read_u16_at(buf: &[u8], off: usize) -> (r: u16)
    requires
        off + 2 <= buf@.len(),
    ensures
        r == spec_u16_at(buf@, off as int),
{
    let _n = buf.len();
    let part = slice_subrange(buf, off, off + 2);
    u16_from_le_bytes(part)
}

} // verus!
