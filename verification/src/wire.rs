//! Little-endian integer fields of the container format.
//!
//! Every multi-byte integer in the container is stored little-endian.
//! Both the spec-level encodings and the executable conversions come from
//! `vstd::bytes`; the helpers here work on a byte buffer and a cursor.

use vstd::bytes::{
    spec_u16_from_le_bytes, spec_u16_to_le_bytes, spec_u32_from_le_bytes, spec_u32_to_le_bytes,
    spec_u64_from_le_bytes, spec_u64_to_le_bytes, u16_from_le_bytes, u16_to_le_bytes,
    u32_from_le_bytes, u32_to_le_bytes, u64_from_le_bytes, u64_to_le_bytes,
};
use vstd::prelude::*;
use vstd::slice::slice_subrange;

verus! {

/// Reads the little-endian `u16` stored at `data[pos..pos + 2]`.
pub fn read_u16_le(data: &Vec<u8>, pos: usize) -> (r: u16)
    requires
        pos + 2 <= data@.len(),
    ensures
        r == spec_u16_from_le_bytes(data@.subrange(pos as int, pos + 2)),
{
    let _n: usize = data.len();
    let s = slice_subrange(data.as_slice(), pos, pos + 2);
    u16_from_le_bytes(s)
}

/// Reads the little-endian `u32` stored at `data[pos..pos + 4]`.
pub fn read_u32_le(data: &Vec<u8>, pos: usize) -> (r: u32)
    requires
        pos + 4 <= data@.len(),
    ensures
        r == spec_u32_from_le_bytes(data@.subrange(pos as int, pos + 4)),
{
    let _n: usize = data.len();
    let s = slice_subrange(data.as_slice(), pos, pos + 4);
    u32_from_le_bytes(s)
}

/// Reads the little-endian `u64` stored at `data[pos..pos + 8]`.
pub fn read_u64_le(data: &Vec<u8>, pos: usize) -> (r: u64)
    requires
        pos + 8 <= data@.len(),
    ensures
        r == spec_u64_from_le_bytes(data@.subrange(pos as int, pos + 8)),
{
    let _n: usize = data.len();
    let s = slice_subrange(data.as_slice(), pos, pos + 8);
    u64_from_le_bytes(s)
}

/// Appends the little-endian encoding of `v` to `out`.
pub fn write_u16_le(out: &mut Vec<u8>, v: u16)
    ensures
        final(out)@ == old(out)@ + spec_u16_to_le_bytes(v),
{
    let mut b = u16_to_le_bytes(v);
    out.append(&mut b);
}

/// Appends the little-endian encoding of `v` to `out`.
pub fn write_u32_le(out: &mut Vec<u8>, v: u32)
    ensures
        final(out)@ == old(out)@ + spec_u32_to_le_bytes(v),
{
    let mut b = u32_to_le_bytes(v);
    out.append(&mut b);
}

/// Appends the little-endian encoding of `v` to `out`.
pub fn write_u64_le(out: &mut Vec<u8>, v: u64)
    ensures
        final(out)@ == old(out)@ + spec_u64_to_le_bytes(v),
{
    let mut b = u64_to_le_bytes(v);
    out.append(&mut b);
}

/// Appends `count` bytes of `data` starting at `pos` to `out`.
pub fn copy_bytes(out: &mut Vec<u8>, data: &Vec<u8>, pos: usize, count: usize)
    requires
        pos + count <= data@.len(),
    ensures
        final(out)@ == old(out)@ + data@.subrange(pos as int, pos + count),
{
    let n = data.len();
    let mut i: usize = 0;
    while i < count
        invariant
            pos + count <= n == data@.len(),
            i <= count,
            out@ == old(out)@ + data@.subrange(pos as int, pos + i),
        decreases count - i,
    {
        out.push(data[pos + i]);
        proof {
            assert(out@ =~= old(out)@ + data@.subrange(pos as int, pos + i + 1));
        }
        i = i + 1;
    }
}

/// Compares two byte vectors for equality of their contents.
pub fn vec_u8_eq(a: &Vec<u8>, b: &Vec<u8>) -> (r: bool)
    ensures
        r == (a@ == b@),
{
    if a.len() != b.len() {
        return false;
    }
    let mut i: usize = 0;
    while i < a.len()
        invariant
            a@.len() == b@.len(),
            i <= a@.len(),
            forall|j: int| 0 <= j < i ==> a@[j] == b@[j],
        decreases a@.len() - i,
    {
        if a[i] != b[i] {
            return false;
        }
        i = i + 1;
    }
    proof {
        assert(a@ =~= b@);
    }
    true
}

/// Copies `data[pos..pos + count]` into a fresh vector.
pub fn take_bytes(data: &Vec<u8>, pos: usize, count: usize) -> (r: Vec<u8>)
    requires
        pos + count <= data@.len(),
    ensures
        r@ == data@.subrange(pos as int, pos + count),
{
    let mut out: Vec<u8> = Vec::new();
    copy_bytes(&mut out, data, pos, count);
    proof {
        assert(out@ =~= data@.subrange(pos as int, pos + count));
    }
    out
}

} // verus!
