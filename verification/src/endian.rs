//! Little-endian integer fields inside page buffers.
//!
//! All integers of the on-disk formats are little-endian.  These helpers
//! read and write `u16` and `u64` fields at a byte offset of a page buffer,
//! specified with vstd's little-endian byte conversions.

use vstd::bytes::{
    spec_u16_from_le_bytes, spec_u16_to_le_bytes, spec_u64_from_le_bytes, spec_u64_to_le_bytes,
    u16_from_le_bytes, u16_to_le_bytes, u64_from_le_bytes, u64_to_le_bytes,
};
use vstd::prelude::*;

verus! {

/// Copy `src` into `buf` starting at `pos`; every byte outside the copied
/// range keeps its value.
pub fn write_bytes_at(buf: &mut Vec<u8>, pos: usize, src: &[u8])
    requires
        pos + src.len() <= old(buf).len(),
    ensures
        final (buf)@.len() == old(buf)@.len(),
        final (buf)@.subrange(pos as int, pos + src.len()) == src@,
        forall|k: int|
            0 <= k < old(buf)@.len() && !(pos <= k < pos + src.len()) ==> final (buf)@[k] == old(
                buf,
            )@[k],
{
    let mut j: usize = 0;
    while j < src.len()
        invariant
            j <= src.len(),
            pos + src.len() <= usize::MAX,
            pos + src.len() <= buf@.len(),
            buf@.len() == old(buf)@.len(),
            forall|k: int| 0 <= k < j ==> buf@[pos + k] == src@[k],
            forall|k: int|
                0 <= k < buf@.len() && !(pos <= k < pos + src.len()) ==> buf@[k] == old(buf)@[k],
        decreases src.len() - j,
    {
        let b = src[j];
        buf[pos + j] = b;
        j = j + 1;
    }
    proof {
        assert(buf@.subrange(pos as int, pos + src.len()) =~= src@);
    }
}

/// Read the little-endian `u16` stored at `pos`.
pub fn read_u16_at(buf: &[u8], pos: usize) -> (r: u16)
    requires
        pos + 2 <= buf.len(),
    ensures
        r == spec_u16_from_le_bytes(buf@.subrange(pos as int, pos + 2)),
{
    u16_from_le_bytes(&buf[pos..pos + 2])
}

/// Read the little-endian `u64` stored at `pos`.
pub fn read_u64_at(buf: &[u8], pos: usize) -> (r: u64)
    requires
        pos + 8 <= buf.len(),
    ensures
        r == spec_u64_from_le_bytes(buf@.subrange(pos as int, pos + 8)),
{
    u64_from_le_bytes(&buf[pos..pos + 8])
}

/// Store `v` as a little-endian `u16` at `pos`; the rest of `buf` is kept.
pub fn write_u16_at(buf: &mut Vec<u8>, pos: usize, v: u16)
    requires
        pos + 2 <= old(buf).len(),
    ensures
        final (buf)@.len() == old(buf)@.len(),
        final (buf)@.subrange(pos as int, pos + 2) == spec_u16_to_le_bytes(v),
        forall|k: int|
            0 <= k < old(buf)@.len() && !(pos <= k < pos + 2) ==> final (buf)@[k] == old(buf)@[k],
{
    let bytes = u16_to_le_bytes(v);
    write_bytes_at(buf, pos, bytes.as_slice());
}

/// Store `v` as a little-endian `u64` at `pos`; the rest of `buf` is kept.
pub fn write_u64_at(buf: &mut Vec<u8>, pos: usize, v: u64)
    requires
        pos + 8 <= old(buf).len(),
    ensures
        final (buf)@.len() == old(buf)@.len(),
        final (buf)@.subrange(pos as int, pos + 8) == spec_u64_to_le_bytes(v),
        forall|k: int|
            0 <= k < old(buf)@.len() && !(pos <= k < pos + 8) ==> final (buf)@[k] == old(buf)@[k],
{
    let bytes = u64_to_le_bytes(v);
    write_bytes_at(buf, pos, bytes.as_slice());
}

} // verus!
