//! Little-endian decoding of the fixed-width integer fields that make up the
//! archive header and the directory records.
//!
//! Every field is assembled as a plain little-endian integer of exactly the
//! bytes that the field occupies: the first byte is the least significant.
//! The 3-byte coordinate fields and the 6-byte offset field go through the
//! named functions below, so the convention is visible in one place and could
//! be swapped without touching the record layout.

use vstd::prelude::*;

verus! {

/// Value of two bytes read as a little-endian integer.
pub open spec fn le16(s: Seq<u8>) -> int
    recommends
        s.len() == 2,
{
    s[0] + s[1] * 0x100
}

/// Value of three bytes read as a little-endian integer.
pub open spec fn le24(s: Seq<u8>) -> int
    recommends
        s.len() == 3,
{
    s[0] + s[1] * 0x100 + s[2] * 0x10000
}

/// Value of four bytes read as a little-endian integer.
pub open spec fn le32(s: Seq<u8>) -> int
    recommends
        s.len() == 4,
{
    s[0] + s[1] * 0x100 + s[2] * 0x10000 + s[3] * 0x1000000
}

/// Value of six bytes read as a little-endian integer.
pub open spec fn le48(s: Seq<u8>) -> int
    recommends
        s.len() == 6,
{
    s[0] + s[1] * 0x100 + s[2] * 0x10000 + s[3] * 0x1000000 + s[4] * 0x100000000
        + s[5] * 0x10000000000
}

/// Reads the 2-byte little-endian field at `i`.
pub fn read_u16_le(b: &[u8], i: usize) -> (r: u16)
    requires
        i + 2 <= b@.len(),
    ensures
        r == le16(b@.subrange(i as int, i + 2)),
{
    // Pins the slice length as a usize, bounding the index arithmetic below.
    let _n: usize = b.len();
    let b0 = *vstd::slice::slice_index_get(b, i);
    let b1 = *vstd::slice::slice_index_get(b, i + 1);
    proof {
        let s = b@.subrange(i as int, i + 2);
        assert(s[0] == b@[i as int] && s[1] == b@[i + 1]);
    }
    b0 as u16 + b1 as u16 * 0x100
}

/// Reads the 3-byte little-endian field at `i`; the result is the plain value
/// of those bytes, with the missing high byte taken as zero.
pub fn read_u24_le(b: &[u8], i: usize) -> (r: u32)
    requires
        i + 3 <= b@.len(),
    ensures
        r == le24(b@.subrange(i as int, i + 3)),
{
    // Pins the slice length as a usize, bounding the index arithmetic below.
    let _n: usize = b.len();
    let b0 = *vstd::slice::slice_index_get(b, i);
    let b1 = *vstd::slice::slice_index_get(b, i + 1);
    let b2 = *vstd::slice::slice_index_get(b, i + 2);
    proof {
        let s = b@.subrange(i as int, i + 3);
        assert(s[0] == b@[i as int] && s[1] == b@[i + 1] && s[2] == b@[i + 2]);
    }
    b0 as u32 + b1 as u32 * 0x100 + b2 as u32 * 0x10000
}

/// Reads the 4-byte little-endian field at `i`.
pub fn read_u32_le(b: &[u8], i: usize) -> (r: u32)
    requires
        i + 4 <= b@.len(),
    ensures
        r == le32(b@.subrange(i as int, i + 4)),
{
    // Pins the slice length as a usize, bounding the index arithmetic below.
    let _n: usize = b.len();
    let b0 = *vstd::slice::slice_index_get(b, i);
    let b1 = *vstd::slice::slice_index_get(b, i + 1);
    let b2 = *vstd::slice::slice_index_get(b, i + 2);
    let b3 = *vstd::slice::slice_index_get(b, i + 3);
    proof {
        let s = b@.subrange(i as int, i + 4);
        assert(s[0] == b@[i as int] && s[1] == b@[i + 1] && s[2] == b@[i + 2] && s[3] == b@[i
            + 3]);
    }
    b0 as u32 + b1 as u32 * 0x100 + b2 as u32 * 0x10000 + b3 as u32 * 0x1000000
}

/// Reads the 6-byte little-endian field at `i`; the result is the plain value
/// of those bytes, with the two missing high bytes taken as zero.
pub fn read_u48_le(b: &[u8], i: usize) -> (r: u64)
    requires
        i + 6 <= b@.len(),
    ensures
        r == le48(b@.subrange(i as int, i + 6)),
{
    // Pins the slice length as a usize, bounding the index arithmetic below.
    let _n: usize = b.len();
    let b0 = *vstd::slice::slice_index_get(b, i);
    let b1 = *vstd::slice::slice_index_get(b, i + 1);
    let b2 = *vstd::slice::slice_index_get(b, i + 2);
    let b3 = *vstd::slice::slice_index_get(b, i + 3);
    let b4 = *vstd::slice::slice_index_get(b, i + 4);
    let b5 = *vstd::slice::slice_index_get(b, i + 5);
    proof {
        let s = b@.subrange(i as int, i + 6);
        assert(s[0] == b@[i as int] && s[1] == b@[i + 1] && s[2] == b@[i + 2] && s[3] == b@[i + 3]
            && s[4] == b@[i + 4] && s[5] == b@[i + 5]);
    }
    b0 as u64 + b1 as u64 * 0x100 + b2 as u64 * 0x10000 + b3 as u64 * 0x1000000 + b4 as u64
        * 0x100000000 + b5 as u64 * 0x10000000000
}

} // verus!
