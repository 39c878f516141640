//! Little-endian integer fields of on-disk structures.

use vstd::prelude::*;

verus! {

/// The 16-bit little-endian value at `off`.
pub open spec fn spec_le16(b: Seq<u8>, off: int) -> int {
    b[off] + 0x100 * b[off + 1]
}

/// The 32-bit little-endian value at `off`.
pub open spec fn spec_le32(b: Seq<u8>, off: int) -> int {
    b[off] + 0x100 * b[off + 1] + 0x1_0000 * b[off + 2] + 0x100_0000 * b[off + 3]
}

/// Reads the 16-bit little-endian value at `off`.
pub fn le16(b: &Vec<u8>, off: usize) -> (r: u16)
    requires
        off + 2 <= b@.len(),
    ensures
        r == spec_le16(b@, off as int),
{
    let n = b.len();
    let b0 = b[off];
    let b1 = b[off + 1];
    let r = (b0 as u16) | ((b1 as u16) << 8u16);
    proof {
        assert(r == (b0 as u16) + 0x100 * (b1 as u16)) by (bit_vector)
            requires r == ((b0 as u16) | ((b1 as u16) << 8u16));
    }
    r
}

/// Reads the 32-bit little-endian value at `off`.
pub fn le32(b: &Vec<u8>, off: usize) -> (r: u32)
    requires
        off + 4 <= b@.len(),
    ensures
        r == spec_le32(b@, off as int),
{
    let n = b.len();
    let b0 = b[off];
    let b1 = b[off + 1];
    let b2 = b[off + 2];
    let b3 = b[off + 3];
    let r = (b0 as u32) | ((b1 as u32) << 8u32) | ((b2 as u32) << 16u32)
        | ((b3 as u32) << 24u32);
    proof {
        assert(r == (b0 as u32) + 0x100 * (b1 as u32) + 0x1_0000 * (b2 as u32)
            + 0x100_0000 * (b3 as u32)) by (bit_vector)
            requires r == ((b0 as u32) | ((b1 as u32) << 8u32) | ((b2 as u32) << 16u32)
                | ((b3 as u32) << 24u32));
    }
    r
}

} // verus!
