//! Little-endian integer extraction and the 4-byte alignment rule shared by
//! the container and region chunk framings.

use vstd::prelude::*;

verus! {

/// The little-endian 32-bit value packed from four bytes.
pub open spec fn spec_le32(b0: u8, b1: u8, b2: u8, b3: u8) -> u32 {
    (b0 + b1 * 0x100 + b2 * 0x1_0000 + b3 * 0x100_0000) as u32
}

/// The little-endian 32-bit value at offset `i` of `data`.
pub open spec fn le32_at(data: Seq<u8>, i: int) -> u32 {
    spec_le32(data[i], data[i + 1], data[i + 2], data[i + 3])
}

/// Reads the little-endian 32-bit value at offset `i` of `data`.
pub fn read_le32(data: &[u8], i: usize) -> (r: u32)
    requires
        i + 4 <= data@.len(),
    ensures
        r == le32_at(data@, i as int),
{
    let b0 = data[i] as u32;
    let b1 = data[i + 1] as u32;
    let b2 = data[i + 2] as u32;
    let b3 = data[i + 3] as u32;
    b0 + b1 * 0x100 + b2 * 0x1_0000 + b3 * 0x100_0000
}

/// `n` rounded up to the next multiple of 4; chunk payloads are padded to
/// 4-byte alignment.
pub open spec fn align4(n: int) -> int {
    ((n + 3) / 4) * 4
}

/// Rounds `n` up to the next multiple of 4.
pub fn round_up4(n: usize) -> (r: usize)
    requires
        n + 3 <= usize::MAX,
    ensures
        r == align4(n as int),
        n <= r <= n + 3,
{
    ((n + 3) / 4) * 4
}

} // verus!
