//! Byte-level layout shared by all decoders.
use vstd::prelude::*;

verus! {

/// Length of the base texture-container header.
pub const BASE_HEADER_LEN: usize = 128;

/// Length of the header when the DX10 extension follows the base header.
pub const EXTENDED_HEADER_LEN: usize = 148;

/// Position of the four-byte tag that announces the DX10 extension.
pub const DX10_TAG_OFFSET: usize = 84;

/// Length of one block record: a four-byte kind tag and a 32-bit length.
pub const RECORD_LEN: usize = 8;

/// Why a container could not be decoded.
#[derive(Debug, Clone, Copy, PartialEq, Eq, Structural)]
pub enum DecodeError {
    /// A read would run past the end of the input.
    TruncatedInput,
    /// Four bytes where a block kind tag was required are not one.
    InvalidMagic,
    /// A block record declares a negative stored length.
    InvalidBlockLength,
    /// A frame did not decompress, and the caller asked for strict decoding.
    DecompressionError,
}

/// The unsigned little-endian 32-bit value of `s[at..at + 4]`.
pub open spec fn u32_le(s: Seq<u8>, at: int) -> int {
    s[at] as int + s[at + 1] as int * 0x100 + s[at + 2] as int * 0x1_0000 + s[at + 3] as int
        * 0x100_0000
}

/// The signed (two's complement) little-endian 32-bit value of `s[at..at + 4]`.
pub open spec fn i32_le(s: Seq<u8>, at: int) -> int {
    let u = u32_le(s, at);
    if u >= 0x8000_0000 {
        u - 0x1_0000_0000
    } else {
        u
    }
}

/// Reads the unsigned little-endian 32-bit value at `at`.
pub fn read_u32_le(s: &[u8], at: usize) -> (r: u32)
    requires
        at + 4 <= s@.len(),
    ensures
        r as int == u32_le(s@, at as int),
{
    let b0 = s[at] as u32;
    let b1 = s[at + 1] as u32;
    let b2 = s[at + 2] as u32;
    let b3 = s[at + 3] as u32;
    b0 + b1 * 0x100 + b2 * 0x1_0000 + b3 * 0x100_0000
}

/// Reads the signed little-endian 32-bit value at `at`.
pub fn read_i32_le(s: &[u8], at: usize) -> (r: i32)
    requires
        at + 4 <= s@.len(),
    ensures
        r as int == i32_le(s@, at as int),
{
    let u = read_u32_le(s, at);
    if u >= 0x8000_0000 {
        (u as i64 - 0x1_0000_0000i64) as i32
    } else {
        u as i32
    }
}

} // verus!
