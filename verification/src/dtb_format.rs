//! Constants and fixed-size records of the flattened device tree format.
//!
//! All integers in a blob are big-endian. The entries of the memory reservation block are kept as
//! they stand, though: their fields are in the byte order of the machine.

use vstd::endian::{endianness, Endian};
use vstd::prelude::*;

verus! {

pub const DTB_MAGIC: u32 = 0xd00dfeed;

pub const DTB_COMP_VERSION: u32 = 16;

pub const DTB_BEGIN_NODE: u32 = 1;

pub const DTB_END_NODE: u32 = 2;

pub const DTB_PROPERTY: u32 = 3;

pub const DTB_NOP: u32 = 4;

pub const DTB_END: u32 = 9;

/// Size of a token, and the alignment of every item in the structure block.
pub const DTB_TOKEN_SIZE: usize = 4;

/// Size of the header at the start of a blob.
pub const DTB_HEADER_SIZE: usize = 40;

/// Size of the description (value size and name offset) that follows a property token.
pub const DTB_PROPERTY_DESC_SIZE: usize = 8;

/// Size of an entry (address and size, 64 bits each) of the memory reservation block.
pub const RESERVED_MEM_ENTRY_SIZE: usize = 16;

/// The header of a blob.
#[derive(Clone, Copy, Debug, PartialEq, Eq)]
pub struct DtbHeader {
    pub magic: u32,
    pub total_size: u32,
    pub struct_offset: u32,
    pub strings_offset: u32,
    pub reserved_mem_offset: u32,
    pub version: u32,
    pub last_comp_version: u32,
    pub bsp_cpu_id: u32,
    pub strings_size: u32,
    pub struct_size: u32,
}

/// An entry of the memory reservation block, with the bytes of its fields as they stand in the
/// blob.
#[derive(Clone, Copy, Debug, PartialEq, Eq)]
pub struct ReservedMemEntry {
    pub address: u64,
    pub size: u64,
}

/// The 32-bit big-endian integer at offset `at` of `bytes`.
pub open spec fn be_u32(bytes: Seq<u8>, at: int) -> u32 {
    (bytes[at] * 0x100_0000 + bytes[at + 1] * 0x1_0000 + bytes[at + 2] * 0x100 + bytes[at + 3]) as u32
}

/// Reads the 32-bit big-endian integer at offset `at`.
pub fn read_be_u32(bytes: &[u8], at: usize) -> (value: u32)
    requires
        at + 4 <= bytes@.len(),
    ensures
        value == be_u32(bytes@, at as int),
{
    bytes[at] as u32 * 0x100_0000 + bytes[at + 1] as u32 * 0x1_0000 + bytes[at + 2] as u32 * 0x100
        + bytes[at + 3] as u32
}

/// The header that the first bytes of `blob` hold.
pub open spec fn header_of(blob: Seq<u8>) -> DtbHeader {
    DtbHeader {
        magic: be_u32(blob, 0),
        total_size: be_u32(blob, 4),
        struct_offset: be_u32(blob, 8),
        strings_offset: be_u32(blob, 12),
        reserved_mem_offset: be_u32(blob, 16),
        version: be_u32(blob, 20),
        last_comp_version: be_u32(blob, 24),
        bsp_cpu_id: be_u32(blob, 28),
        strings_size: be_u32(blob, 32),
        struct_size: be_u32(blob, 36),
    }
}

/// The 64-bit integer at offset `at` of `bytes`, most significant byte first.
pub open spec fn be_u64(bytes: Seq<u8>, at: int) -> u64 {
    (bytes[at] * 0x100_0000_0000_0000 + bytes[at + 1] * 0x1_0000_0000_0000 + bytes[at + 2]
        * 0x100_0000_0000 + bytes[at + 3] * 0x1_0000_0000 + bytes[at + 4] * 0x100_0000 + bytes[at
        + 5] * 0x1_0000 + bytes[at + 6] * 0x100 + bytes[at + 7]) as u64
}

/// The 64-bit integer at offset `at` of `bytes`, least significant byte first.
pub open spec fn le_u64(bytes: Seq<u8>, at: int) -> u64 {
    (bytes[at] + bytes[at + 1] * 0x100 + bytes[at + 2] * 0x1_0000 + bytes[at + 3] * 0x100_0000
        + bytes[at + 4] * 0x1_0000_0000 + bytes[at + 5] * 0x100_0000_0000 + bytes[at + 6]
        * 0x1_0000_0000_0000 + bytes[at + 7] * 0x100_0000_0000_0000) as u64
}

/// The 64-bit integer at offset `at` of `bytes`, in the byte order of the machine.
pub open spec fn native_u64(bytes: Seq<u8>, at: int) -> u64 {
    match endianness() {
        Endian::Big => be_u64(bytes, at),
        Endian::Little => le_u64(bytes, at),
    }
}

/// Calls `u64::from_ne_bytes`, which reads eight bytes in the byte order of the machine: most
/// significant byte first on a big-endian one, least significant byte first on a little-endian
/// one.
#[verifier::external_body]
fn from_native_bytes(bytes: [u8; 8]) -> (value: u64)
    ensures
        value == native_u64(bytes@, 0),
{
    u64::from_ne_bytes(bytes)
}

/// The entry of the memory reservation block at offset `at` of `bytes`.
pub open spec fn entry_at(bytes: Seq<u8>, at: int) -> ReservedMemEntry {
    ReservedMemEntry { address: native_u64(bytes, at), size: native_u64(bytes, at + 8) }
}

/// Reads the 64-bit integer at offset `at`, in the byte order of the machine.
fn read_native_u64(bytes: &[u8], at: usize) -> (value: u64)
    requires
        at + 8 <= bytes@.len(),
    ensures
        value == native_u64(bytes@, at as int),
{
    from_native_bytes(
        [
            bytes[at],
            bytes[at + 1],
            bytes[at + 2],
            bytes[at + 3],
            bytes[at + 4],
            bytes[at + 5],
            bytes[at + 6],
            bytes[at + 7],
        ],
    )
}

/// Reads the entry of the memory reservation block at offset `at`.
pub fn read_entry(bytes: &[u8], at: usize) -> (entry: ReservedMemEntry)
    requires
        at + RESERVED_MEM_ENTRY_SIZE <= bytes@.len(),
    ensures
        entry == entry_at(bytes@, at as int),
{
    assert(bytes.len() == bytes@.len());
    ReservedMemEntry { address: read_native_u64(bytes, at), size: read_native_u64(bytes, at + 8) }
}

} // verus!
