//! The layout of a blob: a header, and the three blocks it refers to.

use crate::dtb_format::{
    entry_at, header_of, DtbHeader, ReservedMemEntry, DTB_COMP_VERSION, DTB_HEADER_SIZE, DTB_MAGIC,
    RESERVED_MEM_ENTRY_SIZE,
};
use crate::error::Error;
use vstd::prelude::*;

verus! {

/// The blocks of a blob.
#[verifier::ext_equal]
pub ghost struct Blocks {
    /// The entries of the memory reservation block before the zero entry that ends it.
    pub reserved_mem: Seq<ReservedMemEntry>,
    pub struct_block: Seq<u8>,
    pub strings_block: Seq<u8>,
}

/// What is wrong with the header of `blob`, if anything.
pub open spec fn header_error(blob: Seq<u8>) -> Option<Error> {
    let header = header_of(blob);
    if blob.len() < 4 || header.magic != DTB_MAGIC {
        Some(Error::BadMagic)
    } else if blob.len() < DTB_HEADER_SIZE {
        Some(Error::UnexpectedEndOfBlob)
    } else if header.version < header.last_comp_version {
        Some(Error::BadVersion)
    } else if header.last_comp_version != DTB_COMP_VERSION {
        Some(Error::UnsupportedCompVersion)
    } else if header.total_size != blob.len() {
        Some(Error::BadTotalSize)
    } else {
        None
    }
}

/// How many entries fit between the start of the memory reservation block and the structure
/// block.
pub open spec fn reserved_mem_room(header: DtbHeader) -> int {
    (header.struct_offset - header.reserved_mem_offset) / RESERVED_MEM_ENTRY_SIZE as int
}

/// Entry number `index` of the memory reservation block.
pub open spec fn reserved_mem_entry(
    blob: Seq<u8>,
    header: DtbHeader,
    index: int,
) -> ReservedMemEntry {
    entry_at(blob, header.reserved_mem_offset + RESERVED_MEM_ENTRY_SIZE * index)
}

/// Whether both the address and the size of an entry are zero.
pub open spec fn is_zero_entry(entry: ReservedMemEntry) -> bool {
    entry.address == 0 && entry.size == 0
}

/// The first zero entry at or after `index`, or the number of entries that there is room for if
/// none of these is zero.
pub open spec fn first_zero_entry(blob: Seq<u8>, header: DtbHeader, index: int) -> int
    decreases reserved_mem_room(header) - index,
{
    if index >= reserved_mem_room(header) {
        reserved_mem_room(header)
    } else if is_zero_entry(reserved_mem_entry(blob, header, index)) {
        index
    } else {
        first_zero_entry(blob, header, index + 1)
    }
}

/// How many entries there are before the zero entry.
pub open spec fn reserved_mem_count(blob: Seq<u8>, header: DtbHeader) -> int {
    first_zero_entry(blob, header, 0)
}

/// The entries before the zero entry.
pub open spec fn reserved_mem_of(blob: Seq<u8>, header: DtbHeader) -> Seq<ReservedMemEntry> {
    Seq::new(
        reserved_mem_count(blob, header) as nat,
        |i: int| reserved_mem_entry(blob, header, i),
    )
}

/// Whether an entry fits between the start of the memory reservation block and the structure
/// block, and the former is aligned.
pub open spec fn reserved_mem_placed(header: DtbHeader) -> bool {
    &&& header.reserved_mem_offset + RESERVED_MEM_ENTRY_SIZE <= header.struct_offset
    &&& header.reserved_mem_offset % 8 == 0
}

/// What is wrong with the memory reservation block, if anything.
pub open spec fn reserved_mem_error(blob: Seq<u8>, header: DtbHeader) -> Option<Error> {
    if header.reserved_mem_offset + RESERVED_MEM_ENTRY_SIZE > header.struct_offset {
        Some(Error::OverlappingReservedMem)
    } else if header.reserved_mem_offset % 8 != 0 {
        Some(Error::UnalignedReservedMem)
    } else if reserved_mem_count(blob, header) == reserved_mem_room(header) {
        Some(Error::NoZeroReservedMemEntry)
    } else {
        None
    }
}

/// What is wrong with the structure block, if anything.
pub open spec fn struct_error(header: DtbHeader) -> Option<Error> {
    if header.struct_offset % 4 != 0 || header.struct_size % 4 != 0 {
        Some(Error::UnalignedStruct)
    } else if header.struct_offset + header.struct_size > header.strings_offset {
        Some(Error::OverlappingStruct)
    } else {
        None
    }
}

/// What is wrong with the strings block, if anything.
pub open spec fn strings_error(header: DtbHeader) -> Option<Error> {
    if header.strings_offset + header.strings_size > header.total_size {
        Some(Error::OverlappingStrings)
    } else {
        None
    }
}

/// What is wrong with `blob`, if anything: the first fault of its header, its memory reservation
/// block, its structure block and its strings block, in this order.
pub open spec fn blob_error(blob: Seq<u8>) -> Option<Error> {
    let header = header_of(blob);
    if header_error(blob) is Some {
        header_error(blob)
    } else if reserved_mem_error(blob, header) is Some {
        reserved_mem_error(blob, header)
    } else if struct_error(header) is Some {
        struct_error(header)
    } else {
        strings_error(header)
    }
}

/// The blocks of a blob without a fault.
pub open spec fn blocks_of(blob: Seq<u8>) -> Blocks {
    let header = header_of(blob);
    let structs = header.struct_offset as int;
    let strings = header.strings_offset as int;
    Blocks {
        reserved_mem: reserved_mem_of(blob, header),
        struct_block: blob.subrange(structs, structs + header.struct_size),
        strings_block: blob.subrange(strings, strings + header.strings_size),
    }
}

/// The offsets that are added up for the memory reservation block fit 32 bits, and the entries
/// that have to be looked at lie within the blob.
pub open spec fn reserved_mem_in_range(blob: Seq<u8>, header: DtbHeader) -> bool {
    &&& header.reserved_mem_offset + RESERVED_MEM_ENTRY_SIZE <= u32::MAX
    &&& reserved_mem_placed(header) ==> header.reserved_mem_offset + RESERVED_MEM_ENTRY_SIZE
        * reserved_mem_room(header) <= blob.len()
}

/// The end of an aligned structure block fits 32 bits, and lies within the blob unless the block
/// runs into the strings block.
pub open spec fn struct_in_range(blob: Seq<u8>, header: DtbHeader) -> bool {
    struct_error(header) != Some(Error::UnalignedStruct) ==> {
        &&& header.struct_offset + header.struct_size <= u32::MAX
        &&& struct_error(header) is None ==> header.struct_offset + header.struct_size
            <= blob.len()
    }
}

/// The end of the strings block fits 32 bits.
pub open spec fn strings_in_range(header: DtbHeader) -> bool {
    header.strings_offset + header.strings_size <= u32::MAX
}

/// Whether the blocks of `blob` are in range, as far as they have to be looked at to find its
/// first fault.
pub open spec fn blob_in_range(blob: Seq<u8>) -> bool {
    let header = header_of(blob);
    header_error(blob) is None ==> {
        &&& reserved_mem_in_range(blob, header)
        &&& reserved_mem_error(blob, header) is None ==> {
            &&& struct_in_range(blob, header)
            &&& struct_error(header) is None ==> strings_in_range(header)
        }
    }
}

} // verus!
