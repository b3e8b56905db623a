//! Errors reported while reading a blob.

use core::str::Utf8Error;
use vstd::prelude::*;

verus! {

/// What can be wrong with a blob, or with a search in it.
#[derive(Clone, Copy, Debug, PartialEq, Eq)]
pub enum Error {
    /// The blob does not start with the magic number.
    BadMagic,
    /// The name of a node is not terminated within the structure block.
    BadNodeName,
    /// The name of a property is not terminated within the strings block.
    BadPropertyName,
    /// The name of a node or a property is not valid UTF-8.
    BadStrEncoding(Utf8Error),
    /// The structure block holds an unknown token.
    BadStructToken,
    /// The total size in the header is not the size of the blob.
    BadTotalSize,
    /// The blob is older than the last version it claims to be compatible with.
    BadVersion,
    /// The end token of the structure block has been reached.
    NoMoreStructItems,
    /// No zero entry terminates the memory reservation block.
    NoZeroReservedMemEntry,
    /// The memory reservation block runs into the structure block.
    OverlappingReservedMem,
    /// The strings block runs past the end of the blob.
    OverlappingStrings,
    /// The structure block runs into the strings block.
    OverlappingStruct,
    /// The memory reservation block is not aligned to eight bytes.
    UnalignedReservedMem,
    /// The structure block is not aligned to four bytes, or its size is not a multiple of four.
    UnalignedStruct,
    /// The blob is too short to hold a header.
    UnexpectedEndOfBlob,
    /// The structure block ends within a token or an item.
    UnexpectedEndOfStruct,
    /// The blob is not compatible with the supported version of the format.
    UnsupportedCompVersion,
}

} // verus!
