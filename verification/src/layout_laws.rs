//! Laws of the layout: which blobs are accepted, what is wrong with the others, and where the
//! blocks of a blob are.

use crate::dtb_format::{be_u32, entry_at, header_of};
use crate::error::Error;
use crate::laws::{law_zero_entry_is_zero_bytes, lemma_first_zero_entry};
use crate::layout::{
    blob_error, blob_in_range, blocks_of, is_zero_entry, reserved_mem_count, reserved_mem_entry,
    reserved_mem_room,
};
use vstd::prelude::*;

verus! {

/// The memory reservation block is terminated exactly if one of its entries consists of zero bytes.
proof fn lemma_terminated(blob: Seq<u8>)
    requires
        be_u32(blob, 16) + 16 <= be_u32(blob, 8),
    ensures
        (reserved_mem_count(blob, header_of(blob)) < reserved_mem_room(header_of(blob))) <==> (
        exists|at: int|
            {
                &&& be_u32(blob, 16) <= at
                &&& at + 16 <= be_u32(blob, 8)
                &&& (at - be_u32(blob, 16)) % 16 == 0
                &&& #[trigger] is_zero_entry(entry_at(blob, at))
            }),
{
    let header = header_of(blob);
    let start = be_u32(blob, 16) as int;
    let count = reserved_mem_count(blob, header);
    let room = reserved_mem_room(header);
    lemma_first_zero_entry(blob, header, 0);
    if count < room {
        let at = start + 16 * count;
        assert(is_zero_entry(reserved_mem_entry(blob, header, count)));
        assert(is_zero_entry(entry_at(blob, at)));
    }
    if exists|at: int|
        {
            &&& start <= at
            &&& at + 16 <= be_u32(blob, 8)
            &&& (at - start) % 16 == 0
            &&& #[trigger] is_zero_entry(entry_at(blob, at))
        } {
        let at = choose|at: int|
            {
                &&& start <= at
                &&& at + 16 <= be_u32(blob, 8)
                &&& (at - start) % 16 == 0
                &&& #[trigger] is_zero_entry(entry_at(blob, at))
            };
        let index = (at - start) / 16;
        assert(start + 16 * index == at);
        assert(0 <= index < room);
        assert(is_zero_entry(reserved_mem_entry(blob, header, index)));
    }
}

/// Every sound blob is accepted: with the right magic number, versions and total size, an aligned
/// memory reservation block in front of the structure block with a zero entry in it, an aligned
/// structure block in front of the strings block, and a strings block that ends no later than the
/// blob does. There may be room between the blocks, and behind them.
pub proof fn law_sound_blob_is_accepted(blob: Seq<u8>, zero: int)
    requires
        blob.len() >= 40,
        be_u32(blob, 0) == 0xd00dfeed,
        be_u32(blob, 4) == blob.len(),
        be_u32(blob, 20) >= 16,
        be_u32(blob, 24) == 16,
        be_u32(blob, 16) % 8 == 0,
        be_u32(blob, 16) <= zero,
        zero + 16 <= be_u32(blob, 8),
        (zero - be_u32(blob, 16)) % 16 == 0,
        forall|i: int| zero <= i < zero + 16 ==> blob[i] == 0,
        be_u32(blob, 8) % 4 == 0,
        be_u32(blob, 36) % 4 == 0,
        be_u32(blob, 8) + be_u32(blob, 36) <= be_u32(blob, 12),
        be_u32(blob, 12) + be_u32(blob, 32) <= blob.len(),
    ensures
        blob_error(blob) is None,
        blob_in_range(blob),
{
    law_zero_entry_is_zero_bytes(blob, zero);
    assert(is_zero_entry(entry_at(blob, zero)));
    lemma_terminated(blob);
    lemma_first_zero_entry(blob, header_of(blob), 0);
}

/// Nothing but sound blobs is accepted.
pub proof fn law_accepted_blob_is_sound(blob: Seq<u8>)
    requires
        blob_error(blob) is None,
    ensures
        blob.len() >= 40,
        be_u32(blob, 0) == 0xd00dfeed,
        be_u32(blob, 4) == blob.len(),
        be_u32(blob, 20) >= 16,
        be_u32(blob, 24) == 16,
        be_u32(blob, 16) % 8 == 0,
        exists|zero: int|
            {
                &&& be_u32(blob, 16) <= zero
                &&& zero + 16 <= be_u32(blob, 8)
                &&& (zero - be_u32(blob, 16)) % 16 == 0
                &&& #[trigger] entry_at(blob, zero).address == 0
                &&& entry_at(blob, zero).size == 0
            },
        be_u32(blob, 8) % 4 == 0,
        be_u32(blob, 36) % 4 == 0,
        be_u32(blob, 8) + be_u32(blob, 36) <= be_u32(blob, 12),
        be_u32(blob, 12) + be_u32(blob, 32) <= blob.len(),
{
    lemma_first_zero_entry(blob, header_of(blob), 0);
    lemma_terminated_by_fields(blob);
}

/// What is wrong with a blob whose header is not sound.
pub proof fn law_header_faults(blob: Seq<u8>)
    ensures
        blob_error(blob) == Some(Error::BadMagic) <==> blob.len() < 4 || be_u32(blob, 0)
            != 0xd00dfeed,
        blob_error(blob) == Some(Error::UnexpectedEndOfBlob) <==> {
            &&& 4 <= blob.len() < 40
            &&& be_u32(blob, 0) == 0xd00dfeed
        },
        blob_error(blob) == Some(Error::BadVersion) <==> {
            &&& 40 <= blob.len()
            &&& be_u32(blob, 0) == 0xd00dfeed
            &&& be_u32(blob, 20) < be_u32(blob, 24)
        },
        blob_error(blob) == Some(Error::UnsupportedCompVersion) <==> {
            &&& 40 <= blob.len()
            &&& be_u32(blob, 0) == 0xd00dfeed
            &&& be_u32(blob, 20) >= be_u32(blob, 24)
            &&& be_u32(blob, 24) != 16
        },
        blob_error(blob) == Some(Error::BadTotalSize) <==> {
            &&& 40 <= blob.len()
            &&& be_u32(blob, 0) == 0xd00dfeed
            &&& be_u32(blob, 20) >= 16
            &&& be_u32(blob, 24) == 16
            &&& be_u32(blob, 4) != blob.len()
        },
{
}

/// What is wrong with a blob whose header is sound, but whose blocks are not where they have to be.
pub proof fn law_block_faults(blob: Seq<u8>)
    requires
        blob.len() >= 40,
        be_u32(blob, 0) == 0xd00dfeed,
        be_u32(blob, 4) == blob.len(),
        be_u32(blob, 20) >= 16,
        be_u32(blob, 24) == 16,
    ensures
        ({
            let structs = be_u32(blob, 8);
            let strings = be_u32(blob, 12);
            let reserved_mem = be_u32(blob, 16);
            let strings_size = be_u32(blob, 32);
            let struct_size = be_u32(blob, 36);
            let terminated = exists|at: int|
                {
                    &&& reserved_mem <= at
                    &&& at + 16 <= structs
                    &&& (at - reserved_mem) % 16 == 0
                    &&& #[trigger] entry_at(blob, at).address == 0
                    &&& entry_at(blob, at).size == 0
                };
            let reserved = reserved_mem + 16 <= structs && reserved_mem % 8 == 0 && terminated;
            let aligned = structs % 4 == 0 && struct_size % 4 == 0;
            &&& blob_error(blob) == Some(Error::OverlappingReservedMem) <==> reserved_mem + 16
                > structs
            &&& blob_error(blob) == Some(Error::UnalignedReservedMem) <==> reserved_mem + 16
                <= structs && reserved_mem % 8 != 0
            &&& blob_error(blob) == Some(Error::NoZeroReservedMemEntry) <==> reserved_mem + 16
                <= structs && reserved_mem % 8 == 0 && !terminated
            &&& blob_error(blob) == Some(Error::UnalignedStruct) <==> reserved && !aligned
            &&& blob_error(blob) == Some(Error::OverlappingStruct) <==> reserved && aligned
                && structs + struct_size > strings
            &&& blob_error(blob) == Some(Error::OverlappingStrings) <==> reserved && aligned
                && structs + struct_size <= strings && strings + strings_size > blob.len()
        }),
{
    if be_u32(blob, 16) + 16 <= be_u32(blob, 8) {
        lemma_terminated_by_fields(blob);
        lemma_first_zero_entry(blob, header_of(blob), 0);
    }
}

/// The memory reservation block is terminated exactly if an entry has a zero address and size.
proof fn lemma_terminated_by_fields(blob: Seq<u8>)
    requires
        be_u32(blob, 16) + 16 <= be_u32(blob, 8),
    ensures
        (reserved_mem_count(blob, header_of(blob)) < reserved_mem_room(header_of(blob))) <==> (
        exists|at: int|
            {
                &&& be_u32(blob, 16) <= at
                &&& at + 16 <= be_u32(blob, 8)
                &&& (at - be_u32(blob, 16)) % 16 == 0
                &&& #[trigger] entry_at(blob, at).address == 0
                &&& entry_at(blob, at).size == 0
            }),
{
    lemma_terminated(blob);
    if reserved_mem_count(blob, header_of(blob)) < reserved_mem_room(header_of(blob)) {
        let at = choose|at: int|
            {
                &&& be_u32(blob, 16) <= at
                &&& at + 16 <= be_u32(blob, 8)
                &&& (at - be_u32(blob, 16)) % 16 == 0
                &&& #[trigger] is_zero_entry(entry_at(blob, at))
            };
        assert(entry_at(blob, at).address == 0);
    }
    if exists|at: int|
        {
            &&& be_u32(blob, 16) <= at
            &&& at + 16 <= be_u32(blob, 8)
            &&& (at - be_u32(blob, 16)) % 16 == 0
            &&& #[trigger] entry_at(blob, at).address == 0
            &&& entry_at(blob, at).size == 0
        } {
        let at = choose|at: int|
            {
                &&& be_u32(blob, 16) <= at
                &&& at + 16 <= be_u32(blob, 8)
                &&& (at - be_u32(blob, 16)) % 16 == 0
                &&& #[trigger] entry_at(blob, at).address == 0
                &&& entry_at(blob, at).size == 0
            };
        assert(is_zero_entry(entry_at(blob, at)));
    }
}

/// A blob is out of range only if its header is sound, and one of its blocks reaches beyond 32 bits
/// or beyond the blob where it has to be looked at: behind a fault of the blocks before it nothing
/// is looked at any more.
pub proof fn law_blob_out_of_range(blob: Seq<u8>)
    ensures
        ({
            let structs = be_u32(blob, 8);
            let strings = be_u32(blob, 12);
            let reserved_mem = be_u32(blob, 16);
            let strings_size = be_u32(blob, 32);
            let struct_size = be_u32(blob, 36);
            let sound_header = {
                &&& blob.len() >= 40
                &&& be_u32(blob, 0) == 0xd00dfeed
                &&& be_u32(blob, 4) == blob.len()
                &&& be_u32(blob, 20) >= 16
                &&& be_u32(blob, 24) == 16
            };
            let placed = reserved_mem + 16 <= structs && reserved_mem % 8 == 0;
            let terminated = exists|at: int|
                {
                    &&& reserved_mem <= at
                    &&& at + 16 <= structs
                    &&& (at - reserved_mem) % 16 == 0
                    &&& #[trigger] entry_at(blob, at).address == 0
                    &&& entry_at(blob, at).size == 0
                };
            let aligned = structs % 4 == 0 && struct_size % 4 == 0;
            !blob_in_range(blob) <==> sound_header && {
                ||| reserved_mem + 16 > 0xffff_ffff
                ||| placed && structs - (structs - reserved_mem) % 16 > blob.len()
                ||| placed && terminated && aligned && structs + struct_size > 0xffff_ffff
                ||| placed && terminated && aligned && structs + struct_size <= strings && structs
                    + struct_size > blob.len()
                ||| placed && terminated && aligned && structs + struct_size <= strings && strings
                    + strings_size > 0xffff_ffff
            }
        }),
{
    if be_u32(blob, 16) + 16 <= be_u32(blob, 8) {
        lemma_terminated_by_fields(blob);
        lemma_first_zero_entry(blob, header_of(blob), 0);
    }
}

/// The blocks of an accepted blob are the bytes at the offsets and of the sizes that its header
/// gives.
pub proof fn law_blocks_hold_the_bytes_of_the_blob(blob: Seq<u8>)
    requires
        blob_error(blob) is None,
    ensures
        blocks_of(blob).struct_block.len() == be_u32(blob, 36),
        forall|i: int|
            0 <= i < be_u32(blob, 36) ==> blocks_of(blob).struct_block[i] == blob[be_u32(blob, 8)
                + i],
        blocks_of(blob).strings_block.len() == be_u32(blob, 32),
        forall|i: int|
            0 <= i < be_u32(blob, 32) ==> blocks_of(blob).strings_block[i] == blob[be_u32(blob, 12)
                + i],
{
}

/// The memory reservations of an accepted blob are the entries from the offset that its header
/// gives up to the first one with zero bytes only.
pub proof fn law_reserved_mem_holds_the_entries_of_the_blob(blob: Seq<u8>)
    requires
        blob_error(blob) is None,
    ensures
        ({
            let entries = blocks_of(blob).reserved_mem;
            let start = be_u32(blob, 16);
            &&& start + 16 * entries.len() + 16 <= be_u32(blob, 8)
            &&& forall|i: int|
                0 <= i < entries.len() ==> {
                    &&& #[trigger] entries[i] == entry_at(blob, start + 16 * i)
                    &&& entries[i].address != 0 || entries[i].size != 0
                }
            &&& forall|i: int|
                start + 16 * entries.len() <= i < start + 16 * entries.len() + 16 ==> blob[i] == 0
        }),
{
    let header = header_of(blob);
    lemma_first_zero_entry(blob, header, 0);
    let count = reserved_mem_count(blob, header);
    law_zero_entry_is_zero_bytes(blob, be_u32(blob, 16) + 16 * count);
    assert forall|i: int| 0 <= i < count implies !is_zero_entry(
        #[trigger] blocks_of(blob).reserved_mem[i],
    ) by {
        assert(!is_zero_entry(reserved_mem_entry(blob, header, i)));
    }
}

} // verus!
