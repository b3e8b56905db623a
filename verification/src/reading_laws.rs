//! Laws of reading: what the bytes at a place of a structure block read as, and how reading at one
//! place relates to reading at another.

use crate::dtb_format::{be_u32, entry_at, native_u64};
use crate::dtb_reader::items_start;
use crate::error::Error;
use crate::layout::Blocks;
use crate::struct_block::{
    advance, depth_after, first_nul, lemma_align_up, lemma_first_nul, lemma_skip_nops, skip_nops,
    Cursor, Step,
};
use crate::struct_item::{Item, StructItem};
use crate::utf8::utf8_error;
use vstd::endian::{endianness, Endian};
use vstd::prelude::*;
use vstd::utf8::{decode_utf8, valid_utf8};

verus! {

/// A 32-bit integer in a blob is a number of four digits to the base 256, the first one being the
/// most significant.
pub proof fn law_be_u32_is_base_256(bytes: Seq<u8>, at: int)
    ensures
        be_u32(bytes, at) == ((bytes[at] * 256 + bytes[at + 1]) * 256 + bytes[at + 2]) * 256
            + bytes[at + 3],
{
}

/// A 64-bit field of a memory reservation is a number of eight digits to the base 256, with the
/// most significant one first on a big-endian machine, and last on a little-endian one. The size
/// is right behind the address.
pub proof fn law_entry_is_base_256(bytes: Seq<u8>, at: int)
    ensures
        entry_at(bytes, at).address == native_u64(bytes, at),
        entry_at(bytes, at).size == native_u64(bytes, at + 8),
        endianness() == Endian::Big ==> native_u64(bytes, at) == ((((((bytes[at] * 256 + bytes[at
            + 1]) * 256 + bytes[at + 2]) * 256 + bytes[at + 3]) * 256 + bytes[at + 4]) * 256
            + bytes[at + 5]) * 256 + bytes[at + 6]) * 256 + bytes[at + 7],
        endianness() == Endian::Little ==> native_u64(bytes, at) == ((((((bytes[at + 7] * 256
            + bytes[at + 6]) * 256 + bytes[at + 5]) * 256 + bytes[at + 4]) * 256 + bytes[at + 3])
            * 256 + bytes[at + 2]) * 256 + bytes[at + 1]) * 256 + bytes[at],
{
}

/// An item stands for what its fields hold.
pub proof fn law_item_stands_for_its_fields(name: &str, value: &[u8])
    ensures
        (StructItem::BeginNode { name })@ == (Item::BeginNode { name: name@ }),
        (StructItem::Property { name, value })@ == (Item::Property { name: name@, value: value@ }),
        StructItem::EndNode@ == Item::EndNode,
{
}

/// A place is well-formed if it is a token boundary of a block of whole tokens, whose size fits 32
/// bits. Another place in the same blocks differs in nothing but the offset.
pub proof fn law_places(c: Cursor, offset: int)
    ensures
        c.wf() <==> {
            &&& 0 <= c.offset <= c.struct_block.len() <= 0xffff_ffff
            &&& c.offset % 4 == 0
            &&& c.struct_block.len() % 4 == 0
        },
        c.at(offset).struct_block == c.struct_block,
        c.at(offset).strings_block == c.strings_block,
        c.at(offset).offset == offset,
{
}

/// An iteration over the items of a blob starts at offset zero of its structure block.
pub proof fn law_iteration_starts_at_offset_zero(blocks: Blocks)
    ensures
        items_start(blocks).offset == 0,
        items_start(blocks).struct_block == blocks.struct_block,
        items_start(blocks).strings_block == blocks.strings_block,
{
}

/// In front of a no-operation token, the same is read as behind it, and reading goes on from the
/// same place. In front of anything else nothing is skipped.
pub proof fn law_nop_is_skipped(c: Cursor)
    requires
        c.wf(),
    ensures
        c.offset < c.struct_block.len() && be_u32(c.struct_block, c.offset) == 4 ==> {
            &&& c.step() == c.at(c.offset + 4).step()
            &&& c.past_nops() == c.at(c.offset + 4).past_nops()
        },
        c.offset == c.struct_block.len() || be_u32(c.struct_block, c.offset) != 4
            ==> c.past_nops() == c,
{
}

/// Any number of no-operation tokens is skipped.
pub proof fn law_nops_are_skipped(c: Cursor, count: nat)
    requires
        c.wf(),
        c.offset + 4 * count <= c.struct_block.len(),
        forall|at: int|
            c.offset <= at < c.offset + 4 * count && at % 4 == 0 ==> #[trigger] be_u32(
                c.struct_block,
                at,
            ) == 4,
    ensures
        c.step() == c.at(c.offset + 4 * count).step(),
        c.past_nops() == c.at(c.offset + 4 * count).past_nops(),
    decreases count,
{
    if count > 0 {
        law_nop_is_skipped(c);
        let next = c.at(c.offset + 4);
        law_nops_are_skipped(next, (count - 1) as nat);
        assert(next.at(next.offset + 4 * (count - 1)) == c.at(c.offset + 4 * count));
    } else {
        assert(c.at(c.offset) == c);
    }
}

/// Skipping no-operation tokens never ends in front of one, and passes over nothing else.
pub proof fn law_skipping_ends_behind_nops(c: Cursor)
    requires
        c.wf(),
    ensures
        c.past_nops() == c.at(c.past_nops().offset),
        c.offset <= c.past_nops().offset <= c.struct_block.len(),
        c.past_nops().offset < c.struct_block.len() ==> be_u32(
            c.struct_block,
            c.past_nops().offset,
        ) != 4,
        forall|at: int|
            c.offset <= at < c.past_nops().offset && at % 4 == 0 ==> #[trigger] be_u32(
                c.struct_block,
                at,
            ) == 4,
    decreases c.struct_block.len() - c.offset,
{
    if c.offset < c.struct_block.len() && be_u32(c.struct_block, c.offset) == 4 {
        let next = c.at(c.offset + 4);
        law_skipping_ends_behind_nops(next);
        law_nop_is_skipped(c);
        assert forall|at: int|
            c.offset <= at < c.past_nops().offset && at % 4 == 0 implies #[trigger] be_u32(
            c.struct_block,
            at,
        ) == 4 by {
            if at != c.offset {
                assert(next.offset <= at);
            }
        }
    }
}

/// What is read where the structure block ends, at the end of a node, at the end token, and at an
/// unknown token.
pub proof fn law_plain_tokens(c: Cursor)
    requires
        c.wf(),
    ensures
        c.offset == c.struct_block.len() ==> c.step() == (Step::Fail {
            error: Error::UnexpectedEndOfStruct,
        }),
        c.offset < c.struct_block.len() ==> {
            let token = be_u32(c.struct_block, c.offset);
            &&& token == 2 ==> c.step() == (Step::Item {
                item: Item::EndNode,
                offset: c.offset + 4,
            })
            &&& token == 9 ==> c.step() == (Step::Fail { error: Error::NoMoreStructItems })
            &&& token == 0 || 4 < token < 9 || 9 < token ==> c.step() == (Step::Fail {
                error: Error::BadStructToken,
            })
        },
{
}

/// The first zero byte, where it is known.
proof fn lemma_first_nul_at(bytes: Seq<u8>, from: int, end: int)
    requires
        0 <= from <= end <= bytes.len(),
        end < bytes.len() ==> bytes[end] == 0,
        forall|i: int| from <= i < end ==> bytes[i] != 0,
    ensures
        first_nul(bytes, from) == end,
{
    lemma_first_nul(bytes, from);
}

/// At the start of a node, the bytes behind the token up to the first zero byte are read as its
/// name. The next item starts at the first token boundary behind that byte.
pub proof fn law_node_is_read(c: Cursor, end: int)
    requires
        c.wf(),
        c.offset + 4 <= end < c.struct_block.len(),
        be_u32(c.struct_block, c.offset) == 1,
        forall|i: int| c.offset + 4 <= i < end ==> c.struct_block[i] != 0,
        c.struct_block[end] == 0,
    ensures
        ({
            let name = c.struct_block.subrange(c.offset + 4, end);
            if valid_utf8(name) {
                &&& c.step() matches Step::Item { item, offset }
                &&& item == (Item::BeginNode { name: decode_utf8(name) })
                &&& offset % 4 == 0
                &&& end < offset <= end + 4
            } else {
                c.step() == (Step::Fail { error: Error::BadStrEncoding(utf8_error(name)) })
            }
        }),
{
    lemma_first_nul_at(c.struct_block, c.offset + 4, end);
    lemma_align_up(end + 1, c.struct_block.len() as int);
    assert(skip_nops(c.struct_block, c.offset) == c.offset);
    assert(c.past_nops() == c);
}

/// At the start of a node whose name is not terminated, there is no item.
pub proof fn law_node_name_has_to_end(c: Cursor)
    requires
        c.wf(),
        c.offset < c.struct_block.len(),
        be_u32(c.struct_block, c.offset) == 1,
        forall|i: int| c.offset + 4 <= i < c.struct_block.len() ==> c.struct_block[i] != 0,
    ensures
        c.step() == (Step::Fail { error: Error::BadNodeName }),
{
    lemma_first_nul_at(c.struct_block, c.offset + 4, c.struct_block.len() as int);
    assert(c.past_nops() == c);
}

/// At a property, the bytes of the strings block from the offset of the name up to the first zero
/// byte are read as its name, and as many bytes behind its description as that says are its
/// value. The next item starts at the first token boundary not before the end of the value.
pub proof fn law_property_is_read(c: Cursor, end: int)
    requires
        c.wf(),
        c.offset + 12 <= c.struct_block.len(),
        be_u32(c.struct_block, c.offset) == 3,
        c.offset + 12 + be_u32(c.struct_block, c.offset + 4) <= c.struct_block.len(),
        be_u32(c.struct_block, c.offset + 8) <= end < c.strings_block.len(),
        forall|i: int|
            be_u32(c.struct_block, c.offset + 8) <= i < end ==> c.strings_block[i] != 0,
        c.strings_block[end] == 0,
    ensures
        ({
            let name = c.strings_block.subrange(
                be_u32(c.struct_block, c.offset + 8) as int,
                end,
            );
            let value_end = c.offset + 12 + be_u32(c.struct_block, c.offset + 4);
            if valid_utf8(name) {
                &&& c.step() matches Step::Item { item, offset }
                &&& item == (Item::Property {
                    name: decode_utf8(name),
                    value: c.struct_block.subrange(c.offset + 12, value_end),
                })
                &&& offset % 4 == 0
                &&& value_end <= offset < value_end + 4
            } else {
                c.step() == (Step::Fail { error: Error::BadStrEncoding(utf8_error(name)) })
            }
        }),
{
    let value_end = c.offset + 12 + be_u32(c.struct_block, c.offset + 4);
    lemma_first_nul_at(c.strings_block, be_u32(c.struct_block, c.offset + 8) as int, end);
    lemma_align_up(value_end, c.struct_block.len() as int);
    assert(c.past_nops() == c);
    assert(c.property_fits());
}

/// A property that does not fit the structure block, or whose name is not terminated within the
/// strings block, is no item. Whether the name starts beyond the strings block is looked at only
/// where the property fits.
pub proof fn law_property_has_to_fit(c: Cursor)
    requires
        c.wf(),
        c.offset < c.struct_block.len(),
        be_u32(c.struct_block, c.offset) == 3,
    ensures
        ({
            let fits = c.offset + 12 <= c.struct_block.len() && c.offset + 12 + be_u32(
                c.struct_block,
                c.offset + 4,
            ) <= c.struct_block.len();
            let name_offset = be_u32(c.struct_block, c.offset + 8);
            &&& !fits ==> c.step() == (Step::Fail { error: Error::UnexpectedEndOfStruct })
            &&& fits && name_offset > c.strings_block.len() ==> c.step() is NameOutOfRange
            &&& fits && name_offset <= c.strings_block.len() && (forall|i: int|
                name_offset <= i < c.strings_block.len() ==> c.strings_block[i] != 0)
                ==> c.step() == (Step::Fail { error: Error::BadPropertyName })
        }),
{
    let name_offset = be_u32(c.struct_block, c.offset + 8) as int;
    assert(c.past_nops() == c);
    if name_offset <= c.strings_block.len() && (forall|i: int|
        name_offset <= i < c.strings_block.len() ==> c.strings_block[i] != 0) {
        lemma_first_nul_at(c.strings_block, name_offset, c.strings_block.len() as int);
    }
}

/// Names beyond the strings block are met at properties only, behind any no-operation tokens.
pub proof fn law_only_names_are_out_of_range(c: Cursor)
    requires
        c.wf(),
        c.step() is NameOutOfRange,
    ensures
        ({
            let at = c.past_nops().offset;
            &&& at + 12 <= c.struct_block.len()
            &&& be_u32(c.struct_block, at) == 3
            &&& at + 12 + be_u32(c.struct_block, at + 4) <= c.struct_block.len()
            &&& be_u32(c.struct_block, at + 8) > c.strings_block.len()
        }),
{
    lemma_skip_nops(c.struct_block, c.offset);
}

/// Items are counted one by one: behind the first there is one fewer to go. Nodes that begin lead
/// one level deeper, nodes that end one level up, and properties leave the depth as it is.
pub proof fn law_items_are_counted(c: Cursor, count: nat)
    ensures
        advance(c, 0) == Some(c),
        depth_after(c, 0) == 0,
        match c.step() {
            Step::Item { item, offset } => {
                let change: int = match item {
                    Item::BeginNode { .. } => 1,
                    Item::Property { .. } => 0,
                    Item::EndNode => -1,
                };
                &&& advance(c, count + 1) == advance(c.at(offset), count)
                &&& depth_after(c, count + 1) == change + depth_after(c.at(offset), count)
            },
            _ => advance(c, count + 1) is None,
        },
{
}

} // verus!
