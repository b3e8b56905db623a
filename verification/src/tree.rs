//! Trees as they are laid out in a structure block, and that they are read back.

use crate::dtb_format::{be_u32, DTB_BEGIN_NODE, DTB_END, DTB_END_NODE, DTB_PROPERTY};
use crate::dtb_reader::items_start;
use crate::error::Error;
use crate::layout::{blob_error, blocks_of};
use crate::struct_block::{
    advance, align_up, c_str, first_nul, lemma_first_nul, skip_nops, Cursor, Step,
};
use crate::struct_item::Item;
use crate::text::lemma_encode_contains;
use vstd::prelude::*;
use vstd::utf8::{encode_utf8, encode_utf8_decode_utf8, encode_utf8_valid_utf8};

verus! {

/// A 32-bit integer in big-endian order.
#[verifier::opaque]
pub open spec fn be_bytes(value: int) -> Seq<u8> {
    seq![
        (value / 0x100_0000 % 0x100) as u8,
        (value / 0x1_0000 % 0x100) as u8,
        (value / 0x100 % 0x100) as u8,
        (value % 0x100) as u8,
    ]
}

/// `bytes`, filled up with zero bytes to whole tokens.
pub open spec fn padded(bytes: Seq<u8>) -> Seq<u8> {
    bytes + Seq::new((align_up(bytes.len() as int) - bytes.len()) as nat, |i: int| 0u8)
}

/// An item to be laid out. For a property, `name_offset` is where its name starts in the strings
/// block.
pub ghost struct Entry {
    pub item: Item,
    pub name_offset: int,
}

impl Entry {
    /// The bytes of this entry in the structure block.
    pub open spec fn bytes(self) -> Seq<u8> {
        match self.item {
            Item::BeginNode { name } => be_bytes(DTB_BEGIN_NODE as int) + padded(
                encode_utf8(name) + seq![0u8],
            ),
            Item::Property { name, value } => be_bytes(DTB_PROPERTY as int) + be_bytes(
                value.len() as int,
            ) + be_bytes(self.name_offset) + padded(value),
            Item::EndNode => be_bytes(DTB_END_NODE as int),
        }
    }

    /// Whether this entry can be laid out: its numbers fit 32 bits, its name holds no zero
    /// character, and for a property the strings block holds the zero-terminated name.
    pub open spec fn fits(self, strings: Seq<u8>) -> bool {
        match self.item {
            Item::BeginNode { name } => !name.contains('\0'),
            Item::Property { name, value } => {
                let end = self.name_offset + encode_utf8(name).len();
                &&& !name.contains('\0')
                &&& value.len() <= u32::MAX
                &&& 0 <= self.name_offset <= u32::MAX
                &&& end < strings.len()
                &&& strings.subrange(self.name_offset, end) == encode_utf8(name)
                &&& strings[end] == 0
            },
            Item::EndNode => true,
        }
    }
}

/// A structure block that holds the given entries, and the end token.
pub open spec fn struct_bytes(entries: Seq<Entry>) -> Seq<u8>
    decreases entries.len(),
{
    if entries.len() == 0 {
        be_bytes(DTB_END as int)
    } else {
        entries[0].bytes() + struct_bytes(entries.drop_first())
    }
}

/// A 32-bit integer takes four bytes.
proof fn lemma_be_bytes_len(value: int)
    ensures
        be_bytes(value).len() == 4,
{
    reveal(be_bytes);
}

/// A big-endian integer is read back wherever it is written.
proof fn lemma_be_bytes(block: Seq<u8>, at: int, value: int)
    requires
        0 <= value <= u32::MAX,
        0 <= at,
        at + 4 <= block.len(),
        block.subrange(at, at + 4) == be_bytes(value),
    ensures
        be_u32(block, at) == value,
{
    reveal(be_bytes);
    let b = block.subrange(at, at + 4);
    assert(block[at] == b[0]);
    assert(block[at + 1] == b[1]);
    assert(block[at + 2] == b[2]);
    assert(block[at + 3] == b[3]);
}

/// A zero-terminated text is read back wherever it is written.
proof fn lemma_c_str(block: Seq<u8>, at: int, name: Seq<char>)
    requires
        0 <= at,
        at + encode_utf8(name).len() < block.len(),
        block.subrange(at, at + encode_utf8(name).len()) == encode_utf8(name),
        block[at + encode_utf8(name).len()] == 0,
        !name.contains('\0'),
    ensures
        first_nul(block, at) == at + encode_utf8(name).len(),
        c_str(block, at) == encode_utf8(name),
{
    let bytes = encode_utf8(name);
    let end = first_nul(block, at);
    lemma_encode_contains(name, '\0');
    lemma_first_nul(block, at);
    if end < at + bytes.len() {
        assert(bytes[end - at] == block[end]);
        assert(bytes.contains(bytes[end - at]));
    }
}

/// Padding fills up whole tokens, behind what is padded.
proof fn lemma_padded(bytes: Seq<u8>)
    ensures
        padded(bytes).len() == align_up(bytes.len() as int),
        padded(bytes).len() >= bytes.len(),
        padded(bytes).take(bytes.len() as int) == bytes,
{
    assert(padded(bytes).take(bytes.len() as int) =~= bytes);
}

/// The start of a node is read back from where it is laid out.
proof fn lemma_begin_node(c: Cursor, name: Seq<char>)
    requires
        0 <= c.offset,
        c.offset % 4 == 0,
        !name.contains('\0'),
        ({
            let tail = padded(encode_utf8(name) + seq![0u8]);
            &&& c.offset + 4 + tail.len() <= c.struct_block.len()
            &&& c.struct_block.subrange(c.offset, c.offset + 4) == be_bytes(DTB_BEGIN_NODE as int)
            &&& c.struct_block.subrange(c.offset + 4, c.offset + 4 + tail.len()) == tail
        }),
    ensures
        c.step() == (Step::Item {
            item: Item::BeginNode { name },
            offset: c.offset + 4 + padded(encode_utf8(name) + seq![0u8]).len(),
        }),
{
    let block = c.struct_block;
    let text = encode_utf8(name);
    let ended = text + seq![0u8];
    let tail = padded(ended);
    let start = c.offset + 4;
    lemma_be_bytes(block, c.offset, DTB_BEGIN_NODE as int);
    lemma_padded(ended);
    assert forall|i: int| 0 <= i < ended.len() implies block[start + i] == ended[i] by {
        assert(block.subrange(start, start + tail.len())[i] == tail[i]);
        assert(tail.take(ended.len() as int)[i] == ended[i]);
    }
    assert(block.subrange(start, start + text.len()) =~= text);
    assert(block[start + text.len()] == ended[text.len() as int]);
    lemma_c_str(block, start, name);
    encode_utf8_valid_utf8(name);
    encode_utf8_decode_utf8(name);
    assert(skip_nops(block, c.offset) == c.offset);
    assert(align_up(start + text.len() + 1) == start + tail.len());
}

/// A property is read back from where it is laid out.
proof fn lemma_property(c: Cursor, name: Seq<char>, value: Seq<u8>, name_offset: int)
    requires
        0 <= c.offset,
        c.offset % 4 == 0,
        (Entry { item: Item::Property { name, value }, name_offset }).fits(c.strings_block),
        c.offset + 12 + padded(value).len() <= c.struct_block.len(),
        c.struct_block.subrange(c.offset, c.offset + 4) == be_bytes(DTB_PROPERTY as int),
        c.struct_block.subrange(c.offset + 4, c.offset + 8) == be_bytes(value.len() as int),
        c.struct_block.subrange(c.offset + 8, c.offset + 12) == be_bytes(name_offset),
        c.struct_block.subrange(c.offset + 12, c.offset + 12 + padded(value).len()) == padded(
            value,
        ),
    ensures
        c.step() == (Step::Item {
            item: Item::Property { name, value },
            offset: c.offset + 12 + padded(value).len(),
        }),
{
    let block = c.struct_block;
    let tail = padded(value);
    let start = c.offset + 12;
    lemma_be_bytes(block, c.offset, DTB_PROPERTY as int);
    lemma_be_bytes(block, c.offset + 4, value.len() as int);
    lemma_be_bytes(block, c.offset + 8, name_offset);
    lemma_padded(value);
    assert forall|i: int| 0 <= i < value.len() implies block[start + i] == value[i] by {
        assert(block.subrange(start, start + tail.len())[i] == tail[i]);
        assert(tail.take(value.len() as int)[i] == value[i]);
    }
    assert(block.subrange(start, start + value.len()) =~= value);
    lemma_c_str(c.strings_block, name_offset, name);
    encode_utf8_valid_utf8(name);
    encode_utf8_decode_utf8(name);
    assert(skip_nops(block, c.offset) == c.offset);
    assert(align_up(start + value.len()) == start + tail.len());
}

/// An item is read back from where it is laid out, and the next one starts right behind it.
pub proof fn law_item_is_read_back(
    before: Seq<u8>,
    entry: Entry,
    after: Seq<u8>,
    strings: Seq<u8>,
)
    requires
        before.len() % 4 == 0,
        entry.fits(strings),
    ensures
        ({
            let c = Cursor {
                struct_block: before + entry.bytes() + after,
                strings_block: strings,
                offset: before.len() as int,
            };
            c.step() == (Step::Item {
                item: entry.item,
                offset: before.len() as int + entry.bytes().len(),
            })
        }),
        entry.bytes().len() % 4 == 0,
{
    let bytes = entry.bytes();
    let block = before + bytes + after;
    lemma_be_bytes_len(DTB_BEGIN_NODE as int);
    lemma_be_bytes_len(DTB_END_NODE as int);
    lemma_be_bytes_len(DTB_PROPERTY as int);
    lemma_be_bytes_len(entry.name_offset);
    let at = before.len() as int;
    let c = Cursor { struct_block: block, strings_block: strings, offset: at };
    match entry.item {
        Item::BeginNode { name } => {
            let tail = padded(encode_utf8(name) + seq![0u8]);
            lemma_padded(encode_utf8(name) + seq![0u8]);
            assert(block.subrange(at, at + 4) =~= be_bytes(DTB_BEGIN_NODE as int));
            assert(block.subrange(at + 4, at + 4 + tail.len()) =~= tail);
            lemma_begin_node(c, name);
        },
        Item::Property { name, value } => {
            let tail = padded(value);
            lemma_padded(value);
            lemma_be_bytes_len(value.len() as int);
            assert(block.subrange(at, at + 4) =~= be_bytes(DTB_PROPERTY as int));
            assert(block.subrange(at + 4, at + 8) =~= be_bytes(value.len() as int));
            assert(block.subrange(at + 8, at + 12) =~= be_bytes(entry.name_offset));
            assert(block.subrange(at + 12, at + 12 + tail.len()) =~= tail);
            lemma_property(c, name, value, entry.name_offset);
        },
        Item::EndNode => {
            assert(block.subrange(at, at + 4) =~= be_bytes(DTB_END_NODE as int));
            lemma_be_bytes(block, at, DTB_END_NODE as int);
            assert(skip_nops(block, at) == at);
        },
    }
}

/// The end token is read back from where it is laid out.
proof fn lemma_end(before: Seq<u8>, strings: Seq<u8>)
    requires
        before.len() % 4 == 0,
    ensures
        ({
            let c = Cursor {
                struct_block: before + be_bytes(DTB_END as int),
                strings_block: strings,
                offset: before.len() as int,
            };
            c.step() == (Step::Fail { error: Error::NoMoreStructItems })
        }),
{
    let at = before.len() as int;
    let block = before + be_bytes(DTB_END as int);
    lemma_be_bytes_len(DTB_END as int);
    assert(block.subrange(at, at + 4) =~= be_bytes(DTB_END as int));
    lemma_be_bytes(block, at, DTB_END as int);
    assert(skip_nops(block, at) == at);
}

/// Behind an item there is one fewer to go.
proof fn lemma_advance(c: Cursor, item: Item, offset: int, n: nat)
    requires
        c.step() == (Step::Item { item, offset }),
        n > 0,
    ensures
        advance(c, n) == advance(c.at(offset), (n - 1) as nat),
{
}

/// Whether reading on from `c` gives, after `n` items, entry number `n`, or no more items if there
/// is no such entry.
#[verifier::opaque]
spec fn reads_entry(c: Cursor, entries: Seq<Entry>, n: nat) -> bool {
    &&& advance(c, n) matches Some(d)
    &&& if n < entries.len() {
        d.step() matches Step::Item { item, offset } && item == entries[n as int].item
    } else {
        d.step() == (Step::Fail { error: Error::NoMoreStructItems })
    }
}

/// The first entry is read first.
proof fn lemma_reads_first(c: Cursor, entries: Seq<Entry>, offset: int)
    requires
        entries.len() > 0,
        c.step() == (Step::Item { item: entries[0].item, offset }),
    ensures
        reads_entry(c, entries, 0),
{
    reveal(reads_entry);
}

/// The other entries are read behind the first.
proof fn lemma_reads_rest(c: Cursor, entries: Seq<Entry>, offset: int, n: nat)
    requires
        entries.len() > 0,
        c.step() == (Step::Item { item: entries[0].item, offset }),
        0 < n <= entries.len(),
        reads_entry(c.at(offset), entries.drop_first(), (n - 1) as nat),
    ensures
        reads_entry(c, entries, n),
{
    reveal(reads_entry);
    lemma_advance(c, entries[0].item, offset, n);
}

/// No more items are read where there are no entries.
proof fn lemma_reads_end(c: Cursor)
    requires
        c.step() == (Step::Fail { error: Error::NoMoreStructItems }),
    ensures
        reads_entry(c, Seq::empty(), 0),
{
    reveal(reads_entry);
}

/// A tree is read back item by item, from a place in a structure block on.
proof fn lemma_tree_is_read_back(before: Seq<u8>, entries: Seq<Entry>, strings: Seq<u8>, n: nat)
    requires
        before.len() % 4 == 0,
        forall|i: int| 0 <= i < entries.len() ==> (#[trigger] entries[i]).fits(strings),
        n <= entries.len(),
    ensures
        reads_entry(
            Cursor {
                struct_block: before + struct_bytes(entries),
                strings_block: strings,
                offset: before.len() as int,
            },
            entries,
            n,
        ),
    decreases entries.len(),
{
    let c = Cursor {
        struct_block: before + struct_bytes(entries),
        strings_block: strings,
        offset: before.len() as int,
    };
    if entries.len() == 0 {
        lemma_end(before, strings);
        lemma_reads_end(c);
        assert(entries =~= Seq::empty());
    } else {
        let rest = entries.drop_first();
        let next = before + entries[0].bytes();
        law_item_is_read_back(before, entries[0], struct_bytes(rest), strings);
        assert(next + struct_bytes(rest) =~= c.struct_block);
        if n == 0 {
            lemma_reads_first(c, entries, next.len() as int);
        } else {
            assert forall|i: int| 0 <= i < rest.len() implies (#[trigger] rest[i]).fits(
                strings,
            ) by {
                assert(rest[i] == entries[i + 1]);
            }
            lemma_tree_is_read_back(next, rest, strings, (n - 1) as nat);
            lemma_reads_rest(c, entries, next.len() as int, n);
        }
    }
}

/// A tree that is laid out in a structure block is read back from its start, item by item and in
/// order. Behind the last item there are no more.
pub proof fn law_tree_is_read_back(entries: Seq<Entry>, strings: Seq<u8>, n: nat)
    requires
        forall|i: int| 0 <= i < entries.len() ==> (#[trigger] entries[i]).fits(strings),
        n <= entries.len(),
    ensures
        ({
            let c = Cursor {
                struct_block: struct_bytes(entries),
                strings_block: strings,
                offset: 0,
            };
            &&& advance(c, n) matches Some(d)
            &&& if n < entries.len() {
                d.step() matches Step::Item { item, offset } && item == entries[n as int].item
            } else {
                d.step() == (Step::Fail { error: Error::NoMoreStructItems })
            }
        }),
{
    let before = Seq::<u8>::empty();
    assert(before + struct_bytes(entries) =~= struct_bytes(entries));
    lemma_tree_is_read_back(before, entries, strings, n);
    reveal(reads_entry);
}

/// A tree that is laid out in an accepted blob, at the offset that the header gives for the
/// structure block, is read back from the first entry on, item by item and in order.
pub proof fn law_blob_is_read_back(blob: Seq<u8>, entries: Seq<Entry>, n: nat)
    requires
        blob_error(blob) is None,
        blob.subrange(be_u32(blob, 8) as int, be_u32(blob, 8) + be_u32(blob, 36)) == struct_bytes(
            entries,
        ),
        forall|i: int|
            0 <= i < entries.len() ==> (#[trigger] entries[i]).fits(
                blob.subrange(be_u32(blob, 12) as int, be_u32(blob, 12) + be_u32(blob, 32)),
            ),
        n <= entries.len(),
    ensures
        advance(items_start(blocks_of(blob)), n) matches Some(d) && if n < entries.len() {
            d.step() matches Step::Item { item, offset } && item == entries[n as int].item
        } else {
            d.step() == (Step::Fail { error: Error::NoMoreStructItems })
        },
{
    law_tree_is_read_back(entries, blocks_of(blob).strings_block, n);
}

} // verus!
