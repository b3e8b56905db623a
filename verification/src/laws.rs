//! Laws of the library: what holds of every blob, every place in a structure block and every
//! search.

use crate::dtb_format::{
    be_u32, entry_at, header_of, native_u64, DtbHeader, DTB_BEGIN_NODE, DTB_HEADER_SIZE,
    DTB_TOKEN_SIZE, RESERVED_MEM_ENTRY_SIZE,
};
use crate::error::Error;
use crate::layout::{
    blob_error, blob_in_range, blocks_of, first_zero_entry, header_error, is_zero_entry,
    reserved_mem_count, reserved_mem_entry, reserved_mem_room,
};
use crate::path::{first_separator, lemma_first_separator, split, trim};
use crate::search::{find, find_part, find_parts, Search};
use crate::struct_block::{
    advance, c_str, depth_after, lemma_first_nul, lemma_skip_nops, lemma_step_progress, Cursor,
    Step,
};
use crate::struct_item::Item;
use crate::text::lemma_encode_contains;
use vstd::prelude::*;
use vstd::utf8::decode_utf8_encode_utf8;

verus! {

/// No-operation tokens make no difference: an item reads the same in front of them and behind
/// them.
pub proof fn law_nops_are_invisible(c: Cursor)
    requires
        c.wf(),
    ensures
        c.past_nops().step() == c.step(),
{
    lemma_skip_nops(c.struct_block, c.offset);
}

/// Where there is no item, reading again fails for the same reason, and leaves the cursor in
/// place.
pub proof fn law_failure_is_final(c: Cursor)
    requires
        c.wf(),
        c.step() is Fail,
    ensures
        c.past_nops().step() == c.step(),
        c.past_nops().past_nops() == c.past_nops(),
{
    lemma_skip_nops(c.struct_block, c.offset);
}

/// The name of a node or a property holds no zero character.
pub proof fn law_names_hold_no_nul(c: Cursor, wanted: Seq<char>)
    requires
        c.wf(),
        c.step() matches Step::Item { item, offset } && item.is_named(wanted),
    ensures
        !wanted.contains('\0'),
{
    let d = c.past_nops();
    lemma_step_progress(c);
    let start = d.offset + DTB_TOKEN_SIZE;
    let name = if be_u32(d.struct_block, d.offset) == DTB_BEGIN_NODE {
        lemma_first_nul(d.struct_block, start);
        c_str(d.struct_block, start)
    } else {
        lemma_first_nul(d.strings_block, d.name_offset());
        c_str(d.strings_block, d.name_offset())
    };
    assert(!name.contains(0));
    decode_utf8_encode_utf8(name);
    lemma_encode_contains(wanted, '\0');
}

/// Items run out: each takes at least a token of the structure block, and ends at a token
/// boundary of it.
pub proof fn law_items_run_out(c: Cursor, count: nat)
    requires
        c.wf(),
        advance(c, count) is Some,
    ensures
        4 * count <= c.struct_block.len() - c.offset,
        advance(c, count)->0.wf(),
        advance(c, count)->0 == c.at(advance(c, count)->0.offset),
    decreases count,
{
    if count > 0 {
        lemma_step_progress(c);
        if let Step::Item { item, offset } = c.step() {
            law_items_run_out(c.at(offset), (count - 1) as nat);
        }
    }
}

/// Whether item number `n` is called `part` and stands at depth zero, where `c` itself is at the
/// given depth.
pub open spec fn matches_at(c: Cursor, part: Seq<char>, depth: int, n: nat) -> bool {
    &&& advance(c, n) matches Some(d)
    &&& d.step() matches Step::Item { item, offset }
    &&& item == (Item::BeginNode { name: part }) || (item matches Item::Property { name, value }
        && name == part)
    &&& depth + depth_after(c, n) == 0
}

/// What is found for a part of a path is the first item of that name at depth zero, and the place
/// behind it. Where there is no such item, the search ends as reading the items does.
pub proof fn law_find_part_is_first_match(c: Cursor, part: Seq<char>, depth: int)
    requires
        c.wf(),
    ensures
        match find_part(c, part, depth) {
            Search::Found { item, cursor } => exists|n: nat|
                {
                    &&& #[trigger] matches_at(c, part, depth, n)
                    &&& forall|m: nat| m < n ==> !#[trigger] matches_at(c, part, depth, m)
                    &&& advance(c, n)->0.step() == (Step::Item { item, offset: cursor.offset })
                    &&& advance(c, n + 1) == Some(cursor)
                },
            Search::Fail { error } => {
                &&& forall|m: nat| !#[trigger] matches_at(c, part, depth, m)
                &&& exists|n: nat|
                    (#[trigger] advance(c, n) matches Some(d) && d.step() == (Step::Fail { error }))
            },
            Search::NameOutOfRange => {
                &&& forall|m: nat| !#[trigger] matches_at(c, part, depth, m)
                &&& exists|n: nat|
                    (#[trigger] advance(c, n) matches Some(d) && d.step() is NameOutOfRange)
            },
        },
    decreases c.struct_block.len() - c.offset,
{
    lemma_step_progress(c);
    match c.step() {
        Step::Item { item, offset } => {
            let next = c.at(offset);
            let next_depth = depth + item.depth_change();
            assert forall|m: nat| m > 0 implies #[trigger] matches_at(c, part, depth, m)
                == matches_at(next, part, next_depth, (m - 1) as nat) by {}
            if depth == 0 && item.is_named(part) {
                assert(advance(c, 0) == Some(c));
                assert(matches_at(c, part, depth, 0));
                assert(advance(next, 0) == Some(next));
                assert(advance(c, 0 + 1) == Some(next));
            } else {
                law_find_part_is_first_match(next, part, next_depth);
                assert(!matches_at(c, part, depth, 0));
                match find_part(next, part, next_depth) {
                    Search::Found { item: found, cursor } => {
                        let k = choose|n: nat|
                            {
                                &&& #[trigger] matches_at(next, part, next_depth, n)
                                &&& forall|m: nat|
                                    m < n ==> !#[trigger] matches_at(next, part, next_depth, m)
                                &&& advance(next, n)->0.step() == (Step::Item {
                                    item: found,
                                    offset: cursor.offset,
                                })
                                &&& advance(next, n + 1) == Some(cursor)
                            };
                        assert(matches_at(c, part, depth, k + 1));
                        assert(advance(c, k + 1) == advance(next, k));
                        assert(advance(c, k + 1 + 1) == advance(next, k + 1));
                        assert forall|m: nat| m < k + 1 implies !#[trigger] matches_at(
                            c,
                            part,
                            depth,
                            m,
                        ) by {
                            if m > 0 {
                                assert(!matches_at(next, part, next_depth, (m - 1) as nat));
                            }
                        }
                    },
                    Search::Fail { error } => {
                        let k = choose|n: nat|
                            (#[trigger] advance(next, n) matches Some(d) && d.step() == (
                            Step::Fail { error }));
                        assert(advance(c, k + 1) == advance(next, k));
                        assert forall|m: nat| !#[trigger] matches_at(c, part, depth, m) by {
                            if m > 0 {
                                assert(!matches_at(next, part, next_depth, (m - 1) as nat));
                            }
                        }
                    },
                    Search::NameOutOfRange => {
                        let k = choose|n: nat|
                            (#[trigger] advance(next, n) matches Some(d)
                                && d.step() is NameOutOfRange);
                        assert(advance(c, k + 1) == advance(next, k));
                        assert forall|m: nat| !#[trigger] matches_at(c, part, depth, m) by {
                            if m > 0 {
                                assert(!matches_at(next, part, next_depth, (m - 1) as nat));
                            }
                        }
                    },
                }
            }
        },
        _ => {
            assert(advance(c, 0) == Some(c));
            assert forall|m: nat| !#[trigger] matches_at(c, part, depth, m) by {}
        },
    }
}

/// What is found for a part of a path is called by that part, and lies ahead.
proof fn lemma_find_part(c: Cursor, part: Seq<char>, depth: int)
    requires
        c.wf(),
    ensures
        find_part(c, part, depth) matches Search::Found { item, cursor } ==> {
            &&& item.is_named(part)
            &&& cursor.wf()
            &&& cursor == c.at(cursor.offset)
            &&& c.offset < cursor.offset
        },
    decreases c.struct_block.len() - c.offset,
{
    lemma_step_progress(c);
    if let Step::Item { item, offset } = c.step() {
        lemma_find_part(c.at(offset), part, depth + item.depth_change());
    }
}

/// What is found for a list of parts is called by the last of them, and lies ahead.
proof fn lemma_find_parts(c: Cursor, parts: Seq<Seq<char>>)
    requires
        c.wf(),
        parts.len() > 0,
    ensures
        find_parts(c, parts) matches Search::Found { item, cursor } ==> {
            &&& item.is_named(parts.last())
            &&& cursor.wf()
            &&& cursor == c.at(cursor.offset)
            &&& c.offset < cursor.offset
        },
    decreases parts.len(),
{
    lemma_find_part(c, parts[0], 0);
    if parts.len() > 1 {
        if let Search::Found { item, cursor } = find_part(c, parts[0], 0) {
            lemma_find_parts(cursor, parts.drop_first());
        }
    }
}

/// There is always a part.
proof fn lemma_split_len(path: Seq<char>)
    ensures
        split(path).len() > 0,
{
}

/// What is found for a path is called by the last part of the path. The iterator that comes with
/// it stands behind the start of the search, in the same blocks.
pub proof fn law_find_gives_named_item(c: Cursor, path: Seq<char>)
    requires
        c.wf(),
    ensures
        find(c, path) matches Search::Found { item, cursor } ==> {
            &&& item.is_named(split(trim(path)).last())
            &&& cursor.wf()
            &&& cursor == c.at(cursor.offset)
            &&& c.offset < cursor.offset
        },
{
    lemma_split_len(trim(path));
    lemma_find_parts(c, split(trim(path)));
}

/// A separator at the end of a path makes no difference.
pub proof fn law_find_ignores_last_separator(c: Cursor, path: Seq<char>)
    requires
        path.len() > 0 ==> path.last() != '/',
    ensures
        find(c, path + seq!['/']) == find(c, path),
{
    assert((path + seq!['/']).drop_last() =~= path);
}

/// A separator joins the parts in front of it and the parts behind it.
pub proof fn lemma_split_join(a: Seq<char>, b: Seq<char>)
    ensures
        split(a + seq!['/'] + b) == split(a) + split(b),
    decreases a.len(),
{
    let joined = a + seq!['/'] + b;
    let at = first_separator(a);
    lemma_first_separator(a);
    lemma_first_separator(joined);
    let end = first_separator(joined);
    if at < a.len() {
        assert(joined[at] == '/');
        assert(end <= at);
        if end < at {
            assert(joined[end] == a[end]);
        }
        assert(joined.take(at) =~= a.take(at));
        assert(joined.skip(at + 1) =~= a.skip(at + 1) + seq!['/'] + b);
        lemma_split_join(a.skip(at + 1), b);
        assert(split(joined) =~= split(a) + split(b));
    } else {
        assert(joined[a.len() as int] == '/');
        if end < a.len() {
            assert(joined[end] == a[end]);
        }
        assert(joined.take(end) =~= a);
        assert(joined.skip(end + 1) =~= b);
        assert(split(joined) =~= split(a) + split(b));
    }
}

/// A list of parts is found by finding its front, and then the rest behind it.
proof fn lemma_find_parts_join(c: Cursor, front: Seq<Seq<char>>, rest: Seq<Seq<char>>)
    requires
        front.len() > 0,
        rest.len() > 0,
    ensures
        find_parts(c, front + rest) == match find_parts(c, front) {
            Search::Found { item, cursor } => find_parts(cursor, rest),
            other => other,
        },
    decreases front.len(),
{
    let all = front + rest;
    if let Search::Found { item, cursor } = find_part(c, front[0], 0) {
        if front.len() == 1 {
            assert(all.drop_first() =~= rest);
        } else {
            assert(all.drop_first() =~= front.drop_first() + rest);
            lemma_find_parts_join(cursor, front.drop_first(), rest);
        }
    }
}

/// Searching for a path of two pieces is searching for the first piece, and then for the second
/// one from there.
pub proof fn law_find_goes_by_pieces(c: Cursor, first: Seq<char>, second: Seq<char>)
    requires
        first.len() > 0 ==> first.last() != '/',
        second.len() > 0,
    ensures
        find(c, first + seq!['/'] + second) == match find(c, first) {
            Search::Found { item, cursor } => find(cursor, second),
            other => other,
        },
{
    let path = first + seq!['/'] + second;
    assert(trim(path) =~= first + seq!['/'] + trim(second));
    lemma_split_join(first, trim(second));
    lemma_split_len(first);
    lemma_split_len(trim(second));
    lemma_find_parts_join(c, split(first), split(trim(second)));
}

/// The size of a blob is fixed by its header: cut short or made longer, a blob with a sound header
/// no longer has one.
pub proof fn law_header_fixes_size(blob: Seq<u8>, other: Seq<u8>)
    requires
        header_error(blob) is None,
        other.len() != blob.len(),
        forall|i: int| 0 <= i < blob.len() && i < other.len() ==> blob[i] == other[i],
    ensures
        header_error(other) == Some(
            if other.len() < 4 {
                Error::BadMagic
            } else if other.len() < DTB_HEADER_SIZE {
                Error::UnexpectedEndOfBlob
            } else {
                Error::BadTotalSize
            },
        ),
        blob_error(other) == header_error(other),
{
}

/// An entry is zero exactly if its bytes are, whatever the byte order of the machine.
pub proof fn law_zero_entry_is_zero_bytes(bytes: Seq<u8>, at: int)
    ensures
        is_zero_entry(entry_at(bytes, at)) <==> forall|i: int|
            at <= i < at + RESERVED_MEM_ENTRY_SIZE ==> bytes[i] == 0,
{
    lemma_zero_u64(bytes, at);
    lemma_zero_u64(bytes, at + 8);
}

/// A 64-bit integer is zero exactly if its bytes are.
proof fn lemma_zero_u64(bytes: Seq<u8>, at: int)
    ensures
        native_u64(bytes, at) == 0 <==> forall|i: int| at <= i < at + 8 ==> bytes[i] == 0,
{
    assert(native_u64(bytes, at) == 0 <==> {
        &&& bytes[at] == 0
        &&& bytes[at + 1] == 0
        &&& bytes[at + 2] == 0
        &&& bytes[at + 3] == 0
        &&& bytes[at + 4] == 0
        &&& bytes[at + 5] == 0
        &&& bytes[at + 6] == 0
        &&& bytes[at + 7] == 0
    });
}

/// The first zero entry is zero, and none before it is.
pub proof fn lemma_first_zero_entry(blob: Seq<u8>, header: DtbHeader, index: int)
    requires
        0 <= index <= reserved_mem_room(header),
    ensures
        index <= first_zero_entry(blob, header, index) <= reserved_mem_room(header),
        first_zero_entry(blob, header, index) < reserved_mem_room(header) ==> is_zero_entry(
            reserved_mem_entry(blob, header, first_zero_entry(blob, header, index)),
        ),
        forall|i: int|
            index <= i < first_zero_entry(blob, header, index) ==> !is_zero_entry(
                #[trigger] reserved_mem_entry(blob, header, i),
            ),
    decreases reserved_mem_room(header) - index,
{
    if index < reserved_mem_room(header) && !is_zero_entry(
        reserved_mem_entry(blob, header, index),
    ) {
        lemma_first_zero_entry(blob, header, index + 1);
    }
}

/// The blocks of an accepted blob lie within it, one behind the other: the entries of the memory
/// reservation block with the zero entry that ends them, the structure block, made of whole
/// tokens, and the strings block.
pub proof fn law_blocks_are_apart(blob: Seq<u8>)
    requires
        blob_error(blob) is None,
    ensures
        ({
            let header = header_of(blob);
            let blocks = blocks_of(blob);
            let reserved_mem_end = header.reserved_mem_offset + RESERVED_MEM_ENTRY_SIZE * (
            reserved_mem_count(blob, header) + 1);
            &&& blocks.reserved_mem.len() == reserved_mem_count(blob, header)
            &&& reserved_mem_end <= header.struct_offset
            &&& header.struct_offset + blocks.struct_block.len() <= header.strings_offset
            &&& header.strings_offset + blocks.strings_block.len() <= blob.len()
            &&& blocks.struct_block.len() == header.struct_size
            &&& blocks.struct_block.len() % 4 == 0
            &&& blocks.strings_block.len() == header.strings_size
        }),
{
    let header = header_of(blob);
    lemma_first_zero_entry(blob, header, 0);
}

/// Nothing has to be known of a blob before it is opened but that it has no fault: all its blocks
/// are in range then.
pub proof fn law_accepted_blob_is_in_range(blob: Seq<u8>)
    requires
        blob_error(blob) is None,
    ensures
        blob_in_range(blob),
{
}

/// The memory reservations of an accepted blob are the entries before the first zero one.
pub proof fn law_reserved_mem_ends_at_zero(blob: Seq<u8>)
    requires
        blob_error(blob) is None,
    ensures
        ({
            let header = header_of(blob);
            let entries = blocks_of(blob).reserved_mem;
            &&& forall|i: int|
                0 <= i < entries.len() ==> #[trigger] entries[i] == reserved_mem_entry(
                    blob,
                    header,
                    i,
                ) && !is_zero_entry(entries[i])
            &&& is_zero_entry(reserved_mem_entry(blob, header, entries.len() as int))
        }),
{
    lemma_first_zero_entry(blob, header_of(blob), 0);
}

} // verus!
