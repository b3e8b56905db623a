//! The reader of a blob, and the iterator over the items of its structure block.

use crate::dtb_format::{
    be_u32, header_of, read_be_u32, read_entry, DtbHeader, ReservedMemEntry, DTB_BEGIN_NODE,
    DTB_COMP_VERSION, DTB_END, DTB_END_NODE, DTB_HEADER_SIZE, DTB_MAGIC, DTB_NOP, DTB_PROPERTY,
    DTB_PROPERTY_DESC_SIZE, DTB_TOKEN_SIZE, RESERVED_MEM_ENTRY_SIZE,
};
use crate::error::Error;
use crate::layout::{
    blob_error, blob_in_range, blocks_of, first_zero_entry, header_error, reserved_mem_count,
    reserved_mem_entry, reserved_mem_error, reserved_mem_in_range, reserved_mem_of,
    reserved_mem_room, strings_error, strings_in_range, struct_error, struct_in_range, Blocks,
};
use crate::path::{
    first_separator, lemma_encode_split, lemma_encode_trim, lemma_first_separator, split, trim,
    SEPARATOR,
};
use crate::search::{find, find_part, find_parts, Search};
use crate::struct_block::{
    align_up, first_nul, lemma_first_nul, lemma_step_progress, skip_nops, Cursor, Step,
};
use crate::struct_item::StructItem;
use core::str::from_utf8;
use vstd::prelude::*;
use vstd::slice::slice_subrange;
use vstd::utf8::{
    decode_utf8, decode_utf8_encode_utf8, encode_utf8, encode_utf8_decode_utf8,
    encode_utf8_valid_utf8, valid_utf8,
};

verus! {

/// An iterator over the items of a structure block.
#[derive(Debug)]
pub struct DtbStructIterator<'a> {
    struct_block: &'a [u8],
    strings_block: &'a [u8],
    offset: usize,
}

impl<'a> View for DtbStructIterator<'a> {
    type V = Cursor;

    closed spec fn view(&self) -> Cursor {
        Cursor {
            struct_block: self.struct_block@,
            strings_block: self.strings_block@,
            offset: self.offset as int,
        }
    }
}

impl<'a> Clone for DtbStructIterator<'a> {
    fn clone(&self) -> (copy: Self)
        ensures
            copy@ == self@,
    {
        proof {
            use_type_invariant(self);
        }
        DtbStructIterator {
            struct_block: self.struct_block,
            strings_block: self.strings_block,
            offset: self.offset,
        }
    }
}

/// Whether `result` is what `step` comes to, and `after` where reading it at `before` leaves the
/// cursor: behind the item, or in place where there is none.
pub open spec fn reads(
    step: Step,
    before: Cursor,
    result: Result<StructItem<'_>, Error>,
    after: Cursor,
) -> bool {
    match step {
        Step::Item { item, offset } => {
            &&& result matches Ok(found)
            &&& found@ == item
            &&& after == before.at(offset)
        },
        Step::Fail { error } => {
            &&& result == Err::<StructItem<'_>, Error>(error)
            &&& after == before
        },
        Step::NameOutOfRange => false,
    }
}

/// Whether `result` is what the search comes to: the item that was found, and an iterator behind
/// it.
pub open spec fn finds(
    search: Search,
    result: Result<(StructItem<'_>, DtbStructIterator<'_>), Error>,
) -> bool {
    match search {
        Search::Found { item, cursor } => {
            &&& result matches Ok(found)
            &&& found.0@ == item
            &&& found.1@ == cursor
            &&& cursor.wf()
        },
        Search::Fail { error } => result == Err::<(StructItem<'_>, DtbStructIterator<'_>), Error>(
            error,
        ),
        Search::NameOutOfRange => false,
    }
}

/// Whether two slices hold the same bytes.
fn same_bytes(a: &[u8], b: &[u8]) -> (same: bool)
    ensures
        same == (a@ == b@),
{
    if a.len() != b.len() {
        return false;
    }
    let mut i: usize = 0;
    while i < a.len()
        invariant
            i <= a@.len() == b@.len(),
            forall|j: int| 0 <= j < i ==> a@[j] == b@[j],
        decreases a@.len() - i,
    {
        if a[i] != b[i] {
            return false;
        }
        i += 1;
    }
    assert(a@ =~= b@);
    true
}

/// Whether `name` is the text that `part` encodes.
fn is_name(name: &str, part: &[u8]) -> (same: bool)
    requires
        valid_utf8(part@),
    ensures
        same == (name@ == decode_utf8(part@)),
{
    proof {
        encode_utf8_decode_utf8(name@);
        decode_utf8_encode_utf8(part@);
    }
    same_bytes(name.as_bytes(), part)
}

/// Finds the first separator in `path` at or after `from`, or its end.
fn find_separator(path: &[u8], from: usize, end: usize) -> (stop: usize)
    requires
        from <= end <= path@.len(),
    ensures
        from <= stop <= end,
        !path@.subrange(from as int, stop as int).contains(SEPARATOR),
        stop < end ==> path@[stop as int] == SEPARATOR,
{
    let mut i: usize = from;
    while i < end && path[i] != SEPARATOR
        invariant
            from <= i <= end <= path@.len(),
            forall|j: int| from <= j < i ==> path@[j] != SEPARATOR,
        decreases end - i,
    {
        i += 1;
    }
    i
}

/// Rounds up an offset to the next token boundary.
fn round_up(offset: usize) -> (rounded: usize)
    requires
        offset <= usize::MAX - 3,
    ensures
        rounded == align_up(offset as int),
        rounded % 4 == 0,
        offset <= rounded < offset + 4,
{
    ((offset + (DTB_TOKEN_SIZE - 1)) / DTB_TOKEN_SIZE) * DTB_TOKEN_SIZE
}

/// Finds the first zero byte at or after `from`.
fn find_nul(bytes: &[u8], from: usize) -> (found: Option<usize>)
    requires
        from <= bytes@.len(),
    ensures
        match found {
            Some(end) => end == first_nul(bytes@, from as int) && end < bytes@.len(),
            None => first_nul(bytes@, from as int) == bytes@.len(),
        },
{
    let mut i: usize = from;
    while i < bytes.len()
        invariant
            from <= i <= bytes@.len(),
            first_nul(bytes@, i as int) == first_nul(bytes@, from as int),
        decreases bytes@.len() - i,
    {
        if bytes[i] == 0 {
            return Some(i);
        }
        i += 1;
    }
    None
}

impl<'a> DtbStructIterator<'a> {
    /// Every iterator is at a token boundary of its structure block.
    #[verifier::type_invariant]
    pub open spec fn inv(self) -> bool {
        self@.wf()
    }

    /// Moves to `offset`, rounded up to a token boundary.
    fn set_offset(&mut self, offset: usize)
        requires
            offset <= old(self)@.struct_block.len(),
        ensures
            final(self)@ == old(self)@.at(align_up(offset as int)),
    {
        proof {
            use_type_invariant(&*self);
        }
        self.offset = round_up(offset);
    }

    /// Reads the start of a node whose token is at the current offset.
    fn read_begin_node(&mut self) -> (result: Result<StructItem<'a>, Error>)
        requires
            old(self)@.offset + DTB_TOKEN_SIZE <= old(self)@.struct_block.len(),
        ensures
            reads(old(self)@.begin_node(), old(self)@, result, final(self)@),
    {
        proof {
            use_type_invariant(&*self);
        }
        let offset: usize = self.offset + DTB_TOKEN_SIZE;
        match find_nul(self.struct_block, offset) {
            Some(end) => {
                proof {
                    lemma_first_nul(self.struct_block@, offset as int);
                }
                match from_utf8(slice_subrange(self.struct_block, offset, end)) {
                    Ok(name) => {
                        proof {
                            encode_utf8_decode_utf8(name@);
                        }
                        self.set_offset(end + 1);
                        Ok(StructItem::BeginNode { name })
                    },
                    Err(err) => Err(Error::BadStrEncoding(err)),
                }
            },
            None => Err(Error::BadNodeName),
        }
    }

    /// Checks that `size` bytes at `offset` lie within the structure block.
    fn assert_enough_struct(&self, offset: usize, size: usize) -> (result: Result<(), Error>)
        ensures
            result == (if offset + size <= self@.struct_block.len() {
                Ok(())
            } else {
                Err::<(), Error>(Error::UnexpectedEndOfStruct)
            }),
    {
        let len: usize = self.struct_block.len();
        if len < offset || len - offset < size {
            Err(Error::UnexpectedEndOfStruct)
        } else {
            Ok(())
        }
    }

    /// Reads a property whose token is at the current offset.
    fn read_property(&mut self) -> (result: Result<StructItem<'a>, Error>)
        requires
            !(old(self)@.property() is NameOutOfRange),
        ensures
            reads(old(self)@.property(), old(self)@, result, final(self)@),
    {
        proof {
            use_type_invariant(&*self);
        }
        let head_size: usize = DTB_TOKEN_SIZE + DTB_PROPERTY_DESC_SIZE;
        if let Err(err) = self.assert_enough_struct(self.offset, head_size) {
            return Err(err);
        }
        let desc: usize = self.offset + DTB_TOKEN_SIZE;
        let value_size: usize = read_be_u32(self.struct_block, desc) as usize;
        let name_offset: usize = read_be_u32(self.struct_block, desc + 4) as usize;
        let start: usize = desc + DTB_PROPERTY_DESC_SIZE;
        if let Err(err) = self.assert_enough_struct(start, value_size) {
            return Err(err);
        }
        let value = slice_subrange(self.struct_block, start, start + value_size);
        match find_nul(self.strings_block, name_offset) {
            Some(end) => {
                proof {
                    lemma_first_nul(self.strings_block@, name_offset as int);
                }
                match from_utf8(slice_subrange(self.strings_block, name_offset, end)) {
                    Ok(name) => {
                        proof {
                            encode_utf8_decode_utf8(name@);
                        }
                        self.set_offset(start + value_size);
                        Ok(StructItem::Property { name, value })
                    },
                    Err(err) => Err(Error::BadStrEncoding(err)),
                }
            },
            None => Err(Error::BadPropertyName),
        }
    }

    /// Whether the next item is not a property whose name starts beyond the strings block.
    pub fn name_in_range(&self) -> (yes: bool)
        ensures
            yes == !(self@.step() is NameOutOfRange),
    {
        proof {
            use_type_invariant(self);
        }
        let mut at: usize = self.offset;
        while self.assert_enough_struct(at, DTB_TOKEN_SIZE).is_ok() && read_be_u32(
            self.struct_block,
            at,
        ) == DTB_NOP
            invariant
                at <= self.struct_block@.len() <= u32::MAX,
                skip_nops(self.struct_block@, at as int) == skip_nops(
                    self.struct_block@,
                    self.offset as int,
                ),
            decreases self.struct_block@.len() - at,
        {
            at += DTB_TOKEN_SIZE;
        }
        assert(self@.past_nops().offset == at);
        if self.assert_enough_struct(at, DTB_TOKEN_SIZE).is_err() || read_be_u32(
            self.struct_block,
            at,
        ) != DTB_PROPERTY {
            return true;
        }
        let desc: usize = at + DTB_TOKEN_SIZE;
        if self.assert_enough_struct(desc, DTB_PROPERTY_DESC_SIZE).is_err() {
            return true;
        }
        let value_size: usize = read_be_u32(self.struct_block, desc) as usize;
        if self.assert_enough_struct(desc + DTB_PROPERTY_DESC_SIZE, value_size).is_err() {
            return true;
        }
        read_be_u32(self.struct_block, desc + 4) as usize <= self.strings_block.len()
    }

    /// Reads the next item, and moves behind it.
    ///
    /// No-operation tokens are skipped. At the end token, and wherever else there is no item, the
    /// iterator stays in front of the token that ends the reading.
    pub fn next(&mut self) -> (result: Result<StructItem<'a>, Error>)
        requires
            !(old(self)@.step() is NameOutOfRange),
        ensures
            reads(old(self)@.step(), old(self)@.past_nops(), result, final(self)@),
            result matches Ok(found) ==> old(self)@.step() == (Step::Item {
                item: found@,
                offset: final(self)@.offset,
            }),
            result matches Err(error) ==> old(self)@.step() == (Step::Fail { error })
                && final(self)@ == old(self)@.past_nops(),
            final(self)@.struct_block == old(self)@.struct_block,
            final(self)@.strings_block == old(self)@.strings_block,
            final(self)@.wf(),
    {
        proof {
            use_type_invariant(&*self);
        }
        loop
            invariant
                self@.wf(),
                self@.past_nops() == old(self)@.past_nops(),
                !(old(self)@.step() is NameOutOfRange),
            decreases self.struct_block@.len() - self.offset,
        {
            if let Err(err) = self.assert_enough_struct(self.offset, DTB_TOKEN_SIZE) {
                return Err(err);
            }
            let token: u32 = read_be_u32(self.struct_block, self.offset);
            if token == DTB_NOP {
                self.offset += DTB_TOKEN_SIZE;
                continue;
            }
            let result = match token {
                DTB_BEGIN_NODE => self.read_begin_node(),
                DTB_PROPERTY => self.read_property(),
                DTB_END_NODE => {
                    self.offset += DTB_TOKEN_SIZE;
                    Ok(StructItem::EndNode)
                },
                DTB_END => Err(Error::NoMoreStructItems),
                _ => Err(Error::BadStructToken),
            };
            proof {
                use_type_invariant(&*self);
            }
            return result;
        }
    }

    /// Reads the next item as `next` does, unless it is a property whose name starts beyond the
    /// strings block: then there is no result, and the iterator stays in place.
    pub fn try_next(&mut self) -> (result: Option<Result<StructItem<'a>, Error>>)
        ensures
            match result {
                Some(read) => reads(old(self)@.step(), old(self)@.past_nops(), read, final(self)@),
                None => old(self)@.step() is NameOutOfRange && final(self)@ == old(self)@,
            },
            result matches Some(Ok(found)) ==> old(self)@.step() == (Step::Item {
                item: found@,
                offset: final(self)@.offset,
            }),
            result matches Some(Err(error)) ==> old(self)@.step() == (Step::Fail { error })
                && final(self)@ == old(self)@.past_nops(),
            result is None ==> old(self)@.step() is NameOutOfRange && final(self)@ == old(self)@,
            final(self)@.struct_block == old(self)@.struct_block,
            final(self)@.strings_block == old(self)@.strings_block,
            final(self)@.wf(),
    {
        proof {
            use_type_invariant(&*self);
        }
        if self.name_in_range() {
            Some(self.next())
        } else {
            None
        }
    }

    /// Searches for one part of a path, given by its encoding, and moves behind what it finds.
    fn try_find_part(&mut self, part: &[u8]) -> (result: Option<Result<StructItem<'a>, Error>>)
        requires
            valid_utf8(part@),
        ensures
            match find_part(old(self)@, decode_utf8(part@), 0) {
                Search::Found { item, cursor } => {
                    &&& result matches Some(Ok(found))
                    &&& found@ == item
                    &&& final(self)@ == cursor
                },
                Search::Fail { error } => result == Some(Err::<StructItem<'a>, Error>(error)),
                Search::NameOutOfRange => result is None,
            },
    {
        let ghost wanted = decode_utf8(part@);
        proof {
            use_type_invariant(&*self);
        }
        let mut depth: i32 = 0;
        loop
            invariant
                self@.wf(),
                valid_utf8(part@),
                wanted == decode_utf8(part@),
                -self.offset <= 4 * depth <= self.offset,
                find_part(self@, wanted, depth as int) == find_part(old(self)@, wanted, 0),
            decreases self.struct_block@.len() - self.offset,
        {
            proof {
                lemma_step_progress(self@);
            }
            let item = match self.try_next() {
                Some(Ok(item)) => item,
                other => {
                    return other;
                },
            };
            match item {
                StructItem::BeginNode { name } => {
                    if depth == 0 && is_name(name, part) {
                        return Some(Ok(item));
                    }
                    depth += 1;
                },
                StructItem::Property { name, value: _ } => {
                    if depth == 0 && is_name(name, part) {
                        return Some(Ok(item));
                    }
                },
                StructItem::EndNode => {
                    depth -= 1;
                },
            }
        }
    }

    /// Searches for a path as `find` does, unless that meets a property whose name starts beyond
    /// the strings block: then there is no result.
    pub fn try_find(&self, path: &str) -> (result: Option<
        Result<(StructItem<'a>, DtbStructIterator<'a>), Error>,
    >)
        ensures
            match result {
                Some(found) => finds(find(self@, path@), found),
                None => find(self@, path@) is NameOutOfRange,
            },
            result matches Some(Ok(found)) ==> find(self@, path@) == (Search::Found {
                item: found.0@,
                cursor: found.1@,
            }),
            result matches Some(Err(error)) ==> find(self@, path@) == (Search::Fail { error }),
    {
        let bytes = path.as_bytes();
        let len: usize = bytes.len();
        let end: usize = if len > 0 && bytes[len - 1] == SEPARATOR {
            len - 1
        } else {
            len
        };
        let ghost mut rest = trim(path@);
        proof {
            lemma_encode_trim(path@);
            assert(encode_utf8(rest) =~= bytes@.subrange(0, end as int));
        }
        let mut start: usize = 0;
        let mut iter = self.clone();
        loop
            invariant
                start <= end <= bytes@.len(),
                encode_utf8(rest) == bytes@.subrange(start as int, end as int),
                find_parts(iter@, split(rest)) == find(self@, path@),
            decreases end - start,
        {
            let stop: usize = find_separator(bytes, start, end);
            let part = slice_subrange(bytes, start, stop);
            proof {
                lemma_path_step(bytes@, start as int, stop as int, end as int, rest);
            }
            let item = match iter.try_find_part(part) {
                Some(Ok(item)) => item,
                Some(Err(err)) => {
                    return Some(Err(err));
                },
                None => {
                    return None;
                },
            };
            if stop == end {
                proof {
                    use_type_invariant(&iter);
                }
                return Some(Ok((item, iter)));
            }
            start = stop + 1;
            proof {
                rest = rest.skip(first_separator(rest) + 1);
            }
        }
    }

    /// Searches for the node or the property with the given path, and returns it with an iterator
    /// behind it.
    ///
    /// The path is relative to the place of this iterator, which is left as it is. A separator at
    /// the end of the path does not count.
    pub fn find(&self, path: &str) -> (result: Result<
        (StructItem<'a>, DtbStructIterator<'a>),
        Error,
    >)
        requires
            !(find(self@, path@) is NameOutOfRange),
        ensures
            finds(find(self@, path@), result),
            result matches Ok(found) ==> find(self@, path@) == (Search::Found {
                item: found.0@,
                cursor: found.1@,
            }),
            result matches Err(error) ==> find(self@, path@) == (Search::Fail { error }),
    {
        self.try_find(path).unwrap()
    }
}

/// The bytes of a path up to its first separator byte encode its first part, and the bytes behind
/// that separator encode the other parts.
proof fn lemma_path_step(bytes: Seq<u8>, start: int, stop: int, end: int, rest: Seq<char>)
    requires
        0 <= start <= stop <= end <= bytes.len(),
        encode_utf8(rest) == bytes.subrange(start, end),
        !bytes.subrange(start, stop).contains(SEPARATOR),
        stop < end ==> bytes[stop] == SEPARATOR,
    ensures
        valid_utf8(bytes.subrange(start, stop)),
        split(rest).len() > 0,
        decode_utf8(bytes.subrange(start, stop)) == split(rest)[0],
        stop == end ==> split(rest).len() == 1,
        stop < end ==> {
            let tail = rest.skip(first_separator(rest) + 1);
            &&& split(rest).len() > 1
            &&& split(rest).drop_first() == split(tail)
            &&& encode_utf8(tail) == bytes.subrange(stop + 1, end)
        },
{
    let at = first_separator(rest);
    let b = bytes.subrange(start, end);
    let n = stop - start;
    lemma_first_separator(rest);
    lemma_encode_split(rest);
    if at < rest.len() {
        let head = rest.take(at);
        let tail = rest.skip(at + 1);
        let h = encode_utf8(head);
        let before = bytes.subrange(start, stop);
        assert(b[h.len() as int] == SEPARATOR);
        if n > h.len() {
            assert(before[h.len() as int] == SEPARATOR);
        }
        if n < h.len() {
            assert(b[n] == bytes[stop]);
            assert(b[n] == h[n]);
            assert(h.contains(h[n]));
        }
        assert(n == h.len());
        assert(before =~= h);
        encode_utf8_valid_utf8(head);
        encode_utf8_decode_utf8(head);
        assert(encode_utf8(tail) =~= b.subrange(n + 1, b.len() as int));
        assert(b.subrange(n + 1, b.len() as int) =~= bytes.subrange(stop + 1, end));
        assert(split(tail).len() > 0);
        assert(split(rest).drop_first() =~= split(tail));
    } else {
        if stop < end {
            assert(b[n] == SEPARATOR);
        }
        assert(bytes.subrange(start, stop) =~= encode_utf8(rest));
        encode_utf8_valid_utf8(rest);
        encode_utf8_decode_utf8(rest);
    }
}

/// A reader of a blob.
#[derive(Debug)]
pub struct DtbReader<'a> {
    reserved_mem: Vec<ReservedMemEntry>,
    struct_block: &'a [u8],
    strings_block: &'a [u8],
}

impl<'a> View for DtbReader<'a> {
    type V = Blocks;

    closed spec fn view(&self) -> Blocks {
        Blocks {
            reserved_mem: self.reserved_mem@,
            struct_block: self.struct_block@,
            strings_block: self.strings_block@,
        }
    }
}

/// Whether `result` is a reader of the blocks of `blob`, or the fault of `blob`.
pub open spec fn opens(blob: Seq<u8>, result: Result<DtbReader<'_>, Error>) -> bool {
    match blob_error(blob) {
        Some(error) => result == Err::<DtbReader<'_>, Error>(error),
        None => {
            &&& result matches Ok(reader)
            &&& reader@ == blocks_of(blob)
        },
    }
}

impl<'a> DtbReader<'a> {
    /// The structure block of every reader is made of whole tokens.
    #[verifier::type_invariant]
    pub open spec fn inv(self) -> bool {
        items_start(self@).wf()
    }

    /// Reads the header, and checks it.
    fn get_header(blob: &'a [u8]) -> (result: Result<DtbHeader, Error>)
        ensures
            match header_error(blob@) {
                Some(error) => result == Err::<DtbHeader, Error>(error),
                None => result == Ok::<DtbHeader, Error>(header_of(blob@)),
            },
    {
        if blob.len() < 4 {
            return Err(Error::BadMagic);
        }
        if read_be_u32(blob, 0) != DTB_MAGIC {
            return Err(Error::BadMagic);
        }
        if blob.len() < DTB_HEADER_SIZE {
            return Err(Error::UnexpectedEndOfBlob);
        }
        let header = DtbHeader {
            magic: DTB_MAGIC,
            total_size: read_be_u32(blob, 4),
            struct_offset: read_be_u32(blob, 8),
            strings_offset: read_be_u32(blob, 12),
            reserved_mem_offset: read_be_u32(blob, 16),
            version: read_be_u32(blob, 20),
            last_comp_version: read_be_u32(blob, 24),
            bsp_cpu_id: read_be_u32(blob, 28),
            strings_size: read_be_u32(blob, 32),
            struct_size: read_be_u32(blob, 36),
        };
        if header.version < header.last_comp_version {
            return Err(Error::BadVersion);
        }
        if header.last_comp_version != DTB_COMP_VERSION {
            return Err(Error::UnsupportedCompVersion);
        }
        if header.total_size as usize != blob.len() {
            return Err(Error::BadTotalSize);
        }
        Ok(header)
    }

    /// Whether the memory reservation block is in range.
    fn check_reserved_mem(blob: &'a [u8], header: &DtbHeader) -> (yes: bool)
        ensures
            yes == reserved_mem_in_range(blob@, *header),
    {
        let offset: u32 = header.reserved_mem_offset;
        let entry_size: u32 = RESERVED_MEM_ENTRY_SIZE as u32;
        if offset > u32::MAX - entry_size {
            return false;
        }
        if offset + entry_size > header.struct_offset || offset % 8 != 0 {
            return true;
        }
        let room: u32 = (header.struct_offset - offset) / entry_size;
        (offset + room * entry_size) as usize <= blob.len()
    }

    /// Reads the entries of the memory reservation block, up to the zero entry that ends it.
    fn get_reserved_mem(blob: &'a [u8], header: &DtbHeader) -> (result: Result<
        Vec<ReservedMemEntry>,
        Error,
    >)
        requires
            reserved_mem_in_range(blob@, *header),
        ensures
            match reserved_mem_error(blob@, *header) {
                Some(error) => result == Err::<Vec<ReservedMemEntry>, Error>(error),
                None => {
                    &&& result matches Ok(entries)
                    &&& entries@ == reserved_mem_of(blob@, *header)
                },
            },
    {
        let entry_size: usize = RESERVED_MEM_ENTRY_SIZE;
        if header.reserved_mem_offset + entry_size as u32 > header.struct_offset {
            return Err(Error::OverlappingReservedMem);
        }
        if header.reserved_mem_offset % 8 != 0 {
            return Err(Error::UnalignedReservedMem);
        }
        let start: usize = header.reserved_mem_offset as usize;
        let room: usize = (header.struct_offset - header.reserved_mem_offset) as usize / entry_size;
        assert(blob.len() == blob@.len());
        let mut entries: Vec<ReservedMemEntry> = Vec::new();
        let mut index: usize = 0;
        while index < room
            invariant
                index <= room,
                entry_size == RESERVED_MEM_ENTRY_SIZE,
                start == header.reserved_mem_offset,
                start + RESERVED_MEM_ENTRY_SIZE * room <= blob@.len() <= usize::MAX,
                room == reserved_mem_room(*header),
                reserved_mem_error(blob@, *header) != Some(Error::OverlappingReservedMem),
                reserved_mem_error(blob@, *header) != Some(Error::UnalignedReservedMem),
                first_zero_entry(blob@, *header, index as int) == reserved_mem_count(
                    blob@,
                    *header,
                ),
                entries@ == Seq::new(
                    index as nat,
                    |i: int| reserved_mem_entry(blob@, *header, i),
                ),
            decreases room - index,
        {
            let entry = read_entry(blob, start + index * entry_size);
            if entry.address == 0 && entry.size == 0 {
                return Ok(entries);
            }
            entries.push(entry);
            index += 1;
        }
        Err(Error::NoZeroReservedMemEntry)
    }

    /// Whether the structure block is in range.
    fn check_struct_block(blob: &'a [u8], header: &DtbHeader) -> (yes: bool)
        ensures
            yes == struct_in_range(blob@, *header),
    {
        if header.struct_offset % 4 != 0 || header.struct_size % 4 != 0 {
            return true;
        }
        if header.struct_offset > u32::MAX - header.struct_size {
            return false;
        }
        let end: u32 = header.struct_offset + header.struct_size;
        end > header.strings_offset || end as usize <= blob.len()
    }

    /// Finds the structure block.
    fn get_struct_block(blob: &'a [u8], header: &DtbHeader) -> (result: Result<&'a [u8], Error>)
        requires
            struct_in_range(blob@, *header),
        ensures
            match struct_error(*header) {
                Some(error) => result == Err::<&'a [u8], Error>(error),
                None => {
                    &&& result matches Ok(block)
                    &&& block@ == blob@.subrange(
                        header.struct_offset as int,
                        header.struct_offset + header.struct_size,
                    )
                },
            },
    {
        if header.struct_offset % 4 != 0 || header.struct_size % 4 != 0 {
            return Err(Error::UnalignedStruct);
        }
        if header.struct_offset + header.struct_size > header.strings_offset {
            return Err(Error::OverlappingStruct);
        }
        let offset: usize = header.struct_offset as usize;
        Ok(slice_subrange(blob, offset, offset + header.struct_size as usize))
    }

    /// Whether the strings block is in range.
    fn check_strings_block(header: &DtbHeader) -> (yes: bool)
        ensures
            yes == strings_in_range(*header),
    {
        header.strings_offset <= u32::MAX - header.strings_size
    }

    /// Finds the strings block.
    fn get_strings_block(blob: &'a [u8], header: &DtbHeader) -> (result: Result<&'a [u8], Error>)
        requires
            strings_in_range(*header),
            header.total_size == blob@.len(),
        ensures
            match strings_error(*header) {
                Some(error) => result == Err::<&'a [u8], Error>(error),
                None => {
                    &&& result matches Ok(block)
                    &&& block@ == blob@.subrange(
                        header.strings_offset as int,
                        header.strings_offset + header.strings_size,
                    )
                },
            },
    {
        if header.strings_offset + header.strings_size > header.total_size {
            return Err(Error::OverlappingStrings);
        }
        let offset: usize = header.strings_offset as usize;
        Ok(slice_subrange(blob, offset, offset + header.strings_size as usize))
    }

    /// Opens a blob as `new` does, unless one of its blocks is out of range: then there is no
    /// result.
    pub fn try_new(blob: &'a [u8]) -> (result: Option<Result<Self, Error>>)
        ensures
            match result {
                Some(opened) => blob_in_range(blob@) && opens(blob@, opened),
                None => !blob_in_range(blob@),
            },
            result matches Some(Ok(reader)) ==> {
                &&& blob_error(blob@) is None
                &&& reader@ == blocks_of(blob@)
                &&& reader@.struct_block == blob@.subrange(
                    be_u32(blob@, 8) as int,
                    be_u32(blob@, 8) + be_u32(blob@, 36),
                )
                &&& reader@.strings_block == blob@.subrange(
                    be_u32(blob@, 12) as int,
                    be_u32(blob@, 12) + be_u32(blob@, 32),
                )
            },
            result matches Some(Err(error)) ==> blob_error(blob@) == Some(error),
    {
        let header = match DtbReader::get_header(blob) {
            Ok(header) => header,
            Err(err) => {
                return Some(Err(err));
            },
        };
        if !DtbReader::check_reserved_mem(blob, &header) {
            return None;
        }
        let reserved_mem = match DtbReader::get_reserved_mem(blob, &header) {
            Ok(entries) => entries,
            Err(err) => {
                return Some(Err(err));
            },
        };
        if !DtbReader::check_struct_block(blob, &header) {
            return None;
        }
        let struct_block = match DtbReader::get_struct_block(blob, &header) {
            Ok(block) => block,
            Err(err) => {
                return Some(Err(err));
            },
        };
        if !DtbReader::check_strings_block(&header) {
            return None;
        }
        match DtbReader::get_strings_block(blob, &header) {
            Ok(strings_block) => Some(Ok(DtbReader { reserved_mem, struct_block, strings_block })),
            Err(err) => Some(Err(err)),
        }
    }

    /// Opens a blob: checks its header and the places of its blocks.
    pub fn new(blob: &'a [u8]) -> (result: Result<Self, Error>)
        requires
            blob_in_range(blob@),
        ensures
            opens(blob@, result),
            result matches Ok(reader) ==> {
                &&& blob_error(blob@) is None
                &&& reader@ == blocks_of(blob@)
                &&& reader@.struct_block == blob@.subrange(
                    be_u32(blob@, 8) as int,
                    be_u32(blob@, 8) + be_u32(blob@, 36),
                )
                &&& reader@.strings_block == blob@.subrange(
                    be_u32(blob@, 12) as int,
                    be_u32(blob@, 12) + be_u32(blob@, 32),
                )
            },
            result matches Err(error) ==> blob_error(blob@) == Some(error),
    {
        DtbReader::try_new(blob).unwrap()
    }

    /// An iterator over the items of the structure block, from its start.
    pub fn struct_iter(&self) -> (iter: DtbStructIterator<'a>)
        ensures
            iter@ == items_start(self@),
            iter@.offset == 0,
            iter@.struct_block == self@.struct_block,
            iter@.strings_block == self@.strings_block,
            iter@.wf(),
    {
        proof {
            use_type_invariant(self);
        }
        DtbStructIterator {
            struct_block: self.struct_block,
            strings_block: self.strings_block,
            offset: 0,
        }
    }
}

/// The start of the structure block.
pub open spec fn items_start(blocks: Blocks) -> Cursor {
    Cursor { struct_block: blocks.struct_block, strings_block: blocks.strings_block, offset: 0 }
}

} // verus!
