//! The structure block as a sequence of items: what stands at each offset, and which items
//! follow one another.

use crate::dtb_format::{
    be_u32, DTB_BEGIN_NODE, DTB_END, DTB_END_NODE, DTB_NOP, DTB_PROPERTY, DTB_PROPERTY_DESC_SIZE,
    DTB_TOKEN_SIZE,
};
use crate::error::Error;
use crate::struct_item::Item;
use crate::utf8::utf8_error;
use vstd::prelude::*;
use vstd::utf8::{decode_utf8, valid_utf8};

verus! {

/// A place in a structure block, with the strings block that its property names refer to.
#[verifier::ext_equal]
pub ghost struct Cursor {
    pub struct_block: Seq<u8>,
    pub strings_block: Seq<u8>,
    pub offset: int,
}

/// What reading one item from a place in the structure block comes to.
pub ghost enum Step {
    /// There is an item, and the next one starts no earlier than `offset`.
    Item { item: Item, offset: int },
    /// There is no item, for the given reason.
    Fail { error: Error },
    /// There is a property whose name starts beyond the strings block.
    NameOutOfRange,
}

/// `offset` rounded up to a multiple of the token size.
pub open spec fn align_up(offset: int) -> int {
    (offset + 3) / 4 * 4
}

/// The place of the first zero byte at or after `from`, or the end of `bytes` if there is none.
pub open spec fn first_nul(bytes: Seq<u8>, from: int) -> int
    decreases bytes.len() - from,
{
    if from >= bytes.len() {
        bytes.len() as int
    } else if bytes[from] == 0 {
        from
    } else {
        first_nul(bytes, from + 1)
    }
}

/// The bytes from `from` up to the first zero byte.
pub open spec fn c_str(bytes: Seq<u8>, from: int) -> Seq<u8> {
    bytes.subrange(from, first_nul(bytes, from))
}

/// Whether a whole token fits at `at`.
pub open spec fn token_fits(block: Seq<u8>, at: int) -> bool {
    at + DTB_TOKEN_SIZE <= block.len()
}

/// The first offset at or after `at` that does not hold a no-operation token.
pub open spec fn skip_nops(block: Seq<u8>, at: int) -> int
    decreases block.len() - at,
{
    if token_fits(block, at) && be_u32(block, at) == DTB_NOP {
        skip_nops(block, at + DTB_TOKEN_SIZE)
    } else {
        at
    }
}

impl Cursor {
    /// The same blocks, at another offset.
    pub open spec fn at(self, offset: int) -> Cursor {
        Cursor { offset, ..self }
    }

    /// The offset is a token boundary of the structure block, whose size is a multiple of the
    /// token size and fits the 32 bits it has in a header.
    pub open spec fn wf(self) -> bool {
        &&& 0 <= self.offset <= self.struct_block.len()
        &&& self.offset % 4 == 0
        &&& self.struct_block.len() % 4 == 0
        &&& self.struct_block.len() <= u32::MAX
    }

    /// The start of a node whose token is at the cursor: a zero-terminated name follows.
    pub open spec fn begin_node(self) -> Step {
        let start = self.offset + DTB_TOKEN_SIZE;
        let name = c_str(self.struct_block, start);
        let end = first_nul(self.struct_block, start);
        if end == self.struct_block.len() {
            Step::Fail { error: Error::BadNodeName }
        } else if !valid_utf8(name) {
            Step::Fail { error: Error::BadStrEncoding(utf8_error(name)) }
        } else {
            Step::Item {
                item: Item::BeginNode { name: decode_utf8(name) },
                offset: align_up(end + 1),
            }
        }
    }

    /// Where the value of a property starts whose token is at the cursor.
    pub open spec fn value_start(self) -> int {
        self.offset + DTB_TOKEN_SIZE + DTB_PROPERTY_DESC_SIZE
    }

    /// The size of the value of a property whose token is at the cursor.
    pub open spec fn value_size(self) -> int {
        be_u32(self.struct_block, self.offset + DTB_TOKEN_SIZE) as int
    }

    /// Where in the strings block the name of a property starts whose token is at the cursor.
    pub open spec fn name_offset(self) -> int {
        be_u32(self.struct_block, self.offset + DTB_TOKEN_SIZE + 4) as int
    }

    /// Whether the description and the value of a property whose token is at the cursor lie
    /// within the structure block.
    pub open spec fn property_fits(self) -> bool {
        &&& self.value_start() <= self.struct_block.len()
        &&& self.value_start() + self.value_size() <= self.struct_block.len()
    }

    /// A property whose token is at the cursor: the size of its value, the offset of its name
    /// and the value follow; the name is in the strings block.
    pub open spec fn property(self) -> Step {
        let name = c_str(self.strings_block, self.name_offset());
        let value_end = self.value_start() + self.value_size();
        if !self.property_fits() {
            Step::Fail { error: Error::UnexpectedEndOfStruct }
        } else if self.name_offset() > self.strings_block.len() {
            Step::NameOutOfRange
        } else if first_nul(self.strings_block, self.name_offset()) == self.strings_block.len() {
            Step::Fail { error: Error::BadPropertyName }
        } else if !valid_utf8(name) {
            Step::Fail { error: Error::BadStrEncoding(utf8_error(name)) }
        } else {
            Step::Item {
                item: Item::Property {
                    name: decode_utf8(name),
                    value: self.struct_block.subrange(self.value_start(), value_end),
                },
                offset: align_up(value_end),
            }
        }
    }

    /// What the token at the cursor introduces.
    pub open spec fn token(self) -> Step {
        if !token_fits(self.struct_block, self.offset) {
            Step::Fail { error: Error::UnexpectedEndOfStruct }
        } else {
            let token = be_u32(self.struct_block, self.offset);
            if token == DTB_BEGIN_NODE {
                self.begin_node()
            } else if token == DTB_PROPERTY {
                self.property()
            } else if token == DTB_END_NODE {
                Step::Item { item: Item::EndNode, offset: self.offset + DTB_TOKEN_SIZE }
            } else if token == DTB_END {
                Step::Fail { error: Error::NoMoreStructItems }
            } else {
                Step::Fail { error: Error::BadStructToken }
            }
        }
    }

    /// The cursor behind all no-operation tokens at its place.
    pub open spec fn past_nops(self) -> Cursor {
        self.at(skip_nops(self.struct_block, self.offset))
    }

    /// What reading the next item comes to.
    pub open spec fn step(self) -> Step {
        self.past_nops().token()
    }
}

/// The cursor behind the first `count` items, if there are as many.
pub open spec fn advance(c: Cursor, count: nat) -> Option<Cursor>
    decreases count,
{
    if count == 0 {
        Some(c)
    } else {
        match c.step() {
            Step::Item { item, offset } => advance(c.at(offset), (count - 1) as nat),
            _ => None,
        }
    }
}

/// How many more nodes the first `count` items begin than they end.
pub open spec fn depth_after(c: Cursor, count: nat) -> int
    decreases count,
{
    if count == 0 {
        0
    } else {
        match c.step() {
            Step::Item { item, offset } => item.depth_change() + depth_after(
                c.at(offset),
                (count - 1) as nat,
            ),
            _ => 0,
        }
    }
}

/// The first zero byte is not before `from`, is zero if it is not the end, and no byte before
/// it is zero.
pub proof fn lemma_first_nul(bytes: Seq<u8>, from: int)
    requires
        0 <= from <= bytes.len(),
    ensures
        from <= first_nul(bytes, from) <= bytes.len(),
        first_nul(bytes, from) < bytes.len() ==> bytes[first_nul(bytes, from)] == 0,
        forall|i: int| from <= i < first_nul(bytes, from) ==> bytes[i] != 0,
    decreases bytes.len() - from,
{
    if from < bytes.len() && bytes[from] != 0 {
        lemma_first_nul(bytes, from + 1);
    }
}

/// Skipping no-operation tokens goes from token boundary to token boundary, and ends at
/// something else.
pub proof fn lemma_skip_nops(block: Seq<u8>, at: int)
    requires
        0 <= at <= block.len(),
        at % 4 == 0,
    ensures
        at <= skip_nops(block, at) <= block.len(),
        skip_nops(block, at) % 4 == 0,
        skip_nops(block, skip_nops(block, at)) == skip_nops(block, at),
    decreases block.len() - at,
{
    if token_fits(block, at) && be_u32(block, at) == DTB_NOP {
        lemma_skip_nops(block, at + DTB_TOKEN_SIZE);
    }
}

/// Rounding up goes to the next token boundary, and not past a later one.
pub proof fn lemma_align_up(offset: int, bound: int)
    requires
        0 <= offset <= bound,
        bound % 4 == 0,
    ensures
        offset <= align_up(offset) <= bound,
        align_up(offset) % 4 == 0,
{
}

/// The item that a token introduces ends at a later token boundary.
proof fn lemma_token_progress(c: Cursor)
    requires
        c.wf(),
    ensures
        c.token() matches Step::Item { item, offset } ==> {
            &&& c.offset + DTB_TOKEN_SIZE <= offset <= c.struct_block.len()
            &&& offset % 4 == 0
        },
{
    if token_fits(c.struct_block, c.offset) {
        let token = be_u32(c.struct_block, c.offset);
        if token == DTB_BEGIN_NODE {
            let start = c.offset + DTB_TOKEN_SIZE;
            let end = first_nul(c.struct_block, start);
            lemma_first_nul(c.struct_block, start);
            if end < c.struct_block.len() {
                lemma_align_up(end + 1, c.struct_block.len() as int);
            }
        } else if token == DTB_PROPERTY {
            if c.property_fits() {
                lemma_align_up(c.value_start() + c.value_size(), c.struct_block.len() as int);
            }
        }
    }
}

/// Reading an item moves a well-formed cursor forward, by at least a token, to a token boundary.
pub proof fn lemma_step_progress(c: Cursor)
    requires
        c.wf(),
    ensures
        c.past_nops().wf(),
        c.offset <= c.past_nops().offset,
        c.step() matches Step::Item { item, offset } ==> c.at(offset).wf() && c.offset
            + DTB_TOKEN_SIZE <= offset,
{
    lemma_skip_nops(c.struct_block, c.offset);
    lemma_token_progress(c.past_nops());
}

} // verus!
