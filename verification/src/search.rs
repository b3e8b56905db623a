//! What a search for a path in a structure block comes to.

use crate::error::Error;
use crate::path::{split, trim};
use crate::struct_block::{lemma_step_progress, Cursor, Step};
use crate::struct_item::Item;
use vstd::prelude::*;

verus! {

/// What a search comes to.
pub ghost enum Search {
    /// The item that was searched for, and the place behind it.
    Found { item: Item, cursor: Cursor },
    /// No further item could be read before the search succeeded.
    Fail { error: Error },
    /// Before the search succeeded it met a property whose name starts beyond the strings block.
    NameOutOfRange,
}

/// The search for one part of a path, from a place at the given depth: for the next item of that
/// name at depth zero. The start of a node leads one level deeper, its end one level up.
pub open spec fn find_part(c: Cursor, part: Seq<char>, depth: int) -> Search
    decreases c.struct_block.len() - c.offset,
    when c.wf()
{
    match c.step() {
        Step::Item { item, offset } => {
            proof {
                lemma_step_progress(c);
            }
            if depth == 0 && item.is_named(part) {
                Search::Found { item, cursor: c.at(offset) }
            } else {
                find_part(c.at(offset), part, depth + item.depth_change())
            }
        },
        Step::Fail { error } => Search::Fail { error },
        Step::NameOutOfRange => Search::NameOutOfRange,
    }
}

/// The search for the parts of a path, each one behind the item found for the one before.
pub open spec fn find_parts(c: Cursor, parts: Seq<Seq<char>>) -> Search
    decreases parts.len(),
{
    match find_part(c, parts[0], 0) {
        Search::Found { item, cursor } if parts.len() > 1 => find_parts(
            cursor,
            parts.drop_first(),
        ),
        other => other,
    }
}

/// The search for a path. A separator at its end does not count.
pub open spec fn find(c: Cursor, path: Seq<char>) -> Search {
    find_parts(c, split(trim(path)))
}

} // verus!
