//! Laws of searching: which item a path leads to, and how one search relates to another.

use crate::laws::lemma_split_join;
use crate::path::{first_separator, lemma_first_separator, split, trim};
use crate::search::{find, find_part, find_parts, Search};
use crate::struct_block::{advance, depth_after, lemma_step_progress, Cursor, Step};
use crate::struct_item::Item;
use vstd::prelude::*;

verus! {

/// A search for a part of a path ends at the first node or property that has exactly that name and
/// stands at depth zero. From anything else it goes on behind it: one level deeper behind the
/// start of a node, one level up behind the end of one. Where nothing can be read it ends.
pub proof fn law_search_goes_on_behind_other_items(c: Cursor, part: Seq<char>, depth: int)
    requires
        c.wf(),
    ensures
        match c.step() {
            Step::Item { item: Item::BeginNode { name }, offset } => if depth == 0 && name == part {
                find_part(c, part, depth) == (Search::Found {
                    item: Item::BeginNode { name: part },
                    cursor: c.at(offset),
                })
            } else {
                find_part(c, part, depth) == find_part(c.at(offset), part, depth + 1)
            },
            Step::Item { item: Item::Property { name, value }, offset } => if depth == 0 && name
                == part {
                find_part(c, part, depth) == (Search::Found {
                    item: Item::Property { name: part, value },
                    cursor: c.at(offset),
                })
            } else {
                find_part(c, part, depth) == find_part(c.at(offset), part, depth)
            },
            Step::Item { item: Item::EndNode, offset } => find_part(c, part, depth) == find_part(
                c.at(offset),
                part,
                depth - 1,
            ),
            Step::Fail { error } => find_part(c, part, depth) == (Search::Fail { error }),
            Step::NameOutOfRange => find_part(c, part, depth) is NameOutOfRange,
        },
{
    lemma_step_progress(c);
}

/// What is found for a part of a path has exactly that name, and stands at depth zero. No item
/// that was passed over at depth zero has that name.
pub proof fn law_found_item_is_first_of_its_name(c: Cursor, part: Seq<char>)
    requires
        c.wf(),
    ensures
        find_part(c, part, 0) matches Search::Found { item, cursor } ==> {
            &&& item == (Item::BeginNode { name: part }) || (item matches Item::Property { name,
                value } && name == part)
            &&& exists|n: nat|
                {
                    &&& #[trigger] advance(c, n) matches Some(before)
                    &&& before.step() == (Step::Item { item, offset: cursor.offset })
                    &&& cursor == before.at(cursor.offset)
                    &&& depth_after(c, n) == 0
                    &&& forall|m: nat|
                        m < n && depth_after(c, m) == 0 ==> {
                            &&& #[trigger] advance(c, m) matches Some(passed)
                            &&& passed.step() matches Step::Item { item: other, offset }
                            &&& other != (Item::BeginNode { name: part })
                            &&& other matches Item::Property { name, value } ==> name != part
                        }
                }
        },
{
    lemma_found_named(c, part, 0);
    lemma_found_first(c, part, 0);
}

/// What is found has exactly the name of the part.
proof fn lemma_found_named(c: Cursor, part: Seq<char>, depth: int)
    requires
        c.wf(),
    ensures
        find_part(c, part, depth) matches Search::Found { item, cursor } ==> item == (
        Item::BeginNode { name: part }) || (item matches Item::Property { name, value } && name
            == part),
    decreases c.struct_block.len() - c.offset,
{
    lemma_step_progress(c);
    law_search_goes_on_behind_other_items(c, part, depth);
    if let Step::Item { item, offset } = c.step() {
        let next = c.at(offset);
        match item {
            Item::BeginNode { .. } => lemma_found_named(next, part, depth + 1),
            Item::Property { .. } => lemma_found_named(next, part, depth),
            Item::EndNode => lemma_found_named(next, part, depth - 1),
        }
    }
}

/// What is found is the first match, where the search starts at the given depth.
proof fn lemma_found_first(c: Cursor, part: Seq<char>, depth: int)
    requires
        c.wf(),
    ensures
        find_part(c, part, depth) matches Search::Found { item, cursor } ==> exists|n: nat|
            {
                &&& #[trigger] advance(c, n) matches Some(before)
                &&& before.step() == (Step::Item { item, offset: cursor.offset })
                &&& cursor == before.at(cursor.offset)
                &&& depth + depth_after(c, n) == 0
                &&& forall|m: nat|
                    m < n && depth + depth_after(c, m) == 0 ==> {
                        &&& #[trigger] advance(c, m) matches Some(passed)
                        &&& passed.step() matches Step::Item { item: other, offset }
                        &&& other != (Item::BeginNode { name: part })
                        &&& other matches Item::Property { name, value } ==> name != part
                    }
            },
    decreases c.struct_block.len() - c.offset,
{
    lemma_step_progress(c);
    law_search_goes_on_behind_other_items(c, part, depth);
    if let Search::Found { item, cursor } = find_part(c, part, depth) {
        let step = c.step();
        assert(step is Item);
        let first = step->item;
        let next = c.at(step->Item_offset);
        let change = first.depth_change();
        assert(advance(c, 0) == Some(c));
        assert(depth_after(c, 0) == 0);
        let here = depth == 0 && (first == (Item::BeginNode { name: part })
            || (first matches Item::Property { name, value } && name == part));
        if here {
            assert(cursor == c.at(cursor.offset));
        } else {
            lemma_found_first(next, part, depth + change);
            let k = choose|n: nat|
                {
                    &&& #[trigger] advance(next, n) matches Some(before)
                    &&& before.step() == (Step::Item { item, offset: cursor.offset })
                    &&& cursor == before.at(cursor.offset)
                    &&& depth + change + depth_after(next, n) == 0
                    &&& forall|m: nat|
                        m < n && depth + change + depth_after(next, m) == 0 ==> {
                            &&& #[trigger] advance(next, m) matches Some(passed)
                            &&& passed.step() matches Step::Item { item: other, offset }
                            &&& other != (Item::BeginNode { name: part })
                            &&& other matches Item::Property { name, value } ==> name != part
                        }
                };
            assert(advance(c, k + 1) == advance(next, k));
            assert(depth_after(c, k + 1) == change + depth_after(next, k));
            assert forall|m: nat| m < k + 1 && depth + depth_after(c, m) == 0 implies {
                &&& #[trigger] advance(c, m) matches Some(passed)
                &&& passed.step() matches Step::Item { item: other, offset }
                &&& other != (Item::BeginNode { name: part })
                &&& other matches Item::Property { name, value } ==> name != part
            } by {
                if m > 0 {
                    let l = (m - 1) as nat;
                    assert(advance(c, m) == advance(next, l));
                    assert(depth_after(c, m) == change + depth_after(next, l));
                }
            }
        }
    }
}

/// A path without a separator has one part, itself.
proof fn lemma_split_one(path: Seq<char>)
    requires
        !path.contains('/'),
    ensures
        split(path) == seq![path],
        trim(path) == path,
{
    lemma_first_separator(path);
    if first_separator(path) < path.len() {
        assert(path.contains(path[first_separator(path)]));
    }
    if path.len() > 0 {
        assert(path.contains(path.last()));
    }
}

/// A path without a separator is searched for as one part, and so is a path whose only separator
/// is at its end.
pub proof fn law_single_part_is_searched_for(c: Cursor, part: Seq<char>)
    requires
        !part.contains('/'),
    ensures
        find(c, part) == find_part(c, part, 0),
        find(c, part + seq!['/']) == find_part(c, part, 0),
{
    lemma_split_one(part);
    assert((part + seq!['/']).drop_last() =~= part);
    assert((part + seq!['/']).last() == '/');
    assert(find_parts(c, seq![part]) == find_part(c, part, 0));
}

/// A path with a separator is searched for by its first part, and then, behind what is found for
/// that, by the rest of it.
pub proof fn law_path_is_searched_for_part_by_part(c: Cursor, first: Seq<char>, rest: Seq<char>)
    requires
        !first.contains('/'),
        rest.len() > 0,
    ensures
        find(c, first + seq!['/'] + rest) == match find_part(c, first, 0) {
            Search::Found { item, cursor } => find(cursor, rest),
            other => other,
        },
{
    let path = first + seq!['/'] + rest;
    assert(trim(path) =~= first + seq!['/'] + trim(rest));
    lemma_split_one(first);
    lemma_split_join(first, trim(rest));
    let parts = split(trim(rest));
    assert((seq![first] + parts).drop_first() =~= parts);
    assert((seq![first] + parts)[0] == first);
}

/// What is found for a path is a node or a property whose name is, character by character, what
/// stands behind the last separator of the path. A further separator at the end does not count.
pub proof fn law_found_item_has_the_last_name(c: Cursor, front: Seq<char>, name: Seq<char>)
    requires
        c.wf(),
        !name.contains('/'),
        front.len() == 0 || front.last() == '/' && name.len() > 0,
    ensures
        find(c, front + name) matches Search::Found { item, cursor } ==> item == (Item::BeginNode {
            name,
        }) || (item matches Item::Property { name: found, value } && found == name),
        find(c, front + name + seq!['/']) matches Search::Found { item, cursor } ==> item == (
        Item::BeginNode { name }) || (item matches Item::Property { name: found, value } && found
            == name),
{
    let path = front + name;
    let longer = path + seq!['/'];
    lemma_split_one(name);
    if front.len() == 0 {
        assert(path =~= name);
    } else {
        let outer = front.drop_last();
        assert(path =~= outer + seq!['/'] + name);
        lemma_split_join(outer, name);
        assert(path.last() == name.last());
        assert(name.contains(name.last()));
    }
    assert(trim(path) == path);
    assert(split(path).len() > 0 && split(path).last() == name);
    assert(longer.drop_last() =~= path);
    assert(longer.last() == '/');
    lemma_found_last(c, split(path));
}

/// What is found for a list of parts has exactly the name of the last of them.
proof fn lemma_found_last(c: Cursor, parts: Seq<Seq<char>>)
    requires
        c.wf(),
        parts.len() > 0,
    ensures
        find_parts(c, parts) matches Search::Found { item, cursor } ==> item == (Item::BeginNode {
            name: parts.last(),
        }) || (item matches Item::Property { name, value } && name == parts.last()),
    decreases parts.len(),
{
    lemma_found_named(c, parts[0], 0);
    if parts.len() > 1 {
        if let Search::Found { item, cursor } = find_part(c, parts[0], 0) {
            lemma_found_place(c, parts[0], 0);
            lemma_found_last(cursor, parts.drop_first());
        }
    }
}

/// What is found lies at a well-formed place.
proof fn lemma_found_place(c: Cursor, part: Seq<char>, depth: int)
    requires
        c.wf(),
    ensures
        find_part(c, part, depth) matches Search::Found { item, cursor } ==> cursor.wf(),
    decreases c.struct_block.len() - c.offset,
{
    lemma_step_progress(c);
    if let Step::Item { item, offset } = c.step() {
        lemma_found_place(c.at(offset), part, depth + item.depth_change());
    }
}

} // verus!
