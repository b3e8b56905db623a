//! Items of the structure block.

use vstd::prelude::*;

verus! {

/// An item of the structure block: the start of a node, a property, or the end of a node.
#[derive(Clone, Copy, Debug, PartialEq, Eq)]
pub enum StructItem<'a> {
    BeginNode { name: &'a str },
    Property { name: &'a str, value: &'a [u8] },
    EndNode,
}

/// What an item of the structure block stands for.
pub ghost enum Item {
    BeginNode { name: Seq<char> },
    Property { name: Seq<char>, value: Seq<u8> },
    EndNode,
}

impl Item {
    /// Whether this is a node or a property with the given name.
    pub open spec fn is_named(self, wanted: Seq<char>) -> bool {
        match self {
            Item::BeginNode { name } => name == wanted,
            Item::Property { name, value: _ } => name == wanted,
            Item::EndNode => false,
        }
    }

    /// By how much the nesting depth grows over this item.
    pub open spec fn depth_change(self) -> int {
        match self {
            Item::BeginNode { name: _ } => 1,
            Item::Property { name: _, value: _ } => 0,
            Item::EndNode => -1,
        }
    }
}

impl<'a> View for StructItem<'a> {
    type V = Item;

    open spec fn view(&self) -> Item {
        match self {
            StructItem::BeginNode { name } => Item::BeginNode { name: name@ },
            StructItem::Property { name, value } => Item::Property { name: name@, value: value@ },
            StructItem::EndNode => Item::EndNode,
        }
    }
}

impl<'a> StructItem<'a> {
    /// Whether this item starts a node.
    pub fn is_begin_node(&self) -> (yes: bool)
        ensures
            yes == (self@ is BeginNode),
    {
        match self {
            StructItem::BeginNode { .. } => true,
            _ => false,
        }
    }

    /// Whether this item is a property.
    pub fn is_property(&self) -> (yes: bool)
        ensures
            yes == (self@ is Property),
    {
        match self {
            StructItem::Property { .. } => true,
            _ => false,
        }
    }

    /// The name of a node or a property; the end of a node has none.
    pub fn name(&self) -> (found: Option<&'a str>)
        ensures
            match (self@, found) {
                (Item::BeginNode { name }, Some(s)) => s@ == name,
                (Item::Property { name, value: _ }, Some(s)) => s@ == name,
                (Item::EndNode, None) => true,
                _ => false,
            },
    {
        match self {
            StructItem::BeginNode { name } => Some(*name),
            StructItem::Property { name, .. } => Some(*name),
            StructItem::EndNode => None,
        }
    }

    /// The value of a property; other items have none.
    pub fn value(&self) -> (found: Option<&'a [u8]>)
        ensures
            match (self@, found) {
                (Item::Property { name: _, value }, Some(s)) => s@ == value,
                (Item::Property { name: _, value: _ }, None) => false,
                (_, found) => found is None,
            },
    {
        match self {
            StructItem::Property { value, .. } => Some(*value),
            _ => None,
        }
    }
}

} // verus!
