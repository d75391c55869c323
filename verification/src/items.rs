//! The collectible item kinds.

use vstd::prelude::*;

verus! {

/// The kinds of collectible debris an item can be.
#[derive(Debug, Clone, Copy, PartialEq, Eq, Structural)]
pub enum GarbageItem {
    Cube,
    Plank,
    LargePlank,
    Column,
    LargeColumn,
    Block,
    Cone,
    LargeBlock,
    Ball,
}

/// The item kind a layout character stands for, if any.
pub open spec fn item_of_char(c: char) -> Option<GarbageItem> {
    match c {
        'c' => Some(GarbageItem::Cube),
        'p' => Some(GarbageItem::Plank),
        'P' => Some(GarbageItem::LargePlank),
        '|' => Some(GarbageItem::Column),
        'I' => Some(GarbageItem::LargeColumn),
        'b' => Some(GarbageItem::Block),
        'B' => Some(GarbageItem::LargeBlock),
        '^' => Some(GarbageItem::Cone),
        'o' => Some(GarbageItem::Ball),
        _ => None,
    }
}

impl GarbageItem {
    /// Reads one layout character of a build file.
    pub fn from_char(c: char) -> (r: Option<GarbageItem>)
        ensures
            r == item_of_char(c),
    {
        match c {
            'c' => Some(GarbageItem::Cube),
            'p' => Some(GarbageItem::Plank),
            'P' => Some(GarbageItem::LargePlank),
            '|' => Some(GarbageItem::Column),
            'I' => Some(GarbageItem::LargeColumn),
            'b' => Some(GarbageItem::Block),
            'B' => Some(GarbageItem::LargeBlock),
            '^' => Some(GarbageItem::Cone),
            'o' => Some(GarbageItem::Ball),
            _ => None,
        }
    }
}

} // verus!
