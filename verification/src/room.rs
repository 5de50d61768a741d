//! Rooms and room categories, with their fixed work-unit costs.

use vstd::prelude::*;

verus! {

/// A room category.  Each category has a fixed work-unit cost and a fixed
/// ordinal index used for array-based quantity tracking.
#[derive(Debug, Clone, Copy, PartialEq, Eq, Structural)]
pub enum RoomType {
    Single,
    Double,
    Triple,
    Quad,
}

/// A room of the inventory.  The identifier encodes the floor as its leading
/// decimal digit.
#[derive(Debug, Clone, Copy, PartialEq, Eq, Structural)]
pub struct Room {
    pub id: u16,
    pub room_type: RoomType,
}

/// Work-unit cost of a category: Single = 1, Double = 2, Triple = 3, Quad = 4.
pub open spec fn spec_work_units(t: RoomType) -> int {
    match t {
        RoomType::Single => 1,
        RoomType::Double => 2,
        RoomType::Triple => 3,
        RoomType::Quad => 4,
    }
}

/// Ordinal index of a category: Single = 0, Double = 1, Triple = 2, Quad = 3.
pub open spec fn spec_type_index(t: RoomType) -> int {
    match t {
        RoomType::Single => 0,
        RoomType::Double => 1,
        RoomType::Triple => 2,
        RoomType::Quad => 3,
    }
}

/// Category at an ordinal index, if the index is in range.
pub open spec fn spec_type_of_index(index: int) -> Option<RoomType> {
    if index == 0 {
        Some(RoomType::Single)
    } else if index == 1 {
        Some(RoomType::Double)
    } else if index == 2 {
        Some(RoomType::Triple)
    } else if index == 3 {
        Some(RoomType::Quad)
    } else {
        None
    }
}

impl Room {
    pub fn new(id: u16, room_type: RoomType) -> (r: Room)
        ensures
            r.id == id,
            r.room_type == room_type,
    {
        Room { id, room_type }
    }
}

impl RoomType {
    /// Work-unit cost of this category.
    pub fn get_work_units(&self) -> (r: u8)
        ensures
            r == spec_work_units(*self),
    {
        match self {
            RoomType::Single => 1,
            RoomType::Double => 2,
            RoomType::Triple => 3,
            RoomType::Quad => 4,
        }
    }

    /// Category at an ordinal index; `None` signals an invalid index.
    pub fn get_value(index: usize) -> (r: Option<RoomType>)
        ensures
            r == spec_type_of_index(index as int),
    {
        match index {
            0 => Some(RoomType::Single),
            1 => Some(RoomType::Double),
            2 => Some(RoomType::Triple),
            3 => Some(RoomType::Quad),
            _ => None,
        }
    }

    /// Ordinal index of this category.
    pub fn get_index(&self) -> (r: usize)
        ensures
            r == spec_type_index(*self),
    {
        match self {
            RoomType::Single => 0,
            RoomType::Double => 1,
            RoomType::Triple => 2,
            RoomType::Quad => 3,
        }
    }
}

/// The index and value mappings of the categories are mutual inverses.
pub proof fn lemma_type_index_roundtrip(t: RoomType, index: int)
    ensures
        spec_type_of_index(spec_type_index(t)) == Some(t),
        0 <= index <= 3 ==> spec_type_index(spec_type_of_index(index)->Some_0) == index,
{
}

} // verus!
