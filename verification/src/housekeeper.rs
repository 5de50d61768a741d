//! Housekeepers and their shifts.

use vstd::prelude::*;

verus! {

/// A housekeeper's shift; full-time housekeepers are expected to carry 1.6
/// times a part-time housekeeper's share of the workload.
#[derive(Debug, Clone, Copy, PartialEq, Eq, Structural)]
pub enum Shift {
    FullTime,
    PartTime,
}

/// A member of the crew.  The crew is an ordered list; by convention the
/// part-time entries stand at the front, and the last position carries the
/// highest assignment priority.  The preferred floor is a single character
/// matched against a room identifier's leading digit.
pub struct Housekeeper {
    pub shift: Shift,
    pub name: String,
    pub preferred_floor: char,
}

impl Housekeeper {
    pub fn new(shift: Shift, name: String, preferred_floor: char) -> (r: Housekeeper)
        ensures
            r.shift == shift,
            r.name == name,
            r.preferred_floor == preferred_floor,
    {
        Housekeeper { shift, name, preferred_floor }
    }
}

} // verus!
