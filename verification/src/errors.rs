//! Faults that planning and allocation can signal.

use vstd::prelude::*;

verus! {

/// Faults of the planner and the allocator.
///
/// `RoomNotFound` marks a divergence between the category bookkeeping and the
/// actual pool contents; `InvalidCrewComposition` an empty crew, whose quota
/// divider would be zero; `StalledAllocation` a full rule pass without
/// progress while work remains; `QuotaUnderflow` a subtraction that would
/// drive a quota or the bed pool below zero.
#[derive(Debug, Clone, Copy, PartialEq, Eq, Structural)]
pub enum AllocationError {
    RoomNotFound,
    InvalidCrewComposition,
    StalledAllocation,
    QuotaUnderflow,
}

} // verus!
