//! Assignment of a fixed inventory of hotel rooms to a crew of housekeepers.
//!
//! Each room carries an integer cleaning workload ("work units") fixed by its
//! category.  The planner derives one integer quota per housekeeper from the
//! crew's shift composition so that the quotas sum exactly to the total
//! workload; the allocator then partitions the room pool into one ordered
//! list per housekeeper with a layered greedy heuristic.

pub mod allocator;
pub mod errors;
pub mod housekeeper;
pub mod planner;
pub mod room;
pub mod seqs;
