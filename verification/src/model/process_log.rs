//! What is noted of a process at a tick.

use vstd::prelude::*;

verus! {

/// A process as a tick left it: the process, the tick, the partition it was
/// in and how large that was, the time it had left, and the number of its
/// state.
#[derive(Clone, Copy, Debug, PartialEq, Eq, Structural)]
pub struct ProcessLog {
    pub process_id: i32,
    pub iteration_log_id: i32,
    pub storage_partition_id: i32,
    pub storage_partition_size: i32,
    pub time_remaining: i32,
    pub state: i32,
}

} // verus!
