//! The records of the tables.

use vstd::prelude::*;

verus! {

/// A process ending, before it is filed.
#[derive(Clone, Copy, Debug, PartialEq, Eq, Structural)]
pub struct NewFinishedProcess {
    pub process_id: i32,
    pub partition_number: i32,
}

/// A filed process ending: which process, and the sequence number of the
/// partition it left.
#[derive(Clone, Copy, Debug, PartialEq, Eq, Structural)]
pub struct FinishedProcess {
    pub id: i32,
    pub process_id: i32,
    pub partition_number: i32,
}

/// One slide of an occupied partition, before it is filed.
#[derive(Clone, Copy, Debug, PartialEq, Eq, Structural)]
pub struct NewCompactionLog {
    pub iteration: i32,
    pub partition: i32,
    pub previous_position: i32,
    pub final_position: i32,
}

/// A filed slide: the partition's sequence number, the offset it started at
/// and the offset it starts at now.
#[derive(Clone, Copy, Debug, PartialEq, Eq, Structural)]
pub struct CompactionLog {
    pub id: i32,
    pub iteration: i32,
    pub partition: i32,
    pub previous_position: i32,
    pub final_position: i32,
}

/// One partition absorbed by a merge, before it is filed.
#[derive(Clone, Copy, Debug, PartialEq, Eq, Structural)]
pub struct NewCondensationLog {
    pub partition: i32,
    pub partition_size: i32,
    pub new_partition: i32,
    pub new_partition_size: i32,
}

/// A filed absorption: the old partition's sequence number and size, and
/// those of the partition that replaced it.
#[derive(Clone, Copy, Debug, PartialEq, Eq, Structural)]
pub struct CondensationLog {
    pub id: i32,
    pub partition: i32,
    pub partition_size: i32,
    pub new_partition: i32,
    pub new_partition_size: i32,
}

/// A process as the process table holds it. `state` is the number of its
/// lifecycle state.
#[derive(Debug)]
pub struct Process {
    pub id: i32,
    pub name: String,
    pub time: i32,
    pub size: i32,
    pub state: i32,
}

/// A process before the table has given it an id.
#[derive(Clone, Copy, Debug)]
pub struct NewProcess<'a> {
    pub name: &'a str,
    pub time: i32,
    pub size: i32,
    pub state: i32,
}

/// A partition of the pool. `number` is its sequence number, `position` its
/// rank in the pool, and it covers the offsets from `position_start` up to
/// `position_end`.
#[derive(Clone, Copy, Debug, PartialEq, Eq, Structural)]
pub struct StoragePartition {
    pub id: i32,
    pub number: i32,
    pub position: i32,
    pub position_start: i32,
    pub position_end: i32,
    pub size: i32,
}

/// A partition before it has an id.
#[derive(Clone, Copy, Debug, PartialEq, Eq, Structural)]
pub struct NewStoragePartition {
    pub number: i32,
    pub position: i32,
    pub position_start: i32,
    pub position_end: i32,
    pub size: i32,
}

/// One tick of the simulation.
#[derive(Clone, Copy, Debug, PartialEq, Eq, Structural)]
pub struct IterationLog {
    pub id: i32,
}

/// A partition as one tick saw it, before it is filed.
#[derive(Clone, Copy, Debug, PartialEq, Eq, Structural)]
pub struct NewStoragePartitionLog {
    pub iteration: i32,
    pub storage_partition_id: i32,
    pub position: i32,
    pub size: i32,
}

/// A filed snapshot of a partition.
#[derive(Clone, Copy, Debug, PartialEq, Eq, Structural)]
pub struct StoragePartitionLog {
    pub id: i32,
    pub iteration: i32,
    pub storage_partition_id: i32,
    pub position: i32,
    pub size: i32,
}

/// A process as one tick left it, before it is filed. `storage_partition_id`
/// is -1 for a process that holds no partition.
#[derive(Clone, Copy, Debug, PartialEq, Eq, Structural)]
pub struct NewProcessLog {
    pub iteration: i32,
    pub process_id: i32,
    pub storage_partition_id: i32,
    pub time_remaining: i32,
    pub state: i32,
}

/// A filed snapshot of a process.
#[derive(Clone, Copy, Debug, PartialEq, Eq, Structural)]
pub struct ProcessLog {
    pub id: i32,
    pub iteration: i32,
    pub process_id: i32,
    pub storage_partition_id: i32,
    pub time_remaining: i32,
    pub state: i32,
}

/// The binding of a resident process to its partition.
#[derive(Clone, Copy, Debug, PartialEq, Eq, Structural)]
pub struct ProcessPartition {
    pub process_id: i32,
    pub storage_partition_id: i32,
}

/// A setting as it is written down: the number of its name and its value as
/// text.
#[derive(Debug)]
pub struct Configuration {
    pub setting_id: i32,
    pub setting_value: String,
}

impl Process {
    /// A copy of this record.
    pub fn duplicate(&self) -> (copy: Process)
        ensures
            copy == *self,
    {
        Process {
            id: self.id,
            name: self.name.clone(),
            time: self.time,
            size: self.size,
            state: self.state,
        }
    }
}

} // verus!
