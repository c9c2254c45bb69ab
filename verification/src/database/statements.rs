//! Queries on the pool and writers of the records of compaction and
//! condensation.

use crate::database::layout::Slot;
use crate::database::models::{NewCompactionLog, NewCondensationLog, StoragePartition, IterationLog};
use crate::database::Database;
use vstd::prelude::*;

verus! {

/// Writes the record of one absorbed partition.
pub fn create_condensation_log(
    db: &mut Database,
    partition: i32,
    partition_size: i32,
    new_partition: i32,
    new_partition_size: i32,
)
    ensures
        final(db).condensation_logs@ == old(db).condensation_logs@.push(
            NewCondensationLog { partition, partition_size, new_partition, new_partition_size },
        ),
        *final(db) == (Database { condensation_logs: final(db).condensation_logs, ..*old(db) }),
{
    db.condensation_logs.push(
        NewCondensationLog { partition, partition_size, new_partition, new_partition_size },
    );
}

/// The partition at rank `position`.
pub fn select_storage_partition_with_position(db: &Database, position: i32) -> (partition:
    StoragePartition)
    requires
        0 <= position < db.storage_partitions.len(),
    ensures
        partition == db.storage_partitions[position as int].0,
{
    db.storage_partitions[position as usize].0
}

/// The pool, lowest offset first: every partition with the id of the process
/// bound to it, if any.
pub fn select_all_storage_partitions_and_process_partitions(db: &Database) -> (slots: Vec<Slot>)
    ensures
        slots@ == db.storage_partitions@,
{
    let mut slots: Vec<Slot> = Vec::new();
    let mut k: usize = 0;
    while k < db.storage_partitions.len()
        invariant
            k <= db.storage_partitions.len(),
            slots@ == db.storage_partitions@.take(k as int),
        decreases db.storage_partitions.len() - k,
    {
        slots.push(db.storage_partitions[k]);
        assert(db.storage_partitions@.take(k + 1) =~= db.storage_partitions@.take(k as int).push(
            db.storage_partitions[k as int],
        ));
        k = k + 1;
    }
    assert(db.storage_partitions@.take(k as int) =~= db.storage_partitions@);
    slots
}

/// Writes the record of one slide: the partition with the sequence number
/// `partition` started at the offset `previous_position` and starts at
/// `final_position` now. The record belongs to the latest tick.
pub fn create_compaction_log(
    db: &mut Database,
    partition: i32,
    previous_position: i32,
    final_position: i32,
)
    requires
        old(db).iteration >= 1,
    ensures
        final(db).compaction_logs@ == old(db).compaction_logs@.push(
            NewCompactionLog {
                iteration: old(db).iteration,
                partition,
                previous_position,
                final_position,
            },
        ),
        *final(db) == (Database { compaction_logs: final(db).compaction_logs, ..*old(db) }),
{
    let iteration = select_last_iteration_log(db).id;
    db.compaction_logs.push(
        NewCompactionLog { iteration, partition, previous_position, final_position },
    );
}

/// The partition of the highest rank.
pub fn select_last_storage_partition(db: &Database) -> (partition: StoragePartition)
    requires
        db.storage_partitions.len() > 0,
    ensures
        partition == db.storage_partitions@.last().0,
{
    db.storage_partitions[db.storage_partitions.len() - 1].0
}

/// The latest tick.
pub fn select_last_iteration_log(db: &Database) -> (log: IterationLog)
    requires
        db.iteration >= 1,
    ensures
        log.id == db.iteration,
{
    IterationLog { id: db.iteration }
}

} // verus!
