//! The records that the simulation writes as it goes: the ticks, what the
//! partitions and the processes looked like at each tick, and which
//! processes have finished.

use crate::database::layout::{is_resident, layout, lemma_table_entry, Block};
use crate::database::models::{
    CompactionLog, CondensationLog, FinishedProcess, IterationLog, NewCompactionLog,
    NewCondensationLog, NewFinishedProcess, NewProcessLog, NewStoragePartitionLog, Process,
    StoragePartitionLog,
};
use crate::database::processes::{find_process, rank_of_process};
use crate::database::statements::select_last_iteration_log;
use crate::database::Database;
use vstd::prelude::*;

verus! {

/// Starts a new tick and returns it.
pub fn create_iteration_log(db: &mut Database) -> (log: IterationLog)
    requires
        old(db).iteration < i32::MAX,
    ensures
        log.id == old(db).iteration + 1,
        *final(db) == (Database { iteration: log.id, ..*old(db) }),
{
    db.iteration = db.iteration + 1;
    IterationLog { id: db.iteration }
}

/// Forgets all ticks.
pub fn delete_all_iteration_logs(db: &mut Database)
    ensures
        *final(db) == (Database { iteration: 0, ..*old(db) }),
{
    db.iteration = 0;
}

/// The snapshot of the block of rank `position` during the tick `iteration`.
pub open spec fn partition_snapshot(iteration: i32, position: int, block: Block)
    -> NewStoragePartitionLog {
    NewStoragePartitionLog {
        iteration,
        storage_partition_id: block.number as i32,
        position: position as i32,
        size: block.size as i32,
    }
}

/// The snapshots of all blocks of a pool during the tick `iteration`, lowest
/// rank first.
pub open spec fn partition_snapshots(iteration: i32, blocks: Seq<Block>) -> Seq<
    NewStoragePartitionLog,
> {
    Seq::new(blocks.len(), |k: int| partition_snapshot(iteration, k, blocks[k]))
}

/// Writes a snapshot of every partition, for the latest tick.
pub fn create_storage_partition_logs(db: &mut Database)
    requires
        old(db).wf(),
        old(db).iteration >= 1,
    ensures
        final(db).storage_partition_logs@ == old(db).storage_partition_logs@ + partition_snapshots(
            old(db).iteration,
            old(db).layout(),
        ),
        *final(db) == (Database {
            storage_partition_logs: final(db).storage_partition_logs,
            ..*old(db)
        }),
{
    let iteration_log = select_last_iteration_log(db);
    let ghost before = *db;
    let ghost snapshots = partition_snapshots(db.iteration, db.layout());
    let mut k: usize = 0;
    proof {
        assert(db.storage_partition_logs@ =~= before.storage_partition_logs@ + snapshots.take(0));
    }
    while k < db.storage_partitions.len()
        invariant
            k <= db.storage_partitions.len(),
            before.wf(),
            iteration_log.id == before.iteration,
            snapshots == partition_snapshots(before.iteration, before.layout()),
            db.storage_partition_logs@ == before.storage_partition_logs@ + snapshots.take(k as int),
            *db == (Database { storage_partition_logs: db.storage_partition_logs, ..before }),
        decreases db.storage_partitions.len() - k,
    {
        let partition = db.storage_partitions[k].0;
        db.storage_partition_logs.push(
            NewStoragePartitionLog {
                iteration: iteration_log.id,
                storage_partition_id: partition.id,
                position: partition.position,
                size: partition.size,
            },
        );
        proof {
            lemma_table_entry(db.storage_partitions@, db.next_number(), k as int);
            assert(snapshots.take(k + 1) =~= snapshots.take(k as int).push(snapshots[k as int]));
        }
        k = k + 1;
    }
    proof {
        assert(snapshots.take(k as int) =~= snapshots);
    }
}

/// The rank of the first block at or above rank `from` that the process with
/// the id `process_id` occupies, or the length of the pool where it occupies
/// none.
pub open spec fn holder(blocks: Seq<Block>, process_id: int, from: int) -> int
    decreases blocks.len() - from,
{
    if from < 0 || from >= blocks.len() {
        blocks.len() as int
    } else if blocks[from].process == Some(process_id) {
        from
    } else {
        holder(blocks, process_id, from + 1)
    }
}

/// The sequence number of the partition that the process with the id
/// `process_id` occupies, or -1 where it occupies none.
pub open spec fn partition_of(blocks: Seq<Block>, process_id: int) -> int {
    if holder(blocks, process_id, 0) < blocks.len() {
        blocks[holder(blocks, process_id, 0)].number
    } else {
        -1
    }
}

/// The holder of a process stands at or above the rank the search starts
/// from, the process occupies it, and it occupies no block between the two.
pub proof fn lemma_holder(blocks: Seq<Block>, process_id: int, from: int)
    requires
        0 <= from <= blocks.len(),
    ensures
        from <= holder(blocks, process_id, from) <= blocks.len(),
        holder(blocks, process_id, from) < blocks.len() ==> blocks[holder(
            blocks,
            process_id,
            from,
        )].process == Some(process_id),
        forall|k: int|
            from <= k < holder(blocks, process_id, from) ==> (#[trigger] blocks[k]).process != Some(
                process_id,
            ),
    decreases blocks.len() - from,
{
    if from < blocks.len() && blocks[from].process != Some(process_id) {
        lemma_holder(blocks, process_id, from + 1);
    }
}

/// The snapshot of a process during the tick `iteration`.
pub open spec fn process_snapshot(
    iteration: i32,
    process: crate::database::models::Process,
    blocks: Seq<Block>,
) -> NewProcessLog {
    NewProcessLog {
        iteration,
        process_id: process.id,
        storage_partition_id: partition_of(blocks, process.id as int) as i32,
        time_remaining: process.time,
        state: process.state,
    }
}

/// Writes a snapshot of the process with the id `process_id`, for the latest
/// tick: its state, the time it has left, and the partition it occupies.
pub fn create_process_log(db: &mut Database, process_id: i32)
    requires
        old(db).wf(),
        old(db).iteration >= 1,
        exists|k: int| 0 <= k < old(db).processes.len()
            && (#[trigger] old(db).processes[k]).id == process_id,
    ensures
        forall|k: int|
            0 <= k < old(db).processes.len() && (#[trigger] old(db).processes[k]).id == process_id
                ==> final(db).process_logs@ == old(db).process_logs@.push(
                process_snapshot(old(db).iteration, old(db).processes[k], old(db).layout()),
            ),
        *final(db) == (Database { process_logs: final(db).process_logs, ..*old(db) }),
{
    let iteration_id = select_last_iteration_log(db);
    let rank = crate::database::processes::find_process(db, process_id).unwrap();
    proof {
        crate::database::processes::lemma_ids_unique(db.processes@, rank as int);
        lemma_holder(db.layout(), process_id as int, 0);
    }
    let storage_partition_id = match crate::database::allocation::find_process_partition(
        db,
        process_id,
    ) {
        Some(held) => {
            proof {
                lemma_table_entry(db.storage_partitions@, db.next_number(), held as int);
                let first = holder(db.layout(), process_id as int, 0);
                assert(first <= held);
                assert(db.layout()[first].process == Some(process_id as int));
            }
            db.storage_partitions[held].0.id
        },
        None => -1,
    };
    let log = NewProcessLog {
        process_id,
        iteration: iteration_id.id,
        state: db.processes[rank].state,
        storage_partition_id,
        time_remaining: db.processes[rank].time,
    };
    db.process_logs.push(log);
}

/// Files the ending of the process with the id `process_id`, which left the
/// partition with the sequence number `partition_number`.
pub fn create_finished_process(db: &mut Database, process_id: i32, partition_number: i32)
    ensures
        final(db).finished_processes@ == old(db).finished_processes@.push(
            NewFinishedProcess { process_id, partition_number },
        ),
        *final(db) == (Database { finished_processes: final(db).finished_processes, ..*old(db) }),
{
    db.finished_processes.push(NewFinishedProcess { process_id, partition_number });
}

/// Forgets the snapshots of the processes.
pub fn delete_all_processes_logs(db: &mut Database)
    ensures
        final(db).process_logs@ == Seq::<NewProcessLog>::empty(),
        *final(db) == (Database { process_logs: final(db).process_logs, ..*old(db) }),
{
    db.process_logs.clear();
}

/// Forgets the snapshots of the partitions. Returns whether that succeeded,
/// which it always does.
pub fn delete_all_storage_partitions_logs(db: &mut Database) -> (done: bool)
    ensures
        done,
        final(db).storage_partition_logs@ == Seq::<NewStoragePartitionLog>::empty(),
        *final(db) == (Database {
            storage_partition_logs: final(db).storage_partition_logs,
            ..*old(db)
        }),
{
    db.storage_partition_logs.clear();
    true
}

/// Forgets the filed endings.
pub fn delete_all_finished_processes(db: &mut Database)
    ensures
        final(db).finished_processes@ == Seq::<NewFinishedProcess>::empty(),
        *final(db) == (Database { finished_processes: final(db).finished_processes, ..*old(db) }),
{
    db.finished_processes.clear();
}

/// Forgets the records of condensation.
pub fn delete_all_condensations_logs(db: &mut Database)
    ensures
        final(db).condensation_logs@ == Seq::<crate::database::models::NewCondensationLog>::empty(),
        *final(db) == (Database { condensation_logs: final(db).condensation_logs, ..*old(db) }),
{
    db.condensation_logs.clear();
}

/// Forgets the records of compaction.
pub fn delete_all_compactions_logs(db: &mut Database)
    ensures
        final(db).compaction_logs@ == Seq::<crate::database::models::NewCompactionLog>::empty(),
        *final(db) == (Database { compaction_logs: final(db).compaction_logs, ..*old(db) }),
{
    db.compaction_logs.clear();
}

/// The records of compaction as they are filed: numbered from 1 in the
/// order in which they were written.
pub open spec fn filed_compactions(logs: Seq<NewCompactionLog>) -> Seq<CompactionLog> {
    Seq::new(
        logs.len(),
        |k: int|
            CompactionLog {
                id: (k + 1) as i32,
                iteration: logs[k].iteration,
                partition: logs[k].partition,
                previous_position: logs[k].previous_position,
                final_position: logs[k].final_position,
            },
    )
}

/// The records of compaction, in the order in which they were written.
pub fn select_all_compaction_logs(db: &Database) -> (logs: Vec<CompactionLog>)
    requires
        db.compaction_logs.len() <= i32::MAX,
    ensures
        logs@ == filed_compactions(db.compaction_logs@),
{
    let mut logs: Vec<CompactionLog> = Vec::new();
    let mut k: usize = 0;
    while k < db.compaction_logs.len()
        invariant
            k <= db.compaction_logs.len() <= i32::MAX,
            logs@ == filed_compactions(db.compaction_logs@).take(k as int),
        decreases db.compaction_logs.len() - k,
    {
        let log = db.compaction_logs[k];
        logs.push(
            CompactionLog {
                id: (k + 1) as i32,
                iteration: log.iteration,
                partition: log.partition,
                previous_position: log.previous_position,
                final_position: log.final_position,
            },
        );
        assert(filed_compactions(db.compaction_logs@).take(k + 1) =~= filed_compactions(
            db.compaction_logs@,
        ).take(k as int).push(filed_compactions(db.compaction_logs@)[k as int]));
        k = k + 1;
    }
    assert(filed_compactions(db.compaction_logs@).take(k as int) =~= filed_compactions(
        db.compaction_logs@,
    ));
    logs
}

/// The records of condensation as they are filed: numbered from 1 in the
/// order in which they were written.
pub open spec fn filed_condensations(logs: Seq<NewCondensationLog>) -> Seq<CondensationLog> {
    Seq::new(
        logs.len(),
        |k: int|
            CondensationLog {
                id: (k + 1) as i32,
                partition: logs[k].partition,
                partition_size: logs[k].partition_size,
                new_partition: logs[k].new_partition,
                new_partition_size: logs[k].new_partition_size,
            },
    )
}

/// The records of condensation, in the order in which they were written.
pub fn select_all_condensation_logs(db: &Database) -> (logs: Vec<CondensationLog>)
    requires
        db.condensation_logs.len() <= i32::MAX,
    ensures
        logs@ == filed_condensations(db.condensation_logs@),
{
    let mut logs: Vec<CondensationLog> = Vec::new();
    let mut k: usize = 0;
    while k < db.condensation_logs.len()
        invariant
            k <= db.condensation_logs.len() <= i32::MAX,
            logs@ == filed_condensations(db.condensation_logs@).take(k as int),
        decreases db.condensation_logs.len() - k,
    {
        let log = db.condensation_logs[k];
        logs.push(
            CondensationLog {
                id: (k + 1) as i32,
                partition: log.partition,
                partition_size: log.partition_size,
                new_partition: log.new_partition,
                new_partition_size: log.new_partition_size,
            },
        );
        assert(filed_condensations(db.condensation_logs@).take(k + 1) =~= filed_condensations(
            db.condensation_logs@,
        ).take(k as int).push(filed_condensations(db.condensation_logs@)[k as int]));
        k = k + 1;
    }
    assert(filed_condensations(db.condensation_logs@).take(k as int) =~= filed_condensations(
        db.condensation_logs@,
    ));
    logs
}

/// The snapshots of partitions as they are filed: numbered from 1 in the
/// order in which they were written.
pub open spec fn filed_partition_snapshots(logs: Seq<NewStoragePartitionLog>) -> Seq<
    StoragePartitionLog,
> {
    Seq::new(
        logs.len(),
        |k: int|
            StoragePartitionLog {
                id: (k + 1) as i32,
                iteration: logs[k].iteration,
                storage_partition_id: logs[k].storage_partition_id,
                position: logs[k].position,
                size: logs[k].size,
            },
    )
}

/// The snapshots of partitions, in the order in which they were written.
pub fn select_all_storage_partition_logs(db: &Database) -> (logs: Vec<StoragePartitionLog>)
    requires
        db.storage_partition_logs.len() <= i32::MAX,
    ensures
        logs@ == filed_partition_snapshots(db.storage_partition_logs@),
{
    let mut logs: Vec<StoragePartitionLog> = Vec::new();
    let mut k: usize = 0;
    while k < db.storage_partition_logs.len()
        invariant
            k <= db.storage_partition_logs.len() <= i32::MAX,
            logs@ == filed_partition_snapshots(db.storage_partition_logs@).take(k as int),
        decreases db.storage_partition_logs.len() - k,
    {
        let log = db.storage_partition_logs[k];
        logs.push(
            StoragePartitionLog {
                id: (k + 1) as i32,
                iteration: log.iteration,
                storage_partition_id: log.storage_partition_id,
                position: log.position,
                size: log.size,
            },
        );
        assert(filed_partition_snapshots(db.storage_partition_logs@).take(k + 1)
            =~= filed_partition_snapshots(db.storage_partition_logs@).take(k as int).push(
            filed_partition_snapshots(db.storage_partition_logs@)[k as int],
        ));
        k = k + 1;
    }
    assert(filed_partition_snapshots(db.storage_partition_logs@).take(k as int)
        =~= filed_partition_snapshots(db.storage_partition_logs@));
    logs
}

/// The filed endings of the processes that the process table still holds,
/// each with its process, in the order in which they were filed. The endings
/// are numbered from 1, whether their process is still there or not.
pub open spec fn finished_with_processes(
    finished: Seq<NewFinishedProcess>,
    processes: Seq<Process>,
) -> Seq<(FinishedProcess, Process)>
    decreases finished.len(),
{
    if finished.len() == 0 {
        Seq::empty()
    } else {
        let front = finished_with_processes(finished.drop_last(), processes);
        let rank = rank_of_process(processes, finished.last().process_id, 0);
        if rank < processes.len() {
            front.push(
                (
                    FinishedProcess {
                        id: finished.len() as i32,
                        process_id: finished.last().process_id,
                        partition_number: finished.last().partition_number,
                    },
                    processes[rank],
                ),
            )
        } else {
            front
        }
    }
}

/// The filed endings, each with its process, in the order in which they were
/// filed. The ending of a process that the process table holds no more is
/// left out.
pub fn select_all_finished_processes(db: &Database) -> (finished: Vec<(FinishedProcess, Process)>)
    requires
        db.finished_processes.len() <= i32::MAX,
    ensures
        finished@ == finished_with_processes(db.finished_processes@, db.processes@),
{
    let mut finished: Vec<(FinishedProcess, Process)> = Vec::new();
    let mut k: usize = 0;
    proof {
        assert(db.finished_processes@.take(0) =~= Seq::<NewFinishedProcess>::empty());
    }
    while k < db.finished_processes.len()
        invariant
            k <= db.finished_processes.len() <= i32::MAX,
            finished@ == finished_with_processes(
                db.finished_processes@.take(k as int),
                db.processes@,
            ),
        decreases db.finished_processes.len() - k,
    {
        let record = db.finished_processes[k];
        proof {
            assert(db.finished_processes@.take(k + 1).drop_last() =~= db.finished_processes@.take(
                k as int,
            ));
            assert(db.finished_processes@.take(k + 1).last() == record);
        }
        match find_process(db, record.process_id) {
            Some(rank) => {
                finished.push(
                    (
                        FinishedProcess {
                            id: (k + 1) as i32,
                            process_id: record.process_id,
                            partition_number: record.partition_number,
                        },
                        db.processes[rank].duplicate(),
                    ),
                );
            },
            None => {},
        }
        k = k + 1;
    }
    proof {
        assert(db.finished_processes@.take(k as int) =~= db.finished_processes@);
    }
    finished
}

/// The snapshots of the processes that the process table still holds, each
/// as the name of the process, the number of its state, the id of its
/// partition or -1, and the time it had left, in the order in which they were
/// written.
pub open spec fn snapshots_with_names(logs: Seq<NewProcessLog>, processes: Seq<Process>) -> Seq<
    (Seq<char>, i32, i32, i32),
>
    decreases logs.len(),
{
    if logs.len() == 0 {
        Seq::empty()
    } else {
        let front = snapshots_with_names(logs.drop_last(), processes);
        let rank = rank_of_process(processes, logs.last().process_id, 0);
        if rank < processes.len() {
            front.push(
                (
                    processes[rank].name@,
                    logs.last().state,
                    logs.last().storage_partition_id,
                    logs.last().time_remaining,
                ),
            )
        } else {
            front
        }
    }
}

/// The snapshots of the processes, each as the name of the process, the
/// number of its state, the id of its partition or -1, and the time it had
/// left, in the order in which they were written. The snapshot of a process
/// that the process table holds no more is left out.
pub fn select_all_process_logs(db: &Database) -> (logs: Vec<(String, i32, i32, i32)>)
    ensures
        logs@.len() == snapshots_with_names(db.process_logs@, db.processes@).len(),
        forall|k: int|
            0 <= k < logs@.len() ==> ((#[trigger] logs@[k]).0@, logs@[k].1, logs@[k].2, logs@[k].3)
                == snapshots_with_names(db.process_logs@, db.processes@)[k],
{
    let mut logs: Vec<(String, i32, i32, i32)> = Vec::new();
    let mut k: usize = 0;
    proof {
        assert(db.process_logs@.take(0) =~= Seq::<NewProcessLog>::empty());
    }
    while k < db.process_logs.len()
        invariant
            k <= db.process_logs.len(),
            logs@.len() == snapshots_with_names(
                db.process_logs@.take(k as int),
                db.processes@,
            ).len(),
            forall|j: int|
                0 <= j < logs@.len()
                    ==> ((#[trigger] logs@[j]).0@, logs@[j].1, logs@[j].2, logs@[j].3)
                    == snapshots_with_names(db.process_logs@.take(k as int), db.processes@)[j],
        decreases db.process_logs.len() - k,
    {
        let log = db.process_logs[k];
        proof {
            assert(db.process_logs@.take(k + 1).drop_last() =~= db.process_logs@.take(k as int));
            assert(db.process_logs@.take(k + 1).last() == log);
        }
        match find_process(db, log.process_id) {
            Some(rank) => {
                logs.push(
                    (
                        db.processes[rank].name.clone(),
                        log.state,
                        log.storage_partition_id,
                        log.time_remaining,
                    ),
                );
            },
            None => {},
        }
        k = k + 1;
    }
    proof {
        assert(db.process_logs@.take(k as int) =~= db.process_logs@);
    }
    logs
}

} // verus!
