//! The advance phase of a tick: every process that occupies a partition makes
//! one transition of its lifecycle.

use crate::database::allocation::{
    delete_process_partition_with_process_id, find_process_partition,
    select_storage_partition_with_process_id,
};
use crate::database::layout::{is_resident, lemma_table_entry};
use crate::database::logs::{
    create_finished_process, create_process_log, holder, lemma_holder, process_snapshot,
};
use crate::database::models::{NewFinishedProcess, Process};
use crate::database::processes::{lemma_ids_unique, update_process_with_id};
use crate::database::{Database, Tables};
use crate::model::process::create_process_from_model;
use crate::model::state::{finishes, state_after, state_number, state_of_number, time_after};
use vstd::prelude::*;

verus! {

/// The record of a process after one transition of its lifecycle.
pub open spec fn advanced(process: Process) -> Process {
    Process {
        id: process.id,
        name: process.name,
        time: time_after(state_of_number(process.state), process.time),
        size: process.size,
        state: state_number(state_after(state_of_number(process.state), process.time)),
    }
}

/// The transition that the process is about to make ends it.
pub open spec fn ends(process: Process) -> bool {
    finishes(state_of_number(process.state), process.time)
}

/// The tables after the process at rank `rank` of the process table has had
/// its turn. A process that occupies no partition is passed over. Any other
/// makes one transition, and a snapshot of it is written. If the transition
/// ends the process, its ending is filed before, with the sequence number of
/// its partition, and the partition is released.
pub open spec fn advance_one(tables: Tables, rank: int) -> Tables {
    let process = tables.processes[rank];
    let held = holder(tables.pool, process.id as int, 0);
    if !is_resident(tables.pool, process.id as int) {
        tables
    } else if ends(process) {
        let pool = tables.pool.update(held, tables.pool[held].released());
        Tables {
            processes: tables.processes.update(rank, advanced(process)),
            pool,
            finished_processes: tables.finished_processes.push(
                NewFinishedProcess {
                    process_id: process.id,
                    partition_number: tables.pool[held].number as i32,
                },
            ),
            process_logs: tables.process_logs.push(
                process_snapshot(tables.iteration, advanced(process), pool),
            ),
            ..tables
        }
    } else {
        Tables {
            processes: tables.processes.update(rank, advanced(process)),
            process_logs: tables.process_logs.push(
                process_snapshot(tables.iteration, advanced(process), tables.pool),
            ),
            ..tables
        }
    }
}

/// The tables after the first `count` processes of the process table have
/// had their turn, in the order of the table.
pub open spec fn advance_all(tables: Tables, count: int) -> Tables
    decreases count,
{
    if count <= 0 {
        tables
    } else {
        advance_one(advance_all(tables, count - 1), count - 1)
    }
}

/// Gives the process at rank `rank` of the process table its turn.
pub fn advance_process(db: &mut Database, rank: usize)
    requires
        old(db).wf(),
        old(db).iteration >= 1,
        rank < old(db).processes.len(),
    ensures
        final(db).wf(),
        final(db)@ == advance_one(old(db)@, rank as int),
{
    let id = db.processes[rank].id;
    proof {
        lemma_ids_unique(db.processes@, rank as int);
        lemma_holder(db.layout(), id as int, 0);
    }
    let held = match find_process_partition(db, id) {
        Some(held) => held,
        None => {
            return ;
        },
    };
    let mut process = create_process_from_model(&db.processes[rank]);
    let finishing = process.is_finishing();
    process.process();
    if finishing {
        // File the ending of the process with the partition it was in.
        let partition = select_storage_partition_with_process_id(db, id).0;
        proof {
            lemma_table_entry(db.storage_partitions@, db.next_number(), held as int);
            let first = holder(db.layout(), id as int, 0);
            assert(db.layout()[first].process == Some(id as int));
            assert(first == held);
            assert(db.storage_partitions[held as int].0 == partition) by {
                let k = choose|k: int|
                    0 <= k < db.storage_partitions.len() && (#[trigger] db.storage_partitions[k])
                        == (partition, Some(id));
                lemma_table_entry(db.storage_partitions@, db.next_number(), k);
                assert(db.layout()[k].process == Some(id as int));
            }
        }
        create_finished_process(db, id, partition.number);
        // Take the process out of its partition.
        delete_process_partition_with_process_id(db, id);
    }
    let ghost released = *db;
    proof {
        assert(released.processes[rank as int].id == id);
    }
    update_process_with_id(db, id, &process);
    let ghost updated = *db;
    proof {
        assert(crate::database::processes::record_of(id, process) == advanced(
            old(db).processes[rank as int],
        ));
        assert(updated.processes@ == released.processes@.update(
            rank as int,
            advanced(old(db).processes[rank as int]),
        ));
        assert(updated.processes[rank as int].id == id);
    }
    create_process_log(db, id);
    proof {
        assert(db.process_logs@ == updated.process_logs@.push(
            process_snapshot(updated.iteration, updated.processes[rank as int], updated.layout()),
        ));
    }
}

/// The advance phase changes the process table, the pool, the filed endings
/// and the snapshots of processes, and nothing else. The process table and
/// the pool stay as long as they were.
pub proof fn lemma_advance_all_keeps(tables: Tables, count: int)
    requires
        count <= tables.processes.len(),
    ensures
        advance_all(tables, count) == (Tables {
            processes: advance_all(tables, count).processes,
            pool: advance_all(tables, count).pool,
            finished_processes: advance_all(tables, count).finished_processes,
            process_logs: advance_all(tables, count).process_logs,
            ..tables
        }),
        advance_all(tables, count).processes.len() == tables.processes.len(),
        advance_all(tables, count).pool.len() == tables.pool.len(),
    decreases count,
{
    if count > 0 {
        lemma_advance_all_keeps(tables, count - 1);
        let before = advance_all(tables, count - 1);
        lemma_holder(before.pool, before.processes[count - 1].id as int, 0);
    }
}

/// Gives every process of the process table its turn, in the order of the
/// table.
pub fn advance_processes(db: &mut Database)
    requires
        old(db).wf(),
        old(db).iteration >= 1,
    ensures
        final(db).wf(),
        final(db)@ == advance_all(old(db)@, old(db).processes.len() as int),
{
    let count = db.processes.len();
    let mut rank: usize = 0;
    while rank < count
        invariant
            db.wf(),
            db.iteration >= 1,
            rank <= count,
            count == old(db).processes.len(),
            db.processes.len() == count,
            db@ == advance_all(old(db)@, rank as int),
        decreases count - rank,
    {
        proof {
            lemma_advance_all_keeps(old(db)@, rank as int + 1);
        }
        advance_process(db, rank);
        rank = rank + 1;
    }
}

} // verus!
