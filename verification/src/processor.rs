//! The simulation: the driving loop and the requests that start it and feed
//! it.

pub mod lifecycle;
pub mod progress;

use crate::database::allocation::{
    add_processes_to_memory, admissions, in_partition, lemma_admissions_grow,
    select_all_processes_from_processes_partitions,
};
use crate::database::compaction::{
    lemma_slide_length, slide, swap_process_partitions_with_empty_partitions,
};
use crate::database::condensation::{
    condense, lemma_condense_length, lemma_merges_bounded, merge_storage_partitions,
};
use crate::database::configuration::Settings;
use crate::database::layout::lemma_table_bounds;
use crate::database::logs::{
    create_iteration_log, create_storage_partition_logs, partition_snapshots,
};
use crate::database::processes::{
    check_process_name_is_unique, create_process, in_state, name_is_unique, next_process_id,
    record_of,
};
use crate::model::process::Process;
use crate::model::state::StateEnum;
use crate::database::allocation::create_storage_partition_from_remaining_space;
use crate::database::layout::{free_block, is_resident, lemma_resident_concat, total_size};
use crate::database::{
    clear_database, init_configuration, processes_valid, starting_settings, Database, Tables,
};
use crate::processor::lifecycle::{advance_all, advance_processes, lemma_advance_all_keeps};
use crate::processor::progress::{
    active, busy, lemma_admitted_active, lemma_tick_progress, remaining_work,
};
use vstd::prelude::*;

verus! {

/// The tables with a new tick begun.
pub open spec fn begun(tables: Tables) -> Tables {
    Tables { iteration: (tables.iteration + 1) as i32, ..tables }
}

/// The tables with a snapshot of every partition written.
pub open spec fn pictured(tables: Tables) -> Tables {
    Tables {
        storage_partition_logs: tables.storage_partition_logs + partition_snapshots(
            tables.iteration,
            tables.pool,
        ),
        ..tables
    }
}

/// The tables after one pass of compaction.
pub open spec fn compacted(tables: Tables) -> Tables {
    let slid = slide(tables.pool, 0, tables.iteration);
    Tables {
        pool: slid.pool,
        compaction_logs: tables.compaction_logs + slid.records,
        configuration: Settings {
            compactions: if slid.records.len() > 0 {
                (tables.configuration.compactions + 1) as i32
            } else {
                tables.configuration.compactions
            },
            ..tables.configuration
        },
        ..tables
    }
}

/// The tables after condensation.
pub open spec fn condensed(tables: Tables) -> Tables {
    let merged = condense(tables.pool, tables.next_number());
    Tables {
        pool: merged.pool,
        condensation_logs: tables.condensation_logs + merged.records,
        configuration: Settings {
            partition_consecutive_number: (tables.next_number() + merged.merges) as i32,
            condensations: (tables.configuration.condensations + merged.merges) as i32,
            ..tables.configuration
        },
        ..tables
    }
}

/// The tables after the admission of the ready processes.
pub open spec fn admitted(tables: Tables) -> Tables {
    let entered = admissions(
        tables.pool,
        tables.next_number(),
        tables.capacity(),
        tables.processes.filter(in_state(0)),
    );
    Tables {
        pool: entered.pool,
        configuration: Settings {
            partition_consecutive_number: entered.next_number as i32,
            ..tables.configuration
        },
        ..tables
    }
}

/// The admission of the ready processes admits at least one.
pub open spec fn admits(tables: Tables) -> bool {
    admissions(
        tables.pool,
        tables.next_number(),
        tables.capacity(),
        tables.processes.filter(in_state(0)),
    ).any
}

/// No process of the process table occupies a partition.
pub open spec fn idle(tables: Tables) -> bool {
    tables.processes.filter(in_partition(tables.pool)).len() == 0
}

/// The tables of a tick just before its admission: a new tick is begun, every
/// resident process has made one transition, the snapshots of the partitions
/// are written, and the pool is compacted and condensed.
pub open spec fn settled(tables: Tables) -> Tables {
    condensed(
        compacted(pictured(advance_all(begun(tables), begun(tables).processes.len() as int))),
    )
}

/// The tables after one tick.
pub open spec fn tick(tables: Tables) -> Tables {
    admitted(settled(tables))
}

/// The simulation rests after the tick that starts from `tables`: the tick
/// admits no process, and leaves none in a partition.
pub open spec fn rests(tables: Tables) -> bool {
    !admits(settled(tables)) && idle(tick(tables))
}

/// The tables leave room for one more tick, however it goes: for one more
/// tick id, one more compaction, as many condensations as there are
/// partitions, a new partition for each of those and two for each process
/// and one more, and a capacity is set.
pub open spec fn headroom(tables: Tables) -> bool {
    &&& tables.configuration.memory_size is Some
    &&& tables.iteration < i32::MAX
    &&& tables.configuration.compactions < i32::MAX
    &&& tables.configuration.condensations + tables.pool.len() <= i32::MAX
    &&& tables.next_number() + tables.pool.len() + 2 * tables.processes.len() + 1 <= i32::MAX
    &&& tables.pool.len() + tables.processes.len() <= i32::MAX
}

/// Whether the tables leave room for one more tick.
pub fn has_headroom(db: &Database) -> (enough: bool)
    requires
        db.wf(),
    ensures
        enough == headroom(db@),
{
    proof {
        lemma_table_bounds(db.storage_partitions@, db.next_number());
    }
    let limit: u64 = 0x7fff_ffff;
    let partitions = db.storage_partitions.len() as u64;
    let processes = db.processes.len() as u64;
    if db.configuration.memory_size.is_none() || db.iteration == i32::MAX
        || db.configuration.compactions == i32::MAX {
        return false;
    }
    if partitions > limit || processes > limit {
        return false;
    }
    let number = db.configuration.partition_consecutive_number as i64;
    let condensations = db.configuration.condensations as i64;
    condensations + partitions as i64 <= limit as i64 && number + partitions as i64 + 2
        * processes as i64 + 1 <= limit as i64 && partitions + processes <= limit
}

/// Runs one tick of the simulation. A new tick is begun. Every process that
/// occupies a partition makes one transition of its lifecycle, and a process
/// that finishes leaves its partition. The snapshots of the partitions are
/// written. The pool is compacted by one pass and then condensed. At last the
/// ready processes are admitted. Returns whether the simulation rests now: no
/// process was admitted and no process occupies a partition.
pub fn run_tick(db: &mut Database) -> (resting: bool)
    requires
        old(db).wf(),
        headroom(old(db)@),
    ensures
        final(db).wf(),
        final(db)@ == tick(old(db)@),
        resting == rests(old(db)@),
        old(db).within_capacity() ==> final(db).within_capacity(),
{
    proof {
        if db.within_capacity() {
            crate::processor::progress::lemma_tick_within_capacity(db@);
        }
    }
    let ghost start = db@;
    create_iteration_log(db);
    let ghost now = db@;
    proof {
        lemma_table_bounds(db.storage_partitions@, db.next_number());
        assert(now == begun(start));
        lemma_advance_all_keeps(now, now.processes.len() as int);
    }
    advance_processes(db);
    create_storage_partition_logs(db);
    let ghost drawn = db@;
    proof {
        assert(drawn == pictured(advance_all(now, now.processes.len() as int)));
        lemma_slide_length(drawn.pool, 0, drawn.iteration);
    }
    // Before new processes are admitted, see whether the pool can be
    // compacted: exchange occupied partitions with free ones below them.
    swap_process_partitions_with_empty_partitions(db);
    let ghost packed = db@;
    proof {
        assert(packed == compacted(drawn));
        lemma_merges_bounded(packed.pool, packed.next_number());
        lemma_condense_length(packed.pool, packed.next_number());
    }
    // After that, merge the free partitions that stand side by side.
    merge_storage_partitions(db);
    let ghost merged = db@;
    proof {
        assert(merged == condensed(packed));
        assert(merged == settled(start));
        merged.processes.lemma_filter_len(in_state(0));
        lemma_admissions_grow(
            merged.pool,
            merged.next_number(),
            merged.capacity(),
            merged.processes.filter(in_state(0)),
            0,
        );
    }
    // Try to admit the processes that are still waiting.
    let added = add_processes_to_memory(db);
    proof {
        assert(db@ == admitted(merged));
    }
    // If none was admitted and the partitions hold no process, the
    // simulation has come to rest.
    if !added {
        select_all_processes_from_processes_partitions(db).len() == 0
    } else {
        false
    }
}

/// The tables with which a simulation starts: whatever the tables held, only
/// the processes are kept, the settings are those a simulation starts with,
/// and the first tick is begun.
pub open spec fn prepared(tables: Tables) -> Tables {
    Tables {
        configuration: starting_settings(),
        processes: tables.processes,
        pool: Seq::empty(),
        finished_processes: Seq::empty(),
        iteration: 1,
        storage_partition_logs: Seq::empty(),
        process_logs: Seq::empty(),
        compaction_logs: Seq::empty(),
        condensation_logs: Seq::empty(),
    }
}

/// The tables with the space that the capacity leaves beyond the pool, if
/// any, made a free partition at the high end.
pub open spec fn spaced(tables: Tables) -> Tables {
    if total_size(tables.pool) < tables.capacity() {
        Tables {
            pool: tables.pool.push(
                free_block(tables.next_number(), tables.capacity() - total_size(tables.pool)),
            ),
            configuration: Settings {
                partition_consecutive_number: (tables.next_number() + 1) as i32,
                ..tables.configuration
            },
            ..tables
        }
    } else {
        tables
    }
}

/// The tables at the opening of a simulation, before its first tick: the
/// ready processes are admitted, the space that is left is made a partition,
/// and the snapshots of the partitions are written.
pub open spec fn opened(tables: Tables) -> Tables {
    pictured(spaced(admitted(tables)))
}

/// The tables after `ticks` ticks.
pub open spec fn run(tables: Tables, ticks: nat) -> Tables
    decreases ticks,
{
    if ticks == 0 {
        tables
    } else {
        tick(run(tables, (ticks - 1) as nat))
    }
}

/// Each of the first `ticks` ticks finds room, and the simulation rests after
/// none of them.
pub open spec fn runs_on(tables: Tables, ticks: nat) -> bool {
    forall|earlier: nat|
        earlier < ticks ==> headroom(#[trigger] run(tables, earlier)) && !rests(
            run(tables, earlier),
        )
}

/// At the opening of a simulation that admits a process, a process occupies
/// a partition, and no process in a partition is finished.
pub proof fn lemma_opening(tables: Tables)
    requires
        processes_valid(tables.processes),
        tables.pool.len() == 0,
        admits(tables),
    ensures
        active(opened(tables)),
        busy(opened(tables)),
{
    lemma_admitted_active(tables);
    let entered = admitted(tables);
    let after = opened(tables);
    assert forall|k: int| 0 <= k < after.processes.len() implies is_resident(
        after.pool,
        (#[trigger] after.processes[k]).id as int,
    ) == is_resident(entered.pool, entered.processes[k].id as int) by {
        if total_size(entered.pool) < entered.capacity() {
            let space = free_block(
                entered.next_number(),
                entered.capacity() - total_size(entered.pool),
            );
            assert(after.pool =~= entered.pool + seq![space]);
            lemma_resident_concat(entered.pool, seq![space], after.processes[k].id as int);
        }
    }
    let k = choose|k: int|
        0 <= k < entered.processes.len() && is_resident(
            entered.pool,
            (#[trigger] entered.processes[k]).id as int,
        );
    assert(is_resident(after.pool, after.processes[k].id as int));
}

/// Runs a simulation from its start to its rest.
///
/// The tables are prepared: everything but the processes is forgotten, the
/// settings are those a simulation starts with, and the first tick is begun.
/// The ready processes are admitted. If there is none to admit, the
/// simulation is over at once. Otherwise the space that is left becomes a
/// partition, the snapshots of the partitions are written, and tick follows
/// tick until the simulation rests.
///
/// Returns whether the simulation came to its rest. It does not where the
/// tables leave no room for a tick that is due; they are then left as they
/// were before that tick.
pub fn start_processor(db: &mut Database) -> (finished: bool)
    requires
        old(db).wf(),
    ensures
        final(db).wf(),
        final(db).within_capacity(),
        !headroom(prepared(old(db)@)) ==> !finished && final(db)@ == prepared(old(db)@),
        headroom(prepared(old(db)@)) && !admits(prepared(old(db)@)) ==> finished && final(db)@
            == admitted(prepared(old(db)@)),
        headroom(prepared(old(db)@)) && admits(prepared(old(db)@)) ==> exists|ticks: nat|
            {
                &&& runs_on(opened(prepared(old(db)@)), ticks)
                &&& if finished {
                    &&& headroom(#[trigger] run(opened(prepared(old(db)@)), ticks))
                    &&& rests(run(opened(prepared(old(db)@)), ticks))
                    &&& final(db)@ == tick(run(opened(prepared(old(db)@)), ticks))
                } else {
                    &&& !headroom(run(opened(prepared(old(db)@)), ticks))
                    &&& final(db)@ == run(opened(prepared(old(db)@)), ticks)
                }
            },
{
    // Start with the base configuration and with empty tables.
    clear_database(db);
    init_configuration(db);
    create_iteration_log(db);
    let ghost start = db@;
    proof {
        assert(start == prepared(old(db)@));
        crate::processor::progress::lemma_opening_within_capacity(old(db)@);
    }
    if !has_headroom(db) {
        return false;
    }
    proof {
        start.processes.lemma_filter_len(in_state(0));
        lemma_admissions_grow(
            start.pool,
            start.next_number(),
            start.capacity(),
            start.processes.filter(in_state(0)),
            0,
        );
    }
    // Without a ready process to admit, the simulation is over.
    if !add_processes_to_memory(db) {
        return true;
    }
    // Make a partition of the space that is left. This is done once, when
    // the simulation starts.
    proof {
        lemma_table_bounds(db.storage_partitions@, db.next_number());
    }
    create_storage_partition_from_remaining_space(db);
    // Write down what the partitions look like at the start.
    create_storage_partition_logs(db);
    let ghost first = db@;
    let ghost mut ticks: nat = 0;
    proof {
        assert(first == opened(start));
        lemma_opening(start);
    }
    loop
        invariant
            db.wf(),
            first == opened(prepared(old(db)@)),
            headroom(prepared(old(db)@)),
            admits(prepared(old(db)@)),
            db@ == run(first, ticks),
            runs_on(first, ticks),
            db.within_capacity(),
            active(db@),
            busy(db@),
        decreases remaining_work(db.processes@),
    {
        proof {
            lemma_table_bounds(db.storage_partitions@, db.next_number());
            lemma_tick_progress(db@);
        }
        if !has_headroom(db) {
            return false;
        }
        let ghost before = db@;
        if run_tick(db) {
            return true;
        }
        proof {
            assert(run(first, ticks + 1) == tick(run(first, ticks)));
            assert forall|earlier: nat| earlier < ticks + 1 implies headroom(
                #[trigger] run(first, earlier),
            ) && !rests(run(first, earlier)) by {
                if earlier == ticks {
                } else {
                    assert(earlier < ticks);
                }
            }
            ticks = ticks + 1;
        }
    }
}

/// The process that a request describes: ready, and without an id.
pub open spec fn requested(name: String, time: i32, size: i32) -> Process {
    Process { id: None, name, time, size, state: StateEnum::Ready }
}

/// Saves a new process, ready to run, unless its name is taken. Returns
/// whether it was saved. It is not where another process has the name, where
/// the size is negative, or where the table has no id left to give.
pub fn save_process(db: &mut Database, name: String, time: i32, size: i32) -> (saved: bool)
    requires
        old(db).wf(),
    ensures
        final(db).wf(),
        saved == (name_is_unique(old(db).processes@, None, name@) && size >= 0 && next_process_id(
            old(db).processes@,
        ) <= i32::MAX),
        saved ==> final(db).processes@ == old(db).processes@.push(
            record_of(next_process_id(old(db).processes@) as i32, requested(name, time, size)),
        ),
        !saved ==> final(db).processes == old(db).processes,
        *final(db) == (Database { processes: final(db).processes, ..*old(db) }),
{
    let next_id_left = db.processes.len() == 0 || db.processes[db.processes.len() - 1].id
        < i32::MAX;
    if size >= 0 && next_id_left && check_process_name_is_unique(db, None, name.as_str()) {
        let process = Process::new(name, time, size);
        create_process(db, process);
        true
    } else {
        false
    }
}

/// Gives the process with the id `id` a new name, time and size and makes it
/// ready again, unless another process has the name. Returns whether the
/// request was accepted. It is not where another process has the name or
/// where the size is negative; then nothing changes. An accepted request
/// changes nothing either where no process has the id.
pub fn update_process_with_id(
    db: &mut Database,
    id: i32,
    name: String,
    time: i32,
    size: i32,
) -> (updated: bool)
    requires
        old(db).wf(),
    ensures
        final(db).wf(),
        updated == (name_is_unique(old(db).processes@, Some(id), name@) && size >= 0),
        !updated ==> final(db).processes == old(db).processes,
        updated ==> forall|k: int|
            0 <= k < old(db).processes.len() && (#[trigger] old(db).processes[k]).id == id
                ==> final(db).processes@ == old(db).processes@.update(
                k,
                record_of(id, requested(name, time, size)),
            ),
        updated && (forall|k: int|
            0 <= k < old(db).processes.len() ==> (#[trigger] old(db).processes[k]).id != id)
            ==> final(db).processes == old(db).processes,
        *final(db) == (Database { processes: final(db).processes, ..*old(db) }),
{
    if size >= 0 && check_process_name_is_unique(db, Some(id), name.as_str()) {
        let process = Process::new(name, time, size);
        crate::database::processes::update_process_with_id(db, id, &process);
        true
    } else {
        false
    }
}

} // verus!
