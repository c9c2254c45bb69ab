//! Why the simulation comes to rest: every tick in which a process occupies
//! a partition uses up some of the work that is left.

use crate::database::allocation::{in_partition, lemma_admissions_residents};
use crate::database::compaction::lemma_slide_residents;
use crate::database::condensation::lemma_condense_residents;
use crate::database::allocation::lemma_admissions_size;
use crate::database::compaction::lemma_slide_size;
use crate::database::condensation::lemma_condense_size;
use crate::database::layout::{
    free_block, is_resident, lemma_total_size_concat, lemma_total_size_single,
    lemma_total_size_update, occupants_distinct, total_size,
};
use crate::processor::{opened, prepared, run};
use crate::database::logs::{holder, lemma_holder};
use crate::database::models::Process;
use crate::database::processes::in_state;
use crate::sequences::lemma_filter_source;
use crate::database::{processes_valid, Tables};
use crate::model::state::{state_of_number, StateEnum};
use crate::processor::lifecycle::{advance_all, advanced, ends};
use crate::processor::{
    admits, admitted, begun, compacted, condensed, pictured, rests, settled, tick,
};
use vstd::prelude::*;

verus! {

/// The number of transitions that a process has before it, at most, until it
/// is finished.
pub open spec fn work(process: Process) -> int {
    let time = if process.time > 0 {
        process.time as int
    } else {
        0
    };
    match state_of_number(process.state) {
        StateEnum::Ready | StateEnum::ReadyInPartition => if time > 1 {
            2 * time
        } else {
            2
        },
        StateEnum::Running => 2 * time + 1,
        StateEnum::Finished => 0,
    }
}

/// The work of all processes, added up.
pub open spec fn remaining_work(processes: Seq<Process>) -> int
    decreases processes.len(),
{
    if processes.len() == 0 {
        0
    } else {
        remaining_work(processes.drop_last()) + work(processes.last())
    }
}

/// No process that occupies a partition is finished.
pub open spec fn active(tables: Tables) -> bool {
    forall|k: int|
        0 <= k < tables.processes.len() && is_resident(
            tables.pool,
            (#[trigger] tables.processes[k]).id as int,
        ) ==> tables.processes[k].state != 3
}

/// Some process occupies a partition.
pub open spec fn busy(tables: Tables) -> bool {
    exists|k: int|
        0 <= k < tables.processes.len() && is_resident(
            tables.pool,
            (#[trigger] tables.processes[k]).id as int,
        )
}

/// There is no negative work.
pub proof fn lemma_work_nonnegative(processes: Seq<Process>)
    ensures
        remaining_work(processes) >= 0,
    decreases processes.len(),
{
    if processes.len() > 0 {
        lemma_work_nonnegative(processes.drop_last());
    }
}

/// Where no process has more work than before, there is no more work than
/// before; and where one process has less, there is less.
pub proof fn lemma_work_decreases(before: Seq<Process>, after: Seq<Process>)
    requires
        before.len() == after.len(),
        forall|k: int| 0 <= k < before.len() ==> work(#[trigger] after[k]) <= work(before[k]),
    ensures
        remaining_work(after) <= remaining_work(before),
        (exists|k: int| 0 <= k < before.len() && work(#[trigger] after[k]) < work(before[k]))
            ==> remaining_work(after) < remaining_work(before),
    decreases before.len(),
{
    if before.len() > 0 {
        let last = before.len() - 1;
        assert forall|k: int| 0 <= k < before.drop_last().len() implies work(
            #[trigger] after.drop_last()[k],
        ) <= work(before.drop_last()[k]) by {
            assert(after.drop_last()[k] == after[k]);
            assert(before.drop_last()[k] == before[k]);
        }
        lemma_work_decreases(before.drop_last(), after.drop_last());
        assert(work(after[last]) <= work(before[last]));
        if exists|k: int| 0 <= k < before.len() && work(#[trigger] after[k]) < work(before[k]) {
            let k = choose|k: int| 0 <= k < before.len()
                && work(#[trigger] after[k]) < work(before[k]);
            if k < last {
                assert(after.drop_last()[k] == after[k]);
                assert(before.drop_last()[k] == before[k]);
            }
        }
    }
}

/// A transition uses up work, unless the process is finished already.
pub proof fn lemma_transition_works(process: Process)
    requires
        0 <= process.state <= 3,
    ensures
        work(advanced(process)) <= work(process),
        process.state != 3 ==> work(advanced(process)) < work(process),
        process.state != 3 && !ends(process) ==> advanced(process).state != 3,
        0 <= advanced(process).state <= 3,
{
}

/// What the advance phase does, process by process: among the first `count`
/// processes, each that occupied a partition has made one transition, and has
/// left its partition if that ended it. Everything else is as it was.
pub proof fn lemma_advance_all_turns(tables: Tables, count: int)
    requires
        0 <= count <= tables.processes.len(),
        processes_valid(tables.processes),
        occupants_distinct(tables.pool),
    ensures
        advance_all(tables, count).processes.len() == tables.processes.len(),
        occupants_distinct(advance_all(tables, count).pool),
        forall|k: int|
            0 <= k < tables.processes.len() ==> #[trigger] advance_all(tables, count).processes[k]
                == if k < count && is_resident(tables.pool, tables.processes[k].id as int) {
                advanced(tables.processes[k])
            } else {
                tables.processes[k]
            },
        forall|k: int|
            0 <= k < tables.processes.len() ==> (is_resident(
                advance_all(tables, count).pool,
                (#[trigger] tables.processes[k]).id as int,
            ) <==> is_resident(tables.pool, tables.processes[k].id as int) && !(k < count && ends(
                tables.processes[k],
            ))),
    decreases count,
{
    if count > 0 {
        lemma_advance_all_turns(tables, count - 1);
        let before = advance_all(tables, count - 1);
        let after = advance_all(tables, count);
        let rank = count - 1;
        let process = before.processes[rank];
        let id = process.id as int;
        assert(process == tables.processes[rank]);
        lemma_holder(before.pool, id, 0);
        let held = holder(before.pool, id, 0);
        if is_resident(before.pool, id) && ends(process) {
            assert(after.pool == before.pool.update(held, before.pool[held].released()));
            assert forall|i: int, j: int|
                0 <= i < j < after.pool.len() && (#[trigger] after.pool[i]).process is Some implies
                    after.pool[i].process
                != (#[trigger] after.pool[j]).process by {
                if j != held {
                    assert(after.pool[i] == before.pool[i]);
                    assert(after.pool[j] == before.pool[j]);
                }
            }
            assert forall|k: int| 0 <= k < tables.processes.len() implies (is_resident(
                after.pool,
                (#[trigger] tables.processes[k]).id as int,
            ) <==> is_resident(tables.pool, tables.processes[k].id as int) && !(k < count && ends(
                tables.processes[k],
            ))) by {
                let other = tables.processes[k].id as int;
                if k == rank {
                    if is_resident(after.pool, other) {
                        let b = choose|b: int|
                            0 <= b < after.pool.len() && (#[trigger] after.pool[b]).process == Some(
                                other,
                            );
                        assert(after.pool[b] == before.pool[b]);
                        if b < held {
                            assert(before.pool[b].process != before.pool[held].process);
                        } else {
                            assert(before.pool[held].process != before.pool[b].process);
                        }
                    }
                } else {
                    if k < rank {
                        assert(tables.processes[k].id < tables.processes[rank].id);
                    } else {
                        assert(tables.processes[rank].id < tables.processes[k].id);
                    }
                    if is_resident(before.pool, other) {
                        let b = choose|b: int|
                            0 <= b < before.pool.len() && (#[trigger] before.pool[b]).process
                                == Some(other);
                        assert(after.pool[b] == before.pool[b]);
                    }
                    if is_resident(after.pool, other) {
                        let b = choose|b: int|
                            0 <= b < after.pool.len() && (#[trigger] after.pool[b]).process == Some(
                                other,
                            );
                        assert(after.pool[b] == before.pool[b]);
                    }
                }
            }
        }
    }
}

/// Admission binds ready processes only: if no process in a partition was
/// finished before, none is after. And if it admits any process, a process
/// occupies a partition after.
pub proof fn lemma_admitted_active(tables: Tables)
    requires
        processes_valid(tables.processes),
        active(tables),
    ensures
        active(admitted(tables)),
        admits(tables) ==> busy(admitted(tables)),
{
    let after = admitted(tables);
    let rows = tables.processes;
    let ready = rows.filter(in_state(0));
    assert forall|k: int|
        0 <= k < after.processes.len() && is_resident(
            after.pool,
            (#[trigger] after.processes[k]).id as int,
        ) implies after.processes[k].state != 3 by {
        let id = rows[k].id as int;
        lemma_admissions_residents(tables.pool, tables.next_number(), tables.capacity(), ready, id);
        if !is_resident(tables.pool, id) {
            let j = choose|j: int| 0 <= j < ready.len() && (#[trigger] ready[j]).id == id;
            lemma_filter_source(rows, in_state(0), j);
            let source = choose|source: int|
                0 <= source < rows.len() && (#[trigger] rows[source]) == ready[j] && in_state(0)(
                    rows[source],
                );
            if source < k {
                assert(rows[source].id < rows[k].id);
            } else if source > k {
                assert(rows[k].id < rows[source].id);
            }
        }
    }
    if admits(tables) {
        lemma_admissions_residents(tables.pool, tables.next_number(), tables.capacity(), ready, 0);
        let j = choose|j: int|
            0 <= j < ready.len() && is_resident(after.pool, (#[trigger] ready[j]).id as int);
        lemma_filter_source(rows, in_state(0), j);
        let source = choose|source: int|
            0 <= source < rows.len() && (#[trigger] rows[source]) == ready[j] && in_state(0)(
                rows[source],
            );
        assert(is_resident(after.pool, after.processes[source].id as int));
    }
}

/// While a process occupies a partition and no such process is finished, a
/// tick uses up work, finishes no process in a partition, and leaves a
/// process in a partition unless the simulation rests after it.
pub proof fn lemma_tick_progress(tables: Tables)
    requires
        processes_valid(tables.processes),
        occupants_distinct(tables.pool),
        active(tables),
        busy(tables),
    ensures
        0 <= remaining_work(tick(tables).processes) < remaining_work(tables.processes),
        processes_valid(tick(tables).processes),
        active(tick(tables)),
        !rests(tables) ==> busy(tick(tables)),
{
    let start = begun(tables);
    let count = start.processes.len() as int;
    let turned = advance_all(start, count);
    let packed = compacted(pictured(turned));
    let merged = condensed(packed);
    let after = tick(tables);
    let before_rows = tables.processes;
    let rows = turned.processes;
    lemma_advance_all_turns(start, count);
    assert(merged == settled(tables));
    assert(after.processes == rows);
    lemma_work_nonnegative(rows);
    // Every transition uses up work, and at least one is made.
    assert forall|k: int| 0 <= k < before_rows.len() implies work(#[trigger] rows[k]) <= work(
        before_rows[k],
    ) && 0 <= rows[k].state <= 3 && rows[k].id == before_rows[k].id && rows[k].size
        == before_rows[k].size by {
        lemma_transition_works(before_rows[k]);
    }
    let first = choose|k: int|
        0 <= k < tables.processes.len() && is_resident(
            tables.pool,
            (#[trigger] tables.processes[k]).id as int,
        );
    lemma_transition_works(before_rows[first]);
    assert(work(rows[first]) < work(before_rows[first]));
    lemma_work_decreases(before_rows, rows);
    assert forall|i: int, j: int| 0 <= i < j < rows.len() implies (#[trigger] rows[i]).id < (
    #[trigger] rows[j]).id by {
        assert(before_rows[i].id < before_rows[j].id);
    }
    // No process in a partition is finished before the admission.
    assert forall|k: int|
        0 <= k < merged.processes.len() && is_resident(
            merged.pool,
            (#[trigger] merged.processes[k]).id as int,
        ) implies merged.processes[k].state != 3 by {
        let id = rows[k].id as int;
        lemma_condense_residents(packed.pool, packed.next_number(), id);
        lemma_slide_residents(turned.pool, 0, turned.iteration, id);
        assert(is_resident(turned.pool, before_rows[k].id as int));
        lemma_transition_works(before_rows[k]);
    }
    lemma_admitted_active(merged);
    // Unless the simulation rests, some process occupies a partition.
    if !rests(tables) && !admits(merged) {
        lemma_filter_source(after.processes, in_partition(after.pool), 0);
        let source = choose|source: int|
            0 <= source < rows.len() && (#[trigger] rows[source]) == after.processes.filter(
                in_partition(after.pool),
            )[0] && in_partition(after.pool)(rows[source]);
        assert(is_resident(after.pool, after.processes[source].id as int));
    }
}

/// The advance phase leaves the pool as large as it was.
pub proof fn lemma_advance_all_size(tables: Tables, count: int)
    requires
        count <= tables.processes.len(),
    ensures
        total_size(advance_all(tables, count).pool) == total_size(tables.pool),
    decreases count,
{
    if count > 0 {
        lemma_advance_all_size(tables, count - 1);
        let before = advance_all(tables, count - 1);
        crate::processor::lifecycle::lemma_advance_all_keeps(tables, count - 1);
        let id = before.processes[count - 1].id as int;
        lemma_holder(before.pool, id, 0);
        let held = holder(before.pool, id, 0);
        if is_resident(before.pool, id) {
            lemma_total_size_update(before.pool, held, before.pool[held].released());
        }
    }
}

/// A tick keeps the pool within the capacity: the partitions never add up to
/// more than the capacity that is set.
pub proof fn lemma_tick_within_capacity(tables: Tables)
    requires
        tables.within_capacity(),
    ensures
        tick(tables).within_capacity(),
        tick(tables).configuration.memory_size == tables.configuration.memory_size,
{
    let start = begun(tables);
    let turned = advance_all(start, start.processes.len() as int);
    let drawn = pictured(turned);
    let packed = compacted(drawn);
    let merged = condensed(packed);
    crate::processor::lifecycle::lemma_advance_all_keeps(start, start.processes.len() as int);
    lemma_advance_all_size(start, start.processes.len() as int);
    lemma_slide_size(drawn.pool, 0, drawn.iteration);
    lemma_condense_size(packed.pool, packed.next_number());
    lemma_admissions_size(
        merged.pool,
        merged.next_number(),
        merged.capacity(),
        merged.processes.filter(in_state(0)),
    );
}

/// However many ticks run, the pool stays within the capacity.
pub proof fn lemma_run_within_capacity(tables: Tables, ticks: nat)
    requires
        tables.within_capacity(),
    ensures
        run(tables, ticks).within_capacity(),
        run(tables, ticks).configuration.memory_size == tables.configuration.memory_size,
    decreases ticks,
{
    if ticks > 0 {
        lemma_run_within_capacity(tables, (ticks - 1) as nat);
        lemma_tick_within_capacity(run(tables, (ticks - 1) as nat));
    }
}

/// A simulation starts within the capacity: at its start the pool is empty,
/// and its opening fills the pool to the capacity at most.
pub proof fn lemma_opening_within_capacity(tables: Tables)
    ensures
        prepared(tables).within_capacity(),
        admitted(prepared(tables)).within_capacity(),
        opened(prepared(tables)).within_capacity(),
{
    let start = prepared(tables);
    let entered = admitted(start);
    assert(total_size(start.pool) == 0);
    lemma_admissions_size(
        start.pool,
        start.next_number(),
        start.capacity(),
        start.processes.filter(in_state(0)),
    );
    if total_size(entered.pool) < entered.capacity() {
        let space = free_block(
            entered.next_number(),
            entered.capacity() - total_size(entered.pool),
        );
        assert(entered.pool.push(space) =~= entered.pool + seq![space]);
        lemma_total_size_concat(entered.pool, seq![space]);
        lemma_total_size_single(space);
    }
}

} // verus!
