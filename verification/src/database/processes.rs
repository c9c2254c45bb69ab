//! The process table.

use crate::database::models;
use crate::database::{processes_valid, Database};
use crate::model::process::Process;
use crate::model::state::{get_state_number, state_number};
use vstd::prelude::*;

verus! {

/// The processes in the state with the number `state`.
pub open spec fn in_state(state: i32) -> spec_fn(models::Process) -> bool {
    |process: models::Process| process.state == state
}

/// The id that the next new process gets: one more than the last id of the
/// table, and 1 in an empty table.
pub open spec fn next_process_id(processes: Seq<models::Process>) -> int {
    if processes.len() == 0 {
        1
    } else {
        processes.last().id + 1
    }
}

/// The record that the table keeps of `process` under the id `id`.
pub open spec fn record_of(id: i32, process: Process) -> models::Process {
    models::Process {
        id,
        name: process.name,
        time: process.time,
        size: process.size,
        state: state_number(process.state),
    }
}

/// The rank of the first process at or above rank `from` that has the id
/// `id`, or the length of the table where none has.
pub open spec fn rank_of_process(processes: Seq<models::Process>, id: i32, from: int) -> int
    decreases processes.len() - from,
{
    if from < 0 || from >= processes.len() {
        processes.len() as int
    } else if processes[from].id == id {
        from
    } else {
        rank_of_process(processes, id, from + 1)
    }
}

/// The rank in the table of the process with the id `id`, if the table holds
/// it.
pub(crate) fn find_process(db: &Database, id: i32) -> (rank: Option<usize>)
    ensures
        match rank {
            Some(k) => k < db.processes.len() && db.processes[k as int].id == id
                && rank_of_process(db.processes@, id, 0) == k,
            None => rank_of_process(db.processes@, id, 0) == db.processes.len() && forall|k: int|
                0 <= k < db.processes.len() ==> (#[trigger] db.processes[k]).id != id,
        },
{
    let mut k: usize = 0;
    while k < db.processes.len()
        invariant
            k <= db.processes.len(),
            forall|j: int| 0 <= j < k ==> (#[trigger] db.processes[j]).id != id,
            rank_of_process(db.processes@, id, 0) == rank_of_process(db.processes@, id, k as int),
        decreases db.processes.len() - k,
    {
        if db.processes[k].id == id {
            return Some(k);
        }
        k = k + 1;
    }
    None
}

/// No process of `processes` other than the one with the id `process_id`, if
/// one is given, has the name `name`.
pub open spec fn name_is_unique(
    processes: Seq<models::Process>,
    process_id: Option<i32>,
    name: Seq<char>,
) -> bool {
    forall|k: int|
        0 <= k < processes.len() ==> !((#[trigger] processes[k]).name@ == name && (
        process_id matches Some(id) ==> processes[k].id != id))
}

/// Whether no process other than the one with the id `process_id`, if one is
/// given, has the name `process_name`.
pub fn check_process_name_is_unique(
    db: &Database,
    process_id: Option<i32>,
    process_name: &str,
) -> (unique: bool)
    ensures
        unique == name_is_unique(db.processes@, process_id, process_name@),
{
    let wanted = process_name.to_owned();
    let mut k: usize = 0;
    while k < db.processes.len()
        invariant
            k <= db.processes.len(),
            wanted@ == process_name@,
            forall|j: int|
                0 <= j < k ==> !((#[trigger] db.processes[j]).name@ == process_name@ && (
                process_id matches Some(id) ==> db.processes[j].id != id)),
        decreases db.processes.len() - k,
    {
        if db.processes[k].name == wanted {
            let other = match process_id {
                Some(id) => db.processes[k].id != id,
                None => true,
            };
            if other {
                return false;
            }
        }
        k = k + 1;
    }
    true
}

/// Puts `process` into the table, under the next id.
pub fn create_process(db: &mut Database, process: Process)
    requires
        old(db).wf(),
        process.size >= 0,
        next_process_id(old(db).processes@) <= i32::MAX,
    ensures
        final(db).wf(),
        final(db).processes@ == old(db).processes@.push(
            record_of(next_process_id(old(db).processes@) as i32, process),
        ),
        *final(db) == (Database { processes: final(db).processes, ..*old(db) }),
{
    let id: i32 = if db.processes.len() == 0 {
        1
    } else {
        db.processes[db.processes.len() - 1].id + 1
    };
    let new_process = models::Process {
        id,
        name: process.name,
        time: process.time,
        size: process.size,
        state: get_state_number(process.state),
    };
    db.processes.push(new_process);
}

/// Gives the process with the id `id` the name, the time, the size and the
/// state of `process`. Returns the number of records changed: 1, or 0 where
/// the table holds no such process.
pub fn update_process_with_id(db: &mut Database, id: i32, process: &Process) -> (changed: usize)
    requires
        old(db).wf(),
        process.size >= 0,
    ensures
        final(db).wf(),
        *final(db) == (Database { processes: final(db).processes, ..*old(db) }),
        forall|k: int|
            0 <= k < old(db).processes.len() && (#[trigger] old(db).processes[k]).id == id
                ==> changed
                == 1 && final(db).processes@
                    == old(db).processes@.update(k, record_of(id, *process)),
        (forall|k: int| 0 <= k < old(db).processes.len()
            ==> (#[trigger] old(db).processes[k]).id != id)
            ==> changed == 0 && final(db).processes == old(db).processes,
{
    match find_process(db, id) {
        Some(rank) => {
            let updated = models::Process {
                id,
                name: process.name.clone(),
                time: process.time,
                size: process.size,
                state: get_state_number(process.state),
            };
            db.processes.set(rank, updated);
            proof {
                lemma_ids_unique(old(db).processes@, rank as int);
                let after = db.processes@;
                assert forall|i: int, j: int| 0 <= i < j < after.len() implies
                    (#[trigger] after[i]).id < (
                #[trigger] after[j]).id by {
                    assert(after[i].id == old(db).processes@[i].id);
                    assert(after[j].id == old(db).processes@[j].id);
                }
            }
            1
        },
        None => 0,
    }
}

/// In a valid table only one rank holds the id of the process at `rank`.
pub proof fn lemma_ids_unique(processes: Seq<models::Process>, rank: int)
    requires
        processes_valid(processes),
        0 <= rank < processes.len(),
    ensures
        forall|k: int|
            0 <= k < processes.len() && (#[trigger] processes[k]).id == processes[rank].id ==> k
                == rank,
{
    assert forall|k: int|
        0 <= k < processes.len() && (#[trigger] processes[k]).id == processes[rank].id implies k
        == rank by {
        if k < rank {
            assert(processes[k].id < processes[rank].id);
        } else if k > rank {
            assert(processes[rank].id < processes[k].id);
        }
    }
}

/// The process with the id `id`, if the table holds it.
pub fn select_process_with_id(db: &Database, id: i32) -> (process: Option<models::Process>)
    ensures
        match process {
            Some(found) => found.id == id && exists|k: int|
                0 <= k < db.processes.len() && (#[trigger] db.processes[k]) == found,
            None => forall|k: int| 0 <= k < db.processes.len()
                ==> (#[trigger] db.processes[k]).id != id,
        },
{
    match find_process(db, id) {
        Some(rank) => Some(db.processes[rank].duplicate()),
        None => None,
    }
}

/// All processes, in the order of their ids.
pub fn select_all_processes(db: &Database) -> (processes: Vec<models::Process>)
    ensures
        processes@ == db.processes@,
{
    let mut processes: Vec<models::Process> = Vec::new();
    let mut k: usize = 0;
    while k < db.processes.len()
        invariant
            k <= db.processes.len(),
            processes@ == db.processes@.take(k as int),
        decreases db.processes.len() - k,
    {
        processes.push(db.processes[k].duplicate());
        assert(db.processes@.take(k + 1) =~= db.processes@.take(k as int).push(
            db.processes[k as int],
        ));
        k = k + 1;
    }
    assert(db.processes@.take(k as int) =~= db.processes@);
    processes
}

/// The processes in the state with the number `state`, in the order of their
/// ids.
pub fn select_processes_with_state(db: &Database, state: i32) -> (processes: Vec<models::Process>)
    ensures
        processes@ == db.processes@.filter(in_state(state)),
{
    let mut processes: Vec<models::Process> = Vec::new();
    let mut k: usize = 0;
    proof {
        reveal(Seq::filter);
        assert(db.processes@.take(0) =~= Seq::<models::Process>::empty());
    }
    while k < db.processes.len()
        invariant
            k <= db.processes.len(),
            processes@ == db.processes@.take(k as int).filter(in_state(state)),
        decreases db.processes.len() - k,
    {
        proof {
            reveal(Seq::filter);
            assert(db.processes@.take(k + 1).drop_last() =~= db.processes@.take(k as int));
            assert(db.processes@.take(k + 1).last() == db.processes[k as int]);
        }
        if db.processes[k].state == state {
            processes.push(db.processes[k].duplicate());
        }
        k = k + 1;
    }
    assert(db.processes@.take(k as int) =~= db.processes@);
    processes
}

/// Empties the process table. Returns the number of records deleted.
pub fn delete_all_processes(db: &mut Database) -> (deleted: usize)
    requires
        old(db).wf(),
    ensures
        final(db).wf(),
        deleted == old(db).processes.len(),
        final(db).processes@ == Seq::<models::Process>::empty(),
        *final(db) == (Database { processes: final(db).processes, ..*old(db) }),
{
    let deleted = db.processes.len();
    db.processes.clear();
    deleted
}

/// Takes the process with the id `id` out of the table. Returns the number of
/// records deleted: 1, or 0 where the table holds no such process.
pub fn delete_process_with_id(db: &mut Database, id: i32) -> (deleted: usize)
    requires
        old(db).wf(),
    ensures
        final(db).wf(),
        *final(db) == (Database { processes: final(db).processes, ..*old(db) }),
        forall|k: int|
            0 <= k < old(db).processes.len() && (#[trigger] old(db).processes[k]).id == id
                ==> deleted
                == 1 && final(db).processes@ == old(db).processes@.remove(k),
        (forall|k: int| 0 <= k < old(db).processes.len()
            ==> (#[trigger] old(db).processes[k]).id != id)
            ==> deleted == 0 && final(db).processes == old(db).processes,
{
    match find_process(db, id) {
        Some(rank) => {
            db.processes.remove(rank);
            proof {
                lemma_ids_unique(old(db).processes@, rank as int);
                let before = old(db).processes@;
                let after = db.processes@;
                assert forall|k: int| 0 <= k < after.len() implies
                    (#[trigger] after[k]).size >= 0 && 0
                    <= after[k].state <= 3 by {
                    let source = if k < rank { k } else { k + 1 };
                    assert(after[k] == before[source]);
                }
                assert forall|i: int, j: int| 0 <= i < j < after.len() implies
                    (#[trigger] after[i]).id < (
                #[trigger] after[j]).id by {
                    let source_i = if i < rank { i } else { i + 1 };
                    let source_j = if j < rank { j } else { j + 1 };
                    assert(after[i] == before[source_i]);
                    assert(after[j] == before[source_j]);
                }
            }
            1
        },
        None => 0,
    }
}

/// The time of the sample process of rank `rank`.
pub open spec fn sample_time(rank: int) -> i32 {
    if rank == 0 {
        20
    } else if rank == 1 {
        6
    } else if rank == 2 {
        18
    } else if rank == 3 {
        4
    } else if rank == 4 {
        3
    } else if rank == 5 {
        12
    } else if rank == 6 {
        14
    } else if rank == 7 {
        8
    } else if rank == 8 {
        9
    } else {
        10
    }
}

/// The size of the sample process of rank `rank`.
pub open spec fn sample_size(rank: int) -> i32 {
    if rank == 0 {
        10
    } else if rank == 1 {
        4
    } else if rank == 2 {
        9
    } else if rank == 3 {
        20
    } else if rank == 4 {
        10
    } else if rank == 5 {
        18
    } else if rank == 6 {
        17
    } else if rank == 7 {
        16
    } else if rank == 8 {
        1
    } else {
        50
    }
}

/// The name of the sample process of rank `rank`.
pub open spec fn sample_name(rank: int) -> Seq<char> {
    if rank == 0 {
        "P1"@
    } else if rank == 1 {
        "P2"@
    } else if rank == 2 {
        "P3"@
    } else if rank == 3 {
        "P4"@
    } else if rank == 4 {
        "P5"@
    } else if rank == 5 {
        "P6"@
    } else if rank == 6 {
        "P7"@
    } else if rank == 7 {
        "P8"@
    } else if rank == 8 {
        "P9"@
    } else {
        "P10"@
    }
}

/// Puts a new ready process with the given name, time and size into the
/// table.
fn create_sample(db: &mut Database, name: &str, time: i32, size: i32)
    requires
        old(db).wf(),
        size >= 0,
        next_process_id(old(db).processes@) <= i32::MAX,
    ensures
        final(db).wf(),
        final(db).processes@.len() == old(db).processes@.len() + 1,
        final(db).processes@.drop_last() == old(db).processes@,
        final(db).processes@.last().id == next_process_id(old(db).processes@),
        final(db).processes@.last().name@ == name@,
        final(db).processes@.last().time == time,
        final(db).processes@.last().size == size,
        final(db).processes@.last().state == 0,
        *final(db) == (Database { processes: final(db).processes, ..*old(db) }),
{
    create_process(db, Process::new(name.to_owned(), time, size));
    proof {
        assert(db.processes@.drop_last() =~= old(db).processes@);
    }
}

/// Puts ten sample processes into the table, ready to run.
pub fn init_processes(db: &mut Database)
    requires
        old(db).wf(),
        next_process_id(old(db).processes@) + 9 <= i32::MAX,
    ensures
        final(db).wf(),
        final(db).processes@.len() == old(db).processes@.len() + 10,
        final(db).processes@.take(old(db).processes@.len() as int) == old(db).processes@,
        forall|rank: int|
            0 <= rank < 10 ==> {
                let process = #[trigger] final(db).processes@[old(db).processes@.len() + rank];
                &&& process.id == next_process_id(old(db).processes@) + rank
                &&& process.name@ == sample_name(rank)
                &&& process.time == sample_time(rank)
                &&& process.size == sample_size(rank)
                &&& process.state == 0
            },
        *final(db) == (Database { processes: final(db).processes, ..*old(db) }),
{
    let ghost before = db.processes@;
    let ghost first = next_process_id(before);
    create_sample(db, "P1", 20, 10);
    let ghost one = db.processes@;
    create_sample(db, "P2", 6, 4);
    let ghost two = db.processes@;
    create_sample(db, "P3", 18, 9);
    let ghost three = db.processes@;
    create_sample(db, "P4", 4, 20);
    let ghost four = db.processes@;
    create_sample(db, "P5", 3, 10);
    let ghost five = db.processes@;
    create_sample(db, "P6", 12, 18);
    let ghost six = db.processes@;
    create_sample(db, "P7", 14, 17);
    let ghost seven = db.processes@;
    create_sample(db, "P8", 8, 16);
    let ghost eight = db.processes@;
    create_sample(db, "P9", 9, 1);
    let ghost nine = db.processes@;
    create_sample(db, "P10", 10, 50);
    let ghost ten = db.processes@;
    proof {
        let n = before.len() as int;
        assert(nine == ten.drop_last());
        assert(eight == nine.drop_last());
        assert(seven == eight.drop_last());
        assert(six == seven.drop_last());
        assert(five == six.drop_last());
        assert(four == five.drop_last());
        assert(three == four.drop_last());
        assert(two == three.drop_last());
        assert(one == two.drop_last());
        assert(before == one.drop_last());
        assert(ten[n + 9] == ten.last());
        assert(ten[n + 8] == nine.last());
        assert(ten[n + 7] == eight.last());
        assert(ten[n + 6] == seven.last());
        assert(ten[n + 5] == six.last());
        assert(ten[n + 4] == five.last());
        assert(ten[n + 3] == four.last());
        assert(ten[n + 2] == three.last());
        assert(ten[n + 1] == two.last());
        assert(ten[n] == one.last());
        assert(ten.take(n) =~= before);
    }
}

} // verus!
