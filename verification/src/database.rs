//! The tables the simulation works on, held in memory.

pub mod allocation;
pub mod compaction;
pub mod condensation;
pub mod configuration;
pub mod layout;
pub mod logs;
pub mod models;
pub mod processes;
pub mod statements;
pub mod validity;

use crate::database::configuration::Settings;
use crate::database::layout::{
    arranged, block_of, free_block, keyed, layout, lemma_keyed_insert, lemma_keyed_remove,
    lemma_layout_insert, lemma_layout_remove, lemma_offset_bounded, lemma_offset_step,
    lemma_pool_insert, lemma_pool_move, lemma_pool_remove, lemma_table_bounds,
    lemma_total_size_insert, lemma_total_size_remove, moved, offset_of, pool_valid, sizes_valid,
    table_valid, total_size, Block, Slot,
};
use crate::database::models::{
    NewCompactionLog, NewCondensationLog, NewFinishedProcess, NewProcessLog,
    NewStoragePartitionLog, Process, StoragePartition,
};
use vstd::prelude::*;

verus! {

/// The tables.
///
/// `storage_partitions` is the pool, lowest offset first, each partition with
/// the id of the process bound to it. `iteration` is the id of the latest
/// tick, 0 before the first. The other vectors hold the records in the order
/// in which they were written.
pub struct Database {
    pub configuration: Settings,
    pub processes: Vec<Process>,
    pub storage_partitions: Vec<Slot>,
    pub finished_processes: Vec<NewFinishedProcess>,
    pub iteration: i32,
    pub storage_partition_logs: Vec<NewStoragePartitionLog>,
    pub process_logs: Vec<NewProcessLog>,
    pub compaction_logs: Vec<NewCompactionLog>,
    pub condensation_logs: Vec<NewCondensationLog>,
}

/// The tables as mathematics: the pool as blocks, every other table as the
/// sequence of its records.
pub struct Tables {
    pub configuration: Settings,
    pub processes: Seq<Process>,
    pub pool: Seq<Block>,
    pub finished_processes: Seq<NewFinishedProcess>,
    pub iteration: i32,
    pub storage_partition_logs: Seq<NewStoragePartitionLog>,
    pub process_logs: Seq<NewProcessLog>,
    pub compaction_logs: Seq<NewCompactionLog>,
    pub condensation_logs: Seq<NewCondensationLog>,
}

impl Tables {
    /// The sequence number that the next new partition gets.
    pub open spec fn next_number(self) -> int {
        self.configuration.partition_consecutive_number as int
    }

    /// The capacity of the pool.
    pub open spec fn capacity(self) -> int {
        self.configuration.memory_size->0 as int
    }

    /// The pool fits into the capacity that is set.
    pub open spec fn within_capacity(self) -> bool {
        self.configuration.memory_size matches Some(capacity) && total_size(self.pool) <= capacity
    }

}

impl View for Database {
    type V = Tables;

    open spec fn view(&self) -> Tables {
        Tables {
            configuration: self.configuration,
            processes: self.processes@,
            pool: self.layout(),
            finished_processes: self.finished_processes@,
            iteration: self.iteration,
            storage_partition_logs: self.storage_partition_logs@,
            process_logs: self.process_logs@,
            compaction_logs: self.compaction_logs@,
            condensation_logs: self.condensation_logs@,
        }
    }
}

/// The process table is valid: ids grow along the table, no size is negative,
/// and every state is the number of a lifecycle state.
pub open spec fn processes_valid(processes: Seq<Process>) -> bool {
    &&& forall|i: int, j: int|
        0 <= i < j < processes.len() ==> (#[trigger] processes[i]).id < (#[trigger] processes[j]).id
    &&& forall|k: int|
        0 <= k < processes.len() ==> (#[trigger] processes[k]).size >= 0 && 0
            <= processes[k].state <= 3
}

impl Database {
    /// The pool as a sequence of blocks.
    pub open spec fn layout(&self) -> Seq<Block> {
        layout(self.storage_partitions@)
    }

    /// The sequence number that the next new partition gets.
    pub open spec fn next_number(&self) -> int {
        self.configuration.partition_consecutive_number as int
    }

    /// The memory that the partitions of the pool take up.
    pub open spec fn used_memory(&self) -> int {
        total_size(self.layout())
    }

    /// The tables are valid.
    pub open spec fn wf(&self) -> bool {
        &&& table_valid(self.storage_partitions@, self.next_number())
        &&& processes_valid(self.processes@)
        &&& self.iteration >= 0
    }

    /// The pool fits into the capacity that is set.
    pub open spec fn within_capacity(&self) -> bool {
        self.configuration.memory_size matches Some(capacity) && self.used_memory() <= capacity
    }

    /// Empty tables and initial settings.
    pub fn new() -> (db: Database)
        ensures
            db.wf(),
            db@ == (Tables {
                configuration: configuration::initial_settings(),
                processes: Seq::empty(),
                pool: Seq::empty(),
                finished_processes: Seq::empty(),
                iteration: 0,
                storage_partition_logs: Seq::empty(),
                process_logs: Seq::empty(),
                compaction_logs: Seq::empty(),
                condensation_logs: Seq::empty(),
            }),
    {
        proof {
            reveal(table_valid);
        }
        let db = Database {
            configuration: Settings {
                memory_size: None,
                partition_consecutive_number: 1,
                compactions: 0,
                condensations: 0,
            },
            processes: Vec::new(),
            storage_partitions: Vec::new(),
            finished_processes: Vec::new(),
            iteration: 0,
            storage_partition_logs: Vec::new(),
            process_logs: Vec::new(),
            compaction_logs: Vec::new(),
            condensation_logs: Vec::new(),
        };
        proof {
            assert(db.layout() =~= Seq::<Block>::empty());
            assert(db.processes@ =~= Seq::<Process>::empty());
            assert(db.finished_processes@ =~= Seq::<NewFinishedProcess>::empty());
            assert(db.storage_partition_logs@ =~= Seq::<NewStoragePartitionLog>::empty());
            assert(db.process_logs@ =~= Seq::<NewProcessLog>::empty());
            assert(db.compaction_logs@ =~= Seq::<NewCompactionLog>::empty());
            assert(db.condensation_logs@ =~= Seq::<NewCondensationLog>::empty());
        }
        db
    }
}

/// Writes into every entry the rank and the offsets that its place gives it.
fn reindex(slots: &mut Vec<Slot>)
    requires
        old(slots).len() <= i32::MAX + 1,
        sizes_valid(layout(old(slots)@)),
        total_size(layout(old(slots)@)) <= i32::MAX,
        keyed(old(slots)@),
    ensures
        layout(final(slots)@) == layout(old(slots)@),
        arranged(final(slots)@),
        keyed(final(slots)@),
{
    let ghost blocks = layout(slots@);
    let mut start: i32 = 0;
    let mut k: usize = 0;
    proof {
        assert(blocks.take(0) =~= Seq::<Block>::empty());
    }
    while k < slots.len()
        invariant
            k <= slots.len() <= i32::MAX + 1,
            layout(slots@) == blocks,
            sizes_valid(blocks),
            total_size(blocks) <= i32::MAX,
            start == offset_of(blocks, k as int),
            keyed(slots@),
            forall|j: int|
                0 <= j < k ==> {
                    &&& (#[trigger] slots[j]).0.position == j
                    &&& slots[j].0.position_start == offset_of(blocks, j)
                    &&& slots[j].0.position_end == offset_of(blocks, j) + slots[j].0.size
                },
        decreases slots.len() - k,
    {
        let slot = slots[k];
        proof {
            assert(blocks[k as int] == block_of(slot));
            lemma_offset_step(blocks, k as int);
            lemma_offset_bounded(blocks, k as int + 1);
        }
        let end: i32 = start + slot.0.size;
        let ghost before = slots@;
        slots.set(
            k,
            (
                StoragePartition {
                    id: slot.0.id,
                    number: slot.0.number,
                    position: k as i32,
                    position_start: start,
                    position_end: end,
                    size: slot.0.size,
                },
                slot.1,
            ),
        );
        proof {
            assert(layout(slots@) =~= blocks) by {
                assert forall|j: int| 0 <= j < slots.len() implies
                    block_of(slots[j]) == blocks[j] by {
                    if j != k {
                        assert(slots[j] == before[j]);
                        assert(blocks[j] == block_of(before[j]));
                    }
                }
            }
            assert forall|j: int| 0 <= j < slots.len() implies (#[trigger] slots[j]).0.id
                == slots[j].0.number by {
                if j != k {
                    assert(slots[j] == before[j]);
                }
            }
        }
        start = end;
        k = k + 1;
    }
}

/// Makes a table whose pool is valid a valid table, by writing ranks and
/// offsets anew.
fn settle(db: &mut Database)
    requires
        pool_valid(old(db).layout(), old(db).next_number()),
        keyed(old(db).storage_partitions@),
        old(db).storage_partitions.len() <= i32::MAX + 1,
        old(db).used_memory() <= i32::MAX,
        processes_valid(old(db).processes@),
        old(db).iteration >= 0,
    ensures
        final(db).wf(),
        final(db).layout() == old(db).layout(),
        *final(db) == (Database { storage_partitions: final(db).storage_partitions, ..*old(db) }),
{
    reindex(&mut db.storage_partitions);
    proof {
        reveal(table_valid);
    }
}

/// Gives the partition at rank `rank` the occupant `process`, or none.
pub(crate) fn rebind(db: &mut Database, rank: usize, process: Option<i32>)
    requires
        old(db).wf(),
        rank < old(db).storage_partitions.len(),
        process matches Some(process_id) ==> !layout::is_resident(
            old(db).layout(),
            process_id as int,
        ),
    ensures
        final(db).wf(),
        final(db).layout() == old(db).layout().update(
            rank as int,
            layout::rebound(
                old(db).layout()[rank as int],
                match process {
                    Some(process_id) => Some(process_id as int),
                    None => None,
                },
            ),
        ),
        final(db).used_memory() == old(db).used_memory(),
        *final(db) == (Database { storage_partitions: final(db).storage_partitions, ..*old(db) }),
{
    proof {
        layout::lemma_table_rebind(db.storage_partitions@, db.next_number(), rank as int, process);
        layout::lemma_total_size_update(
            db.layout(),
            rank as int,
            layout::rebound(
                db.layout()[rank as int],
                match process {
                    Some(process_id) => Some(process_id as int),
                    None => None,
                },
            ),
        );
    }
    let partition = db.storage_partitions[rank].0;
    db.storage_partitions.set(rank, (partition, process));
}

/// The rank of the partition with the id `id`, if the pool holds it.
pub(crate) fn find_storage_partition(db: &Database, id: i32) -> (rank: Option<usize>)
    requires
        db.wf(),
    ensures
        match rank {
            Some(k) => k < db.storage_partitions.len() && db.layout()[k as int].number == id,
            None => forall|k: int|
                0 <= k < db.layout().len() ==> (#[trigger] db.layout()[k]).number != id,
        },
        forall|k: int|
            0 <= k < db.layout().len() && (#[trigger] db.layout()[k]).number == id ==> rank
                == Some(k as usize),
{
    proof {
        lemma_table_bounds(db.storage_partitions@, db.next_number());
    }
    let mut k: usize = 0;
    while k < db.storage_partitions.len()
        invariant
            k <= db.storage_partitions.len(),
            keyed(db.storage_partitions@),
            pool_valid(db.layout(), db.next_number()),
            forall|j: int| 0 <= j < k ==> (#[trigger] db.layout()[j]).number != id,
        decreases db.storage_partitions.len() - k,
    {
        if db.storage_partitions[k].0.id == id {
            proof {
                assert(db.layout()[k as int] == block_of(db.storage_partitions[k as int]));
                assert forall|j: int|
                    0 <= j < db.layout().len() && (#[trigger] db.layout()[j]).number
                        == id implies j == k by {
                    if j < k {
                    } else if j > k {
                        assert(db.layout()[k as int].number != db.layout()[j].number);
                    }
                }
            }
            return Some(k);
        }
        proof {
            assert(db.layout()[k as int] == block_of(db.storage_partitions[k as int]));
        }
        k = k + 1;
    }
    None
}

/// Puts a new free partition of `size` into the pool at rank `position`. It
/// gets the next sequence number, and the partitions from `position` on move
/// one rank up.
pub fn create_storage_partition_with_position(db: &mut Database, position: i32, size: i32)
    requires
        old(db).wf(),
        0 <= position <= old(db).storage_partitions.len(),
        size >= 0,
        old(db).storage_partitions.len() <= i32::MAX,
        old(db).used_memory() + size <= i32::MAX,
        old(db).next_number() < i32::MAX,
    ensures
        final(db).wf(),
        final(db).layout() == old(db).layout().insert(
            position as int,
            free_block(old(db).next_number(), size as int),
        ),
        final(db).used_memory() == old(db).used_memory() + size,
        *final(db) == (Database {
            storage_partitions: final(db).storage_partitions,
            configuration: Settings {
                partition_consecutive_number: (old(db).next_number() + 1) as i32,
                ..old(db).configuration
            },
            ..*old(db)
        }),
{
    let new_partition = models::NewStoragePartition {
        number: configuration::get_partition_consecutive_number(db),
        position,
        position_start: 0,
        position_end: size,
        size,
    };
    let number = new_partition.number;
    let slot: Slot = (
        StoragePartition {
            id: new_partition.number,
            number: new_partition.number,
            position: new_partition.position,
            position_start: new_partition.position_start,
            position_end: new_partition.position_end,
            size: new_partition.size,
        },
        None,
    );
    proof {
        lemma_table_bounds(db.storage_partitions@, db.next_number());
        lemma_layout_insert(db.storage_partitions@, position as int, slot);
        lemma_total_size_insert(db.layout(), position as int, block_of(slot));
        lemma_pool_insert(db.layout(), position as int, block_of(slot), number as int, number + 1);
        lemma_keyed_insert(db.storage_partitions@, position as int, slot);
    }
    db.storage_partitions.insert(position as usize, slot);
    // Now that a new partition has been created, move on to the next number.
    configuration::increment_partition_consecutive_number(db);
    settle(db);
}

/// Takes the partition with the id `id` out of the pool, whoever occupies it.
/// The partitions behind it move one rank down. Without such a partition
/// nothing changes.
pub fn delete_storage_partition_with_id(db: &mut Database, id: i32)
    requires
        old(db).wf(),
    ensures
        final(db).wf(),
        *final(db) == (Database { storage_partitions: final(db).storage_partitions, ..*old(db) }),
        forall|k: int|
            0 <= k < old(db).layout().len() && (#[trigger] old(db).layout()[k]).number == id
                ==> final(db).layout() == old(db).layout().remove(k) && final(db).used_memory()
                == old(db).used_memory() - old(db).layout()[k].size,
        (forall|k: int|
            0 <= k < old(db).layout().len() ==> (#[trigger] old(db).layout()[k]).number != id)
            ==> final(db).storage_partitions == old(db).storage_partitions,
{
    match find_storage_partition(db, id) {
        Some(rank) => {
            proof {
                lemma_table_bounds(db.storage_partitions@, db.next_number());
                lemma_layout_remove(db.storage_partitions@, rank as int);
                lemma_total_size_remove(db.layout(), rank as int);
                lemma_pool_remove(db.layout(), rank as int, db.next_number());
                lemma_keyed_remove(db.storage_partitions@, rank as int);
            }
            db.storage_partitions.remove(rank);
            settle(db);
        },
        None => {},
    }
}

/// Moves the partition with the id `id` to rank `position`. The partitions
/// between its old and its new rank move one rank towards the old one, and
/// every offset follows. Without such a partition nothing changes.
pub fn update_storage_partition_position(db: &mut Database, id: i32, position: i32)
    requires
        old(db).wf(),
        0 <= position,
        position < old(db).storage_partitions.len() || forall|k: int|
            0 <= k < old(db).layout().len() ==> (#[trigger] old(db).layout()[k]).number != id,
    ensures
        final(db).wf(),
        *final(db) == (Database { storage_partitions: final(db).storage_partitions, ..*old(db) }),
        forall|k: int|
            0 <= k < old(db).layout().len() && (#[trigger] old(db).layout()[k]).number == id
                ==> final(db).layout() == moved(old(db).layout(), k, position as int),
        final(db).used_memory() == old(db).used_memory(),
        (forall|k: int|
            0 <= k < old(db).layout().len() ==> (#[trigger] old(db).layout()[k]).number != id)
            ==> final(db).storage_partitions == old(db).storage_partitions,
{
    match find_storage_partition(db, id) {
        Some(rank) => {
            proof {
                let slots = db.storage_partitions@;
                lemma_table_bounds(slots, db.next_number());
                lemma_layout_remove(slots, rank as int);
                lemma_layout_insert(slots.remove(rank as int), position as int, slots[rank as int]);
                lemma_keyed_remove(slots, rank as int);
                lemma_keyed_insert(slots.remove(rank as int), position as int, slots[rank as int]);
                lemma_pool_move(db.layout(), rank as int, position as int, db.next_number());
                assert(db.layout()[rank as int] == block_of(slots[rank as int]));
            }
            let slot = db.storage_partitions.remove(rank);
            db.storage_partitions.insert(position as usize, slot);
            settle(db);
        },
        None => {},
    }
}

/// The partition with the id `id`.
pub fn select_storage_partition_with_id(db: &Database, id: i32) -> (partition: StoragePartition)
    requires
        db.wf(),
        exists|k: int| 0 <= k < db.layout().len() && (#[trigger] db.layout()[k]).number == id,
    ensures
        partition.id == id,
        exists|k: int|
            0 <= k < db.storage_partitions.len() && (#[trigger] db.storage_partitions[k]).0
                == partition,
{
    let rank = find_storage_partition(db, id);
    proof {
        lemma_table_bounds(db.storage_partitions@, db.next_number());
        let k = rank.unwrap() as int;
        assert(db.layout()[k] == block_of(db.storage_partitions[k]));
    }
    db.storage_partitions[rank.unwrap()].0
}

/// The partitions of the pool, lowest offset first.
pub fn select_all_storage_partitions(db: &Database) -> (partitions: Vec<StoragePartition>)
    ensures
        partitions@ == db.storage_partitions@.map_values(|slot: Slot| slot.0),
{
    let mut partitions: Vec<StoragePartition> = Vec::new();
    let mut k: usize = 0;
    while k < db.storage_partitions.len()
        invariant
            k <= db.storage_partitions.len(),
            partitions@ == db.storage_partitions@.take(k as int).map_values(|slot: Slot| slot.0),
        decreases db.storage_partitions.len() - k,
    {
        partitions.push(db.storage_partitions[k].0);
        assert(db.storage_partitions@.take(k + 1).map_values(|slot: Slot| slot.0)
            =~= db.storage_partitions@.take(k as int).map_values(|slot: Slot| slot.0).push(
            db.storage_partitions[k as int].0,
        ));
        k = k + 1;
    }
    assert(db.storage_partitions@.take(k as int) =~= db.storage_partitions@);
    partitions
}

/// The capacity that the pool has when a simulation starts.
pub const INITIAL_MEMORY_SIZE: i32 = 50;

/// The settings with which a simulation starts.
pub open spec fn starting_settings() -> Settings {
    Settings {
        memory_size: Some(INITIAL_MEMORY_SIZE),
        partition_consecutive_number: 1,
        compactions: 0,
        condensations: 0,
    }
}

/// Puts the settings back to what a simulation starts with: what the user
/// has set is forgotten, the counters start anew, and the capacity is
/// `INITIAL_MEMORY_SIZE`.
pub fn init_configuration(db: &mut Database)
    ensures
        *final(db) == (Database { configuration: starting_settings(), ..*old(db) }),
        old(db).wf() && old(db).layout().len() == 0 ==> final(db).wf(),
{
    // Reset previous configuration set by the user.
    configuration::reset_configuration(db);
    // Set base memory size.
    configuration::set_memory_size(db, INITIAL_MEMORY_SIZE);
}

/// Empties every table but the process table and the settings.
pub fn clear_database(db: &mut Database)
    requires
        old(db).wf(),
    ensures
        final(db).wf(),
        final(db)@ == (Tables {
            configuration: old(db).configuration,
            processes: old(db).processes@,
            pool: Seq::empty(),
            finished_processes: Seq::empty(),
            iteration: 0,
            storage_partition_logs: Seq::empty(),
            process_logs: Seq::empty(),
            compaction_logs: Seq::empty(),
            condensation_logs: Seq::empty(),
        }),
        final(db).processes == old(db).processes,
{
    // Remove everything but the processes, as these can be useful.
    logs::delete_all_iteration_logs(db);
    logs::delete_all_processes_logs(db);
    allocation::delete_all_processes_partitions(db);
    allocation::delete_all_storage_partitions(db);
    logs::delete_all_storage_partitions_logs(db);
    logs::delete_all_finished_processes(db);
    logs::delete_all_condensations_logs(db);
    logs::delete_all_compactions_logs(db);
}

/// In valid tables the partitions lie side by side: the ranks are 0, 1, 2
/// and so on without a gap, the first partition starts at offset 0, every
/// other one starts where the one before it ends, and every partition ends
/// its size behind its start.
pub proof fn lemma_partitions_contiguous(db: Database)
    requires
        db.wf(),
    ensures
        forall|p: int|
            0 <= p < db.storage_partitions.len() ==> {
                &&& (#[trigger] db.storage_partitions[p]).0.position == p
                &&& db.storage_partitions[p].0.position_start == if p == 0 {
                    0
                } else {
                    db.storage_partitions[p - 1].0.position_end as int
                }
                &&& db.storage_partitions[p].0.position_end
                    == db.storage_partitions[p].0.position_start + db.storage_partitions[p].0.size
            },
{
    layout::lemma_table_contiguous(db.storage_partitions@, db.next_number());
}

/// The view says all there is to say about valid tables: two valid sets of
/// tables with the same view hold the same partitions, with the same ranks,
/// offsets and occupants, and the same records in every other table.
pub proof fn lemma_view_determines(first: Database, second: Database)
    requires
        first.wf(),
        second.wf(),
        first@ == second@,
    ensures
        first.storage_partitions@ == second.storage_partitions@,
        first.processes@ == second.processes@,
        first.configuration == second.configuration,
        first.iteration == second.iteration,
        first.finished_processes@ == second.finished_processes@,
        first.storage_partition_logs@ == second.storage_partition_logs@,
        first.process_logs@ == second.process_logs@,
        first.compaction_logs@ == second.compaction_logs@,
        first.condensation_logs@ == second.condensation_logs@,
{
    reveal(table_valid);
    layout::lemma_table_determined(first.storage_partitions@, second.storage_partitions@);
}

} // verus!
