//! Admission: ready processes enter the pool by first fit.
//!
//! A process takes the first free partition of exactly its size. Failing
//! that, the first free partition that is larger is split in two, and the
//! process takes the first part. Failing that, the pool grows by a partition
//! of the process's size, if the capacity allows it. Otherwise the process
//! waits.

use crate::database::layout::{
    block_of, free_block, is_resident, layout, lemma_offset_step, lemma_table_bounds,
    lemma_table_entry, lemma_total_size_concat, lemma_total_size_insert, lemma_total_size_remove,
    lemma_total_size_update, offset_of, pool_valid, table_valid, total_size, Block, Slot,
};
use crate::database::models::{Process, ProcessPartition, StoragePartition};
use crate::database::statements::{
    select_all_storage_partitions_and_process_partitions, select_last_storage_partition,
    select_storage_partition_with_position,
};
use crate::database::processes::{in_state, select_processes_with_state};
use crate::database::{
    configuration, create_storage_partition_with_position, delete_storage_partition_with_id,
    find_storage_partition, rebind, select_all_storage_partitions, Database,
};
use vstd::prelude::*;

verus! {

/// A process of `size` fits into `block`: the block is free and, where
/// `exactly` is set, of that very size, and else larger.
pub open spec fn fits(block: Block, size: int, exactly: bool) -> bool {
    block.is_free() && if exactly {
        block.size == size
    } else {
        block.size > size
    }
}

/// The rank of the first block at or above rank `from` into which a process
/// of `size` fits, or the length of the pool where it fits into none.
pub open spec fn first_fit(blocks: Seq<Block>, size: int, exactly: bool, from: int) -> int
    decreases blocks.len() - from,
{
    if from < 0 || from >= blocks.len() {
        blocks.len() as int
    } else if fits(blocks[from], size, exactly) {
        from
    } else {
        first_fit(blocks, size, exactly, from + 1)
    }
}

/// The pool after the free block of rank `rank` is split into a block of
/// `size`, numbered `number`, and a block of what is left, numbered
/// `number + 1`.
pub open spec fn split(blocks: Seq<Block>, rank: int, size: int, number: int) -> Seq<Block> {
    blocks.take(rank) + seq![
        free_block(number, size),
        free_block(number + 1, blocks[rank].size - size),
    ] + blocks.skip(rank + 1)
}

/// Room for a process: the pool, the rank of the free block that is to take
/// the process, if there is one, and the number of partitions that were
/// created to get there.
pub struct Room {
    pub pool: Seq<Block>,
    pub rank: Option<int>,
    pub created: int,
}

/// The room that the free blocks of the pool give to a process of `size`: the
/// first block of exactly that size as it is; failing that, the first part of
/// the first larger block, split; failing that, none.
pub open spec fn reuse(blocks: Seq<Block>, size: int, number: int) -> Room {
    let exact = first_fit(blocks, size, true, 0);
    let larger = first_fit(blocks, size, false, 0);
    if exact < blocks.len() {
        Room { pool: blocks, rank: Some(exact), created: 0 }
    } else if larger < blocks.len() {
        Room { pool: split(blocks, larger, size, number), rank: Some(larger), created: 2 }
    } else {
        Room { pool: blocks, rank: None, created: 0 }
    }
}

/// The pool with one more free block of `size` at its high end, if the
/// capacity allows it.
pub open spec fn extend(blocks: Seq<Block>, size: int, number: int, capacity: int) -> Room {
    if total_size(blocks) + size <= capacity {
        Room {
            pool: blocks.push(free_block(number, size)),
            rank: Some(blocks.len() as int),
            created: 1,
        }
    } else {
        Room { pool: blocks, rank: None, created: 0 }
    }
}

/// The room that the pool gives to a process of `size`: what its free blocks
/// give, and failing that, what an extension gives.
pub open spec fn make_room(blocks: Seq<Block>, size: int, number: int, capacity: int) -> Room {
    if reuse(blocks, size, number).rank is Some {
        reuse(blocks, size, number)
    } else {
        extend(blocks, size, number, capacity)
    }
}

/// The first fit stands at or above the rank the search starts from, the
/// process fits into it, and into no block between the two.
pub proof fn lemma_first_fit(blocks: Seq<Block>, size: int, exactly: bool, from: int)
    requires
        0 <= from <= blocks.len(),
    ensures
        from <= first_fit(blocks, size, exactly, from) <= blocks.len(),
        first_fit(blocks, size, exactly, from) < blocks.len() ==> fits(
            blocks[first_fit(blocks, size, exactly, from)],
            size,
            exactly,
        ),
        forall|k: int|
            from <= k < first_fit(blocks, size, exactly, from) ==> !fits(
                #[trigger] blocks[k],
                size,
                exactly,
            ),
    decreases blocks.len() - from,
{
    if from < blocks.len() && !fits(blocks[from], size, exactly) {
        lemma_first_fit(blocks, size, exactly, from + 1);
    }
}

/// The rank of the first partition into which a process of `size` fits,
/// exactly or loosely.
fn find_fit(slots: &Vec<Slot>, size: i32, exactly: bool) -> (rank: Option<usize>)
    ensures
        match rank {
            Some(k) => k < slots.len() && first_fit(layout(slots@), size as int, exactly, 0) == k,
            None => first_fit(layout(slots@), size as int, exactly, 0) == slots.len(),
        },
{
    let ghost blocks = layout(slots@);
    let mut i: usize = 0;
    while i < slots.len()
        invariant
            i <= slots.len(),
            blocks == layout(slots@),
            first_fit(blocks, size as int, exactly, 0) == first_fit(
                blocks,
                size as int,
                exactly,
                i as int,
            ),
        decreases slots.len() - i,
    {
        proof {
            assert(blocks[i as int] == block_of(slots[i as int]));
        }
        // Then the process might enter here.
        if slots[i].1.is_none() {
            let enters = if exactly {
                slots[i].0.size == size
            } else {
                slots[i].0.size > size
            };
            if enters {
                return Some(i);
            }
        }
        i = i + 1;
    }
    None
}

/// A pool of `length` partitions and the next sequence number `next_number`
/// fit the integers that hold ranks and sequence numbers.
pub open spec fn representable(length: nat, next_number: int) -> bool {
    length <= i32::MAX + 1 && next_number <= i32::MAX
}

impl Database {
    /// The capacity of the pool.
    pub open spec fn capacity(&self) -> int {
        self.configuration.memory_size->0 as int
    }
}

/// Finds room for a process of `process_size` among the free partitions: the
/// first one of exactly that size, as it is; failing that, the first larger
/// one, which is replaced by a partition of `process_size` and a partition of
/// what is left. Returns the partition that is to take the process, still
/// free, or nothing where no free partition is large enough.
pub fn get_empty_storage_partition(db: &mut Database, process_size: i32) -> (partition: Option<
    StoragePartition,
>)
    requires
        old(db).wf(),
        process_size >= 0,
        representable(
            reuse(old(db).layout(), process_size as int, old(db).next_number()).pool.len(),
            old(db).next_number() + reuse(
                old(db).layout(),
                process_size as int,
                old(db).next_number(),
            ).created,
        ),
    ensures
        final(db).wf(),
        final(db).layout() == reuse(
            old(db).layout(),
            process_size as int,
            old(db).next_number(),
        ).pool,
        match partition {
            Some(found) => {
                &&& reuse(old(db).layout(), process_size as int, old(db).next_number()).rank
                    == Some(found.position as int)
                &&& 0 <= found.position < final(db).storage_partitions.len()
                &&& found == final(db).storage_partitions[found.position as int].0
                &&& final(db).layout()[found.position as int].is_free()
                &&& found.size == process_size
            },
            None => reuse(old(db).layout(), process_size as int, old(db).next_number()).rank
                is None,
        },
        final(db).used_memory() == old(db).used_memory(),
        *final(db) == (Database {
            storage_partitions: final(db).storage_partitions,
            configuration: configuration::Settings {
                partition_consecutive_number: (old(db).next_number() + reuse(
                    old(db).layout(),
                    process_size as int,
                    old(db).next_number(),
                ).created) as i32,
                ..old(db).configuration
            },
            ..*old(db)
        }),
{
    let storage_partitions = select_all_storage_partitions_and_process_partitions(db);
    let ghost blocks = db.layout();
    proof {
        lemma_first_fit(blocks, process_size as int, true, 0);
        lemma_first_fit(blocks, process_size as int, false, 0);
        lemma_table_bounds(db.storage_partitions@, db.next_number());
    }
    // A free partition of the same size as the process is taken as it is.
    match find_fit(&storage_partitions, process_size, true) {
        Some(i) => {
            proof {
                lemma_table_entry(db.storage_partitions@, db.next_number(), i as int);
            }
            return Some(storage_partitions[i].0);
        },
        None => {},
    }
    // A free partition that is larger than the process has to be replaced.
    match find_fit(&storage_partitions, process_size, false) {
        Some(i) => {
            let found = storage_partitions[i].0;
            proof {
                lemma_table_entry(db.storage_partitions@, db.next_number(), i as int);
                lemma_total_size_remove(blocks, i as int);
                lemma_total_size_insert(
                    blocks.remove(i as int),
                    i as int,
                    free_block(db.next_number(), process_size as int),
                );
            }
            // Delete the current partition.
            delete_storage_partition_with_id(db, found.id);
            // Create a new partition only for the process to fit in.
            create_storage_partition_with_position(db, found.position, process_size);
            // Next to it create a new one with the remaining space.
            create_storage_partition_with_position(
                db,
                found.position + 1,
                found.size - process_size,
            );
            proof {
                assert(db.layout() =~= split(
                    blocks,
                    i as int,
                    process_size as int,
                    old(db).next_number(),
                ));
                lemma_table_entry(db.storage_partitions@, db.next_number(), i as int);
            }
            // Return the new partition for the process to fit in.
            Some(select_storage_partition_with_position(db, found.position))
        },
        None => None,
    }
}

/// Whether the capacity allows one more partition of `size`.
pub fn can_create_storage_partition(db: &Database, size: i32) -> (allowed: bool)
    requires
        db.wf(),
        db.configuration.memory_size is Some,
    ensures
        allowed == (db.used_memory() + size <= db.capacity()),
{
    let partitions = select_all_storage_partitions(db);
    let ghost blocks = db.layout();
    let mut used_memory: i32 = 0;
    let mut k: usize = 0;
    proof {
        lemma_table_bounds(db.storage_partitions@, db.next_number());
        assert(blocks.take(0) =~= Seq::<Block>::empty());
    }
    while k < partitions.len()
        invariant
            k <= partitions.len(),
            partitions@ == db.storage_partitions@.map_values(|slot: Slot| slot.0),
            blocks == db.layout(),
            crate::database::layout::sizes_valid(blocks),
            total_size(blocks) <= i32::MAX,
            used_memory == offset_of(blocks, k as int),
        decreases partitions.len() - k,
    {
        proof {
            lemma_offset_step(blocks, k as int);
            crate::database::layout::lemma_offset_bounded(blocks, k + 1);
            assert(blocks[k as int] == block_of(db.storage_partitions[k as int]));
        }
        used_memory = used_memory + partitions[k].size;
        k = k + 1;
    }
    proof {
        assert(blocks.take(blocks.len() as int) =~= blocks);
    }
    used_memory as i64 + size as i64 <= configuration::get_memory_size(db) as i64
}

/// Lets the pool grow by a free partition of `size` at its high end, if the
/// capacity allows it, and returns that partition.
pub fn create_storage_partition(db: &mut Database, size: i32) -> (partition: Option<
    StoragePartition,
>)
    requires
        old(db).wf(),
        old(db).configuration.memory_size is Some,
        size >= 0,
        representable(
            extend(
                old(db).layout(),
                size as int,
                old(db).next_number(),
                old(db).capacity(),
            ).pool.len(),
            old(db).next_number() + extend(
                old(db).layout(),
                size as int,
                old(db).next_number(),
                old(db).capacity(),
            ).created,
        ),
    ensures
        final(db).wf(),
        final(db).layout() == extend(
            old(db).layout(),
            size as int,
            old(db).next_number(),
            old(db).capacity(),
        ).pool,
        match partition {
            Some(created) => {
                &&& old(db).used_memory() + size <= old(db).capacity()
                &&& created.position == old(db).storage_partitions.len()
                &&& created == final(db).storage_partitions[created.position as int].0
                &&& created.size == size
            },
            None => old(db).used_memory() + size > old(db).capacity(),
        },
        final(db).used_memory() == if partition is Some {
            old(db).used_memory() + size
        } else {
            old(db).used_memory()
        },
        *final(db) == (Database {
            storage_partitions: final(db).storage_partitions,
            configuration: configuration::Settings {
                partition_consecutive_number: (old(db).next_number() + extend(
                    old(db).layout(),
                    size as int,
                    old(db).next_number(),
                    old(db).capacity(),
                ).created) as i32,
                ..old(db).configuration
            },
            ..*old(db)
        }),
{
    if can_create_storage_partition(db, size) {
        let position = db.storage_partitions.len();
        create_storage_partition_with_position(db, position as i32, size);
        proof {
            assert(db.layout() =~= old(db).layout().push(
                free_block(old(db).next_number(), size as int),
            ));
            lemma_table_entry(db.storage_partitions@, db.next_number(), position as int);
        }
        Some(select_last_storage_partition(db))
    } else {
        None
    }
}

/// If any space of the capacity is left beyond the pool, lets the pool grow by
/// one free partition of that size.
pub fn create_storage_partition_from_remaining_space(db: &mut Database)
    requires
        old(db).wf(),
        old(db).configuration.memory_size is Some,
        old(db).used_memory() < old(db).capacity() ==> representable(
            old(db).layout().len() + 1,
            old(db).next_number() + 1,
        ),
    ensures
        final(db).wf(),
        final(db).layout() == if old(db).used_memory() < old(db).capacity() {
            old(db).layout().push(
                free_block(old(db).next_number(), old(db).capacity() - old(db).used_memory()),
            )
        } else {
            old(db).layout()
        },
        final(db).used_memory() == if old(db).used_memory() < old(db).capacity() {
            old(db).capacity()
        } else {
            old(db).used_memory()
        },
        *final(db) == (Database {
            storage_partitions: final(db).storage_partitions,
            configuration: configuration::Settings {
                partition_consecutive_number: if old(db).used_memory() < old(db).capacity() {
                    (old(db).next_number() + 1) as i32
                } else {
                    old(db).configuration.partition_consecutive_number
                },
                ..old(db).configuration
            },
            ..*old(db)
        }),
{
    // Get all the current partitions and add up the memory they are using.
    let partitions = select_all_storage_partitions(db);
    let ghost blocks = db.layout();
    let mut used_memory: i32 = 0;
    let mut k: usize = 0;
    proof {
        lemma_table_bounds(db.storage_partitions@, db.next_number());
        assert(blocks.take(0) =~= Seq::<Block>::empty());
    }
    while k < partitions.len()
        invariant
            k <= partitions.len(),
            partitions@ == db.storage_partitions@.map_values(|slot: Slot| slot.0),
            blocks == db.layout(),
            crate::database::layout::sizes_valid(blocks),
            total_size(blocks) <= i32::MAX,
            used_memory == offset_of(blocks, k as int),
        decreases partitions.len() - k,
    {
        proof {
            lemma_offset_step(blocks, k as int);
            crate::database::layout::lemma_offset_bounded(blocks, k + 1);
            assert(blocks[k as int] == block_of(db.storage_partitions[k as int]));
        }
        used_memory = used_memory + partitions[k].size;
        k = k + 1;
    }
    proof {
        assert(blocks.take(blocks.len() as int) =~= blocks);
    }
    // Get the remaining space, if there is any.
    let remaining_space: i64 = configuration::get_memory_size(db) as i64 - used_memory as i64;
    if remaining_space > 0 {
        create_storage_partition(db, remaining_space as i32);
    }
}

/// The rank of the partition that the process with the id `process_id`
/// occupies, if it occupies one.
pub(crate) fn find_process_partition(db: &Database, process_id: i32) -> (rank: Option<usize>)
    requires
        db.wf(),
    ensures
        match rank {
            Some(k) => k < db.storage_partitions.len() && db.layout()[k as int].process == Some(
                process_id as int,
            ) && db.storage_partitions[k as int].1 == Some(process_id),
            None => !is_resident(db.layout(), process_id as int),
        },
        forall|k: int|
            0 <= k < db.layout().len() && (#[trigger] db.layout()[k]).process == Some(
                process_id as int,
            ) ==> rank == Some(k as usize),
{
    proof {
        lemma_table_bounds(db.storage_partitions@, db.next_number());
    }
    let mut k: usize = 0;
    while k < db.storage_partitions.len()
        invariant
            k <= db.storage_partitions.len(),
            pool_valid(db.layout(), db.next_number()),
            forall|j: int|
                0 <= j < k ==> (#[trigger] db.layout()[j]).process != Some(process_id as int),
        decreases db.storage_partitions.len() - k,
    {
        proof {
            assert(db.layout()[k as int] == block_of(db.storage_partitions[k as int]));
        }
        let found = match db.storage_partitions[k].1 {
            Some(occupant) => occupant == process_id,
            None => false,
        };
        if found {
            proof {
                assert forall|j: int|
                    0 <= j < db.layout().len() && (#[trigger] db.layout()[j]).process == Some(
                        process_id as int,
                    ) implies j == k by {
                    if j > k {
                        assert(db.layout()[k as int].process != db.layout()[j].process);
                    }
                }
            }
            return Some(k);
        }
        k = k + 1;
    }
    None
}

/// Binds a process to a partition.
pub fn create_process_partition(db: &mut Database, process_partition: ProcessPartition)
    requires
        old(db).wf(),
        exists|k: int|
            0 <= k < old(db).layout().len() && (#[trigger] old(db).layout()[k]).number
                == process_partition.storage_partition_id && old(db).layout()[k].is_free(),
        !is_resident(old(db).layout(), process_partition.process_id as int),
    ensures
        final(db).wf(),
        forall|k: int|
            0 <= k < old(db).layout().len() && (#[trigger] old(db).layout()[k]).number
                == process_partition.storage_partition_id ==> final(db).layout() == old(
                db,
            ).layout().update(k, old(db).layout()[k].bound_to(process_partition.process_id as int)),
        *final(db) == (Database { storage_partitions: final(db).storage_partitions, ..*old(db) }),
{
    let rank = find_storage_partition(db, process_partition.storage_partition_id);
    rebind(db, rank.unwrap(), Some(process_partition.process_id));
}

/// Binds `process` to `storage_partition`.
pub fn insert_process_into_storage_partition(
    db: &mut Database,
    process: &Process,
    storage_partition: &StoragePartition,
)
    requires
        old(db).wf(),
        exists|k: int|
            0 <= k < old(db).layout().len() && (#[trigger] old(db).layout()[k]).number
                == storage_partition.id && old(db).layout()[k].is_free(),
        !is_resident(old(db).layout(), process.id as int),
    ensures
        final(db).wf(),
        forall|k: int|
            0 <= k < old(db).layout().len() && (#[trigger] old(db).layout()[k]).number
                == storage_partition.id ==> final(db).layout() == old(db).layout().update(
                k,
                old(db).layout()[k].bound_to(process.id as int),
            ),
        *final(db) == (Database { storage_partitions: final(db).storage_partitions, ..*old(db) }),
{
    create_process_partition(
        db,
        ProcessPartition { process_id: process.id, storage_partition_id: storage_partition.id },
    );
}

/// Releases the partition that the process with the id `process_id`
/// occupies. Where it occupies none, nothing changes.
pub fn delete_process_partition_with_process_id(db: &mut Database, process_id: i32)
    requires
        old(db).wf(),
    ensures
        final(db).wf(),
        !is_resident(final(db).layout(), process_id as int),
        forall|k: int|
            0 <= k < old(db).layout().len() && (#[trigger] old(db).layout()[k]).process == Some(
                process_id as int,
            ) ==> final(db).layout() == old(db).layout().update(k, old(db).layout()[k].released()),
        !is_resident(old(db).layout(), process_id as int) ==> final(db).storage_partitions == old(
            db,
        ).storage_partitions,
        *final(db) == (Database { storage_partitions: final(db).storage_partitions, ..*old(db) }),
{
    match find_process_partition(db, process_id) {
        Some(rank) => {
            rebind(db, rank, None);
            proof {
                let before = old(db).layout();
                let after = db.layout();
                assert forall|k: int| 0 <= k < after.len() implies (#[trigger] after[k]).process
                    != Some(process_id as int) by {
                    if k != rank {
                        assert(after[k] == before[k]);
                    }
                }
            }
        },
        None => {},
    }
}

/// The partition that the process with the id `process_id` occupies, and the
/// binding of the two.
pub fn select_storage_partition_with_process_id(db: &Database, process_id: i32) -> (found: (
    StoragePartition,
    ProcessPartition,
))
    requires
        db.wf(),
        is_resident(db.layout(), process_id as int),
    ensures
        exists|k: int|
            0 <= k < db.storage_partitions.len() && (#[trigger] db.storage_partitions[k]) == (
                found.0,
                Some(process_id),
            ),
        found.1 == (ProcessPartition { process_id, storage_partition_id: found.0.id }),
{
    let rank = find_process_partition(db, process_id).unwrap();
    let partition = db.storage_partitions[rank].0;
    (partition, ProcessPartition { process_id, storage_partition_id: partition.id })
}

/// The pool with every block released.
pub open spec fn all_released(blocks: Seq<Block>) -> Seq<Block> {
    Seq::new(blocks.len(), |k: int| blocks[k].released())
}

/// Releases every partition. Returns whether that succeeded, which it always
/// does.
pub fn delete_all_processes_partitions(db: &mut Database) -> (done: bool)
    requires
        old(db).wf(),
    ensures
        done,
        final(db).wf(),
        final(db).layout() == all_released(old(db).layout()),
        *final(db) == (Database { storage_partitions: final(db).storage_partitions, ..*old(db) }),
{
    let ghost before = *db;
    let mut k: usize = 0;
    while k < db.storage_partitions.len()
        invariant
            db.wf(),
            k <= db.storage_partitions.len(),
            db.storage_partitions.len() == before.storage_partitions.len(),
            db.layout().len() == before.layout().len(),
            forall|j: int| 0 <= j < k
                ==> (#[trigger] db.layout()[j]) == before.layout()[j].released(),
            forall|j: int| k <= j < db.layout().len()
                ==> (#[trigger] db.layout()[j]) == before.layout()[j],
            *db == (Database { storage_partitions: db.storage_partitions, ..before }),
        decreases db.storage_partitions.len() - k,
    {
        rebind(db, k, None);
        assert(db.layout().len() == db.storage_partitions@.len());
        k = k + 1;
    }
    proof {
        assert(db.layout() =~= all_released(before.layout()));
    }
    true
}

/// Empties the pool. Returns whether that succeeded, which it always does.
pub fn delete_all_storage_partitions(db: &mut Database) -> (done: bool)
    requires
        old(db).wf(),
    ensures
        done,
        final(db).wf(),
        final(db).layout() == Seq::<Block>::empty(),
        *final(db) == (Database { storage_partitions: final(db).storage_partitions, ..*old(db) }),
{
    db.storage_partitions.clear();
    proof {
        reveal(table_valid);
        assert(db.layout() =~= Seq::<Block>::empty());
    }
    true
}

/// The processes that occupy a partition.
pub open spec fn in_partition(blocks: Seq<Block>) -> spec_fn(Process) -> bool {
    |process: Process| is_resident(blocks, process.id as int)
}

/// The processes that occupy a partition, in the order of their ids.
pub fn select_all_processes_from_processes_partitions(db: &Database) -> (processes: Vec<Process>)
    requires
        db.wf(),
    ensures
        processes@ == db.processes@.filter(in_partition(db.layout())),
{
    let mut processes: Vec<Process> = Vec::new();
    let mut k: usize = 0;
    proof {
        reveal(Seq::filter);
        assert(db.processes@.take(0) =~= Seq::<Process>::empty());
    }
    while k < db.processes.len()
        invariant
            db.wf(),
            k <= db.processes.len(),
            processes@ == db.processes@.take(k as int).filter(in_partition(db.layout())),
        decreases db.processes.len() - k,
    {
        proof {
            reveal(Seq::filter);
            assert(db.processes@.take(k + 1).drop_last() =~= db.processes@.take(k as int));
            assert(db.processes@.take(k + 1).last() == db.processes[k as int]);
        }
        if find_process_partition(db, db.processes[k].id).is_some() {
            processes.push(db.processes[k].duplicate());
        }
        k = k + 1;
    }
    assert(db.processes@.take(k as int) =~= db.processes@);
    processes
}

/// A pool after admissions: the pool, the next sequence number, and whether
/// any process was admitted.
pub struct Admitted {
    pub pool: Seq<Block>,
    pub next_number: int,
    pub any: bool,
}

/// The admission of one ready process with the id `process_id` and of `size`.
/// A process that occupies a partition already, or for which there is no
/// room, leaves the pool as it is. Any other is bound to the room made for it.
pub open spec fn admission(
    blocks: Seq<Block>,
    next_number: int,
    capacity: int,
    process_id: int,
    size: int,
) -> Admitted {
    let room = make_room(blocks, size, next_number, capacity);
    if is_resident(blocks, process_id) || room.rank is None {
        Admitted { pool: blocks, next_number, any: false }
    } else {
        Admitted {
            pool: room.pool.update(room.rank->0, room.pool[room.rank->0].bound_to(process_id)),
            next_number: next_number + room.created,
            any: true,
        }
    }
}

/// The admission of the ready processes `ready`, one after the other.
pub open spec fn admissions(
    blocks: Seq<Block>,
    next_number: int,
    capacity: int,
    ready: Seq<Process>,
) -> Admitted
    decreases ready.len(),
{
    if ready.len() == 0 {
        Admitted { pool: blocks, next_number, any: false }
    } else {
        let before = admissions(blocks, next_number, capacity, ready.drop_last());
        let last = admission(
            before.pool,
            before.next_number,
            capacity,
            ready.last().id as int,
            ready.last().size as int,
        );
        Admitted { pool: last.pool, next_number: last.next_number, any: before.any || last.any }
    }
}

/// Making room changes no occupant: who occupied a block before does so
/// after, and nobody else.
pub proof fn lemma_room_keeps_residents(
    blocks: Seq<Block>,
    size: int,
    number: int,
    capacity: int,
    process_id: int,
)
    ensures
        is_resident(make_room(blocks, size, number, capacity).pool, process_id) == is_resident(
            blocks,
            process_id,
        ),
        is_resident(reuse(blocks, size, number).pool, process_id) == is_resident(
            blocks,
            process_id,
        ),
        is_resident(extend(blocks, size, number, capacity).pool, process_id) == is_resident(
            blocks,
            process_id,
        ),
{
    lemma_first_fit(blocks, size, true, 0);
    lemma_first_fit(blocks, size, false, 0);
    let larger = first_fit(blocks, size, false, 0);
    let parted = split(blocks, larger, size, number);
    let longer = blocks.push(free_block(number, size));
    if larger < blocks.len() {
        if is_resident(blocks, process_id) {
            let k = choose|k: int|
                0 <= k < blocks.len() && (#[trigger] blocks[k]).process == Some(process_id);
            let target = if k < larger { k } else { k + 1 };
            assert(parted[target] == blocks[k]);
        }
        if is_resident(parted, process_id) {
            let k = choose|k: int|
                0 <= k < parted.len() && (#[trigger] parted[k]).process == Some(process_id);
            let source = if k < larger { k } else { k - 1 };
            assert(parted[k] == blocks[source]);
        }
    }
    if is_resident(blocks, process_id) {
        let k = choose|k: int|
            0 <= k < blocks.len() && (#[trigger] blocks[k]).process == Some(process_id);
        assert(longer[k] == blocks[k]);
    }
    if is_resident(longer, process_id) {
        let k = choose|k: int|
            0 <= k < longer.len() && (#[trigger] longer[k]).process == Some(process_id);
        assert(longer[k] == blocks[k]);
    }
}

/// An admission takes no partition away and never goes back to a lower
/// sequence number. It creates two partitions at most, of which one at most
/// makes the pool longer.
pub proof fn lemma_admission_grows(
    blocks: Seq<Block>,
    next_number: int,
    capacity: int,
    process_id: int,
    size: int,
)
    ensures
        blocks.len() <= admission(blocks, next_number, capacity, process_id, size).pool.len()
            <= blocks.len() + 1,
        next_number <= admission(blocks, next_number, capacity, process_id, size).next_number
            <= next_number + 2,
{
    lemma_first_fit(blocks, size, true, 0);
    lemma_first_fit(blocks, size, false, 0);
}

/// The admissions of the first `count` of the ready processes leave the pool
/// no longer, and the next sequence number no higher, than the admissions of
/// all of them. And the admissions of all of them create two partitions for
/// each process at most.
pub proof fn lemma_admissions_grow(
    blocks: Seq<Block>,
    next_number: int,
    capacity: int,
    ready: Seq<Process>,
    count: int,
)
    requires
        0 <= count <= ready.len(),
    ensures
        admissions(blocks, next_number, capacity, ready.take(count)).pool.len() <= admissions(
            blocks,
            next_number,
            capacity,
            ready,
        ).pool.len() <= blocks.len() + ready.len(),
        admissions(blocks, next_number, capacity, ready.take(count)).next_number <= admissions(
            blocks,
            next_number,
            capacity,
            ready,
        ).next_number <= next_number + 2 * ready.len(),
        blocks.len() <= admissions(blocks, next_number, capacity, ready).pool.len(),
        next_number <= admissions(blocks, next_number, capacity, ready).next_number,
    decreases ready.len(),
{
    if ready.len() == 0 {
        assert(ready.take(count) =~= ready);
    } else {
        let before = admissions(blocks, next_number, capacity, ready.drop_last());
        lemma_admission_grows(
            before.pool,
            before.next_number,
            capacity,
            ready.last().id as int,
            ready.last().size as int,
        );
        if count == ready.len() {
            assert(ready.take(count) =~= ready);
            lemma_admissions_grow(blocks, next_number, capacity, ready.drop_last(), count - 1);
        } else {
            assert(ready.drop_last().take(count) =~= ready.take(count));
            lemma_admissions_grow(blocks, next_number, capacity, ready.drop_last(), count);
        }
    }
}

/// An admission takes no partition from a process, binds no process but the
/// one it is for, and binds that one if it admits it.
pub proof fn lemma_admission_residents(
    blocks: Seq<Block>,
    next_number: int,
    capacity: int,
    process_id: int,
    size: int,
    other: int,
)
    ensures
        is_resident(blocks, other) ==> is_resident(
            admission(blocks, next_number, capacity, process_id, size).pool,
            other,
        ),
        is_resident(admission(blocks, next_number, capacity, process_id, size).pool, other)
            ==> is_resident(blocks, other) || other == process_id,
        admission(blocks, next_number, capacity, process_id, size).any ==> is_resident(
            admission(blocks, next_number, capacity, process_id, size).pool,
            process_id,
        ),
{
    let room = make_room(blocks, size, next_number, capacity);
    let after = admission(blocks, next_number, capacity, process_id, size).pool;
    lemma_room_keeps_residents(blocks, size, next_number, capacity, other);
    lemma_first_fit(blocks, size, true, 0);
    lemma_first_fit(blocks, size, false, 0);
    if !is_resident(blocks, process_id) && room.rank is Some {
        let rank = room.rank->0;
        assert(0 <= rank < room.pool.len());
        assert(room.pool[rank].is_free());
        assert(after[rank].process == Some(process_id));
        if is_resident(room.pool, other) {
            let k = choose|k: int|
                0 <= k < room.pool.len() && (#[trigger] room.pool[k]).process == Some(other);
            assert(after[k] == room.pool[k]);
        }
        if is_resident(after, other) && other != process_id {
            let k = choose|k: int|
                0 <= k < after.len() && (#[trigger] after[k]).process == Some(other);
            assert(after[k] == room.pool[k]);
        }
    }
}

/// The admissions of ready processes take no partition from a process, bind
/// no process but ready ones, and bind at least one of those if they admit
/// any.
pub proof fn lemma_admissions_residents(
    blocks: Seq<Block>,
    next_number: int,
    capacity: int,
    ready: Seq<Process>,
    other: int,
)
    ensures
        is_resident(blocks, other) ==> is_resident(
            admissions(blocks, next_number, capacity, ready).pool,
            other,
        ),
        is_resident(admissions(blocks, next_number, capacity, ready).pool, other) ==> is_resident(
            blocks,
            other,
        ) || exists|j: int| 0 <= j < ready.len() && (#[trigger] ready[j]).id == other,
        admissions(blocks, next_number, capacity, ready).any ==> exists|j: int|
            0 <= j < ready.len() && is_resident(
                admissions(blocks, next_number, capacity, ready).pool,
                (#[trigger] ready[j]).id as int,
            ),
    decreases ready.len(),
{
    if ready.len() > 0 {
        let front = ready.drop_last();
        let before = admissions(blocks, next_number, capacity, front);
        let after = admissions(blocks, next_number, capacity, ready);
        let last = ready.last();
        lemma_admissions_residents(blocks, next_number, capacity, front, other);
        lemma_admission_residents(
            before.pool,
            before.next_number,
            capacity,
            last.id as int,
            last.size as int,
            other,
        );
        if is_resident(after.pool, other) && !is_resident(blocks, other) {
            if other == last.id {
                assert(ready[ready.len() - 1].id == other);
            } else {
                let j = choose|j: int| 0 <= j < front.len() && (#[trigger] front[j]).id == other;
                assert(ready[j].id == other);
            }
        }
        if after.any {
            if admission(
                before.pool,
                before.next_number,
                capacity,
                last.id as int,
                last.size as int,
            ).any {
                assert(is_resident(after.pool, ready[ready.len() - 1].id as int));
            } else {
                let j = choose|j: int|
                    0 <= j < front.len()
                        && is_resident(before.pool, (#[trigger] front[j]).id as int);
                lemma_admission_residents(
                    before.pool,
                    before.next_number,
                    capacity,
                    last.id as int,
                    last.size as int,
                    front[j].id as int,
                );
                assert(ready[j] == front[j]);
            }
        }
    }
}

/// Admits one ready process, if it holds no partition yet and there is room.
fn add_process_to_memory(db: &mut Database, process: &Process) -> (admitted: bool)
    requires
        old(db).wf(),
        old(db).configuration.memory_size is Some,
        process.size >= 0,
        representable(
            admission(
                old(db).layout(),
                old(db).next_number(),
                old(db).capacity(),
                process.id as int,
                process.size as int,
            ).pool.len(),
            admission(
                old(db).layout(),
                old(db).next_number(),
                old(db).capacity(),
                process.id as int,
                process.size as int,
            ).next_number,
        ),
    ensures
        final(db).wf(),
        final(db).layout() == admission(
            old(db).layout(),
            old(db).next_number(),
            old(db).capacity(),
            process.id as int,
            process.size as int,
        ).pool,
        admitted == admission(
            old(db).layout(),
            old(db).next_number(),
            old(db).capacity(),
            process.id as int,
            process.size as int,
        ).any,
        *final(db) == (Database {
            storage_partitions: final(db).storage_partitions,
            configuration: configuration::Settings {
                partition_consecutive_number: admission(
                    old(db).layout(),
                    old(db).next_number(),
                    old(db).capacity(),
                    process.id as int,
                    process.size as int,
                ).next_number as i32,
                ..old(db).configuration
            },
            ..*old(db)
        }),
{
    // If the process is ready but is already in a partition, do not add it.
    if find_process_partition(db, process.id).is_some() {
        return false;
    }
    proof {
        lemma_room_keeps_residents(
            db.layout(),
            process.size as int,
            db.next_number(),
            db.capacity(),
            process.id as int,
        );
        lemma_first_fit(db.layout(), process.size as int, true, 0);
        lemma_first_fit(db.layout(), process.size as int, false, 0);
        lemma_table_bounds(db.storage_partitions@, db.next_number());
    }
    // First, try to get a free partition to enter. If there is none, try to
    // create one. If that cannot be done either, the process has to wait.
    let storage_partition = match get_empty_storage_partition(db, process.size) {
        Some(found) => Some(found),
        None => create_storage_partition(db, process.size),
    };
    match storage_partition {
        Some(found) => {
            proof {
                lemma_table_entry(db.storage_partitions@, db.next_number(), found.position as int);
            }
            insert_process_into_storage_partition(db, process, &found);
            true
        },
        None => false,
    }
}

/// Admits the ready processes, in the order of their ids. A process that
/// holds a partition already is passed over. Any other takes the first free
/// partition of exactly its size; failing that, the first part of the first
/// larger free partition, which is split; failing that, a new partition at
/// the high end of the pool, if the capacity allows it; and failing that, it
/// waits. Returns whether any process was admitted.
pub fn add_processes_to_memory(db: &mut Database) -> (admitted: bool)
    requires
        old(db).wf(),
        old(db).configuration.memory_size is Some,
        representable(
            admissions(
                old(db).layout(),
                old(db).next_number(),
                old(db).capacity(),
                old(db).processes@.filter(in_state(0)),
            ).pool.len(),
            admissions(
                old(db).layout(),
                old(db).next_number(),
                old(db).capacity(),
                old(db).processes@.filter(in_state(0)),
            ).next_number,
        ),
    ensures
        final(db).wf(),
        final(db).layout() == admissions(
            old(db).layout(),
            old(db).next_number(),
            old(db).capacity(),
            old(db).processes@.filter(in_state(0)),
        ).pool,
        admitted == admissions(
            old(db).layout(),
            old(db).next_number(),
            old(db).capacity(),
            old(db).processes@.filter(in_state(0)),
        ).any,
        *final(db) == (Database {
            storage_partitions: final(db).storage_partitions,
            configuration: configuration::Settings {
                partition_consecutive_number: admissions(
                    old(db).layout(),
                    old(db).next_number(),
                    old(db).capacity(),
                    old(db).processes@.filter(in_state(0)),
                ).next_number as i32,
                ..old(db).configuration
            },
            ..*old(db)
        }),
        old(db).within_capacity() ==> final(db).within_capacity(),
{
    let ghost before = *db;
    proof {
        if db.within_capacity() {
            lemma_admissions_size(
                db.layout(),
                db.next_number(),
                db.capacity(),
                db.processes@.filter(in_state(0)),
            );
        }
    }
    // Select all ready processes.
    let processes = select_processes_with_state(db, crate::model::state::get_state_number(
        crate::model::state::StateEnum::Ready,
    ));
    let ghost ready = processes@;
    // If it finishes without adding any process to memory, it means the
    // memory is full or the partitions are not big enough.
    let mut has_added_processes_to_memory = false;
    let mut k: usize = 0;
    proof {
        assert(ready.take(0) =~= Seq::<Process>::empty());
    }
    while k < processes.len()
        invariant
            db.wf(),
            k <= processes.len(),
            ready == processes@,
            ready == before.processes@.filter(in_state(0)),
            before.wf(),
            before.configuration.memory_size is Some,
            representable(
                admissions(
                    before.layout(),
                    before.next_number(),
                    before.capacity(),
                    ready,
                ).pool.len(),
                admissions(
                    before.layout(),
                    before.next_number(),
                    before.capacity(),
                    ready,
                ).next_number,
            ),
            db.layout() == admissions(
                before.layout(),
                before.next_number(),
                before.capacity(),
                ready.take(k as int),
            ).pool,
            db.next_number() == admissions(
                before.layout(),
                before.next_number(),
                before.capacity(),
                ready.take(k as int),
            ).next_number,
            has_added_processes_to_memory == admissions(
                before.layout(),
                before.next_number(),
                before.capacity(),
                ready.take(k as int),
            ).any,
            *db == (Database {
                storage_partitions: db.storage_partitions,
                configuration: configuration::Settings {
                    partition_consecutive_number: db.configuration.partition_consecutive_number,
                    ..before.configuration
                },
                ..before
            }),
        decreases processes.len() - k,
    {
        proof {
            assert(ready.take(k + 1).drop_last() =~= ready.take(k as int));
            assert(ready.take(k + 1).last() == ready[k as int]);
            lemma_admissions_grow(
                before.layout(),
                before.next_number(),
                before.capacity(),
                ready,
                k + 1,
            );
            crate::sequences::lemma_filter_source(
                before.processes@,
                in_state(0),
                k as int,
            );
        }
        let added = add_process_to_memory(db, &processes[k]);
        has_added_processes_to_memory = has_added_processes_to_memory || added;
        k = k + 1;
    }
    proof {
        assert(ready.take(k as int) =~= ready);
    }
    has_added_processes_to_memory
}

/// A process admitted into a free partition of exactly its size leaves the
/// number of partitions as it was: it is bound to that partition, and nothing
/// else changes.
pub proof fn lemma_exact_fit_keeps_count(
    blocks: Seq<Block>,
    next_number: int,
    capacity: int,
    process_id: int,
    size: int,
)
    requires
        !is_resident(blocks, process_id),
        first_fit(blocks, size, true, 0) < blocks.len(),
    ensures
        admission(blocks, next_number, capacity, process_id, size).any,
        admission(blocks, next_number, capacity, process_id, size).pool.len() == blocks.len(),
        admission(blocks, next_number, capacity, process_id, size).next_number == next_number,
        admission(blocks, next_number, capacity, process_id, size).pool == blocks.update(
            first_fit(blocks, size, true, 0),
            blocks[first_fit(blocks, size, true, 0)].bound_to(process_id),
        ),
{
    lemma_first_fit(blocks, size, true, 0);
}

/// A process admitted by a split makes the partitions one more: where no free
/// partition has exactly its size, the first larger one gives way to two,
/// whose sizes add up to the size it had. The process is bound to the first
/// of them, which has the size of the process, and the second one is free.
pub proof fn lemma_split_adds_one(
    blocks: Seq<Block>,
    next_number: int,
    capacity: int,
    process_id: int,
    size: int,
)
    requires
        !is_resident(blocks, process_id),
        first_fit(blocks, size, true, 0) == blocks.len(),
        first_fit(blocks, size, false, 0) < blocks.len(),
    ensures
        admission(blocks, next_number, capacity, process_id, size).any,
        admission(blocks, next_number, capacity, process_id, size).pool.len() == blocks.len() + 1,
        admission(blocks, next_number, capacity, process_id, size).next_number == next_number + 2,
        ({
            let rank = first_fit(blocks, size, false, 0);
            let pool = admission(blocks, next_number, capacity, process_id, size).pool;
            &&& pool[rank].size + pool[rank + 1].size == blocks[rank].size
            &&& pool[rank] == free_block(next_number, size).bound_to(process_id)
            &&& pool[rank + 1] == free_block(next_number + 1, blocks[rank].size - size)
            &&& pool.take(rank) == blocks.take(rank)
            &&& pool.skip(rank + 2) == blocks.skip(rank + 1)
        }),
{
    lemma_first_fit(blocks, size, false, 0);
    let rank = first_fit(blocks, size, false, 0);
    let pool = admission(blocks, next_number, capacity, process_id, size).pool;
    assert(pool.take(rank) =~= blocks.take(rank));
    assert(pool.skip(rank + 2) =~= blocks.skip(rank + 1));
}

/// Making room for a process keeps the pool within the capacity.
pub proof fn lemma_room_size(blocks: Seq<Block>, size: int, number: int, capacity: int)
    requires
        total_size(blocks) <= capacity,
    ensures
        total_size(make_room(blocks, size, number, capacity).pool) <= capacity,
        total_size(reuse(blocks, size, number).pool) == total_size(blocks),
{
    lemma_first_fit(blocks, size, true, 0);
    lemma_first_fit(blocks, size, false, 0);
    let larger = first_fit(blocks, size, false, 0);
    if larger < blocks.len() {
        let parts = seq![
            free_block(number, size),
            free_block(number + 1, blocks[larger].size - size),
        ];
        lemma_total_size_concat(blocks.take(larger) + parts, blocks.skip(larger + 1));
        lemma_total_size_concat(blocks.take(larger), parts);
        assert(parts =~= seq![parts[0]] + seq![parts[1]]);
        lemma_total_size_concat(seq![parts[0]], seq![parts[1]]);
        crate::database::layout::lemma_total_size_single(parts[0]);
        crate::database::layout::lemma_total_size_single(parts[1]);
        crate::database::layout::lemma_total_size_split(blocks, larger);
        crate::database::layout::lemma_total_size_split(blocks.skip(larger), 1);
        assert(blocks.skip(larger).take(1) =~= seq![blocks[larger]]);
        assert(blocks.skip(larger).skip(1) =~= blocks.skip(larger + 1));
        crate::database::layout::lemma_total_size_single(blocks[larger]);
    }
    assert(blocks.push(free_block(number, size)) =~= blocks + seq![free_block(number, size)]);
    lemma_total_size_concat(blocks, seq![free_block(number, size)]);
    crate::database::layout::lemma_total_size_single(free_block(number, size));
}

/// An admission keeps the pool within the capacity.
pub proof fn lemma_admission_size(
    blocks: Seq<Block>,
    next_number: int,
    capacity: int,
    process_id: int,
    size: int,
)
    requires
        total_size(blocks) <= capacity,
    ensures
        total_size(admission(blocks, next_number, capacity, process_id, size).pool) <= capacity,
{
    lemma_room_size(blocks, size, next_number, capacity);
    lemma_first_fit(blocks, size, true, 0);
    lemma_first_fit(blocks, size, false, 0);
    let room = make_room(blocks, size, next_number, capacity);
    if !is_resident(blocks, process_id) && room.rank is Some {
        lemma_total_size_update(
            room.pool,
            room.rank->0,
            room.pool[room.rank->0].bound_to(process_id),
        );
    }
}

/// The admissions of ready processes keep the pool within the capacity.
pub proof fn lemma_admissions_size(
    blocks: Seq<Block>,
    next_number: int,
    capacity: int,
    ready: Seq<Process>,
)
    requires
        total_size(blocks) <= capacity,
    ensures
        total_size(admissions(blocks, next_number, capacity, ready).pool) <= capacity,
    decreases ready.len(),
{
    if ready.len() > 0 {
        let before = admissions(blocks, next_number, capacity, ready.drop_last());
        lemma_admissions_size(blocks, next_number, capacity, ready.drop_last());
        lemma_admission_size(
            before.pool,
            before.next_number,
            capacity,
            ready.last().id as int,
            ready.last().size as int,
        );
    }
}

} // verus!
