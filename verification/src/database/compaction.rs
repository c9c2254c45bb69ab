//! Compaction: occupied partitions slide towards the low end of the pool.

use crate::database::configuration::{increment_compactions, Settings};
use crate::database::layout::{
    is_resident, layout, lemma_resident_swapped, lemma_swap_by_moves, lemma_table_entry, moved,
    offset_of, swapped, Block, Slot,
};
use crate::database::models::NewCompactionLog;
use crate::database::statements::{
    create_compaction_log, select_all_storage_partitions_and_process_partitions,
};
use crate::database::{update_storage_partition_position, Database};
use vstd::prelude::*;

verus! {

/// The rank of the first occupied block at or above rank `from`, or the
/// length of the pool where every block from there on is free.
pub open spec fn next_occupied(blocks: Seq<Block>, from: int) -> int
    decreases blocks.len() - from,
{
    if from < 0 || from >= blocks.len() {
        blocks.len() as int
    } else if !blocks[from].is_free() {
        from
    } else {
        next_occupied(blocks, from + 1)
    }
}

/// What a pass of compaction makes of a pool: the pool after it and the
/// records of the slides.
pub struct Slid {
    pub pool: Seq<Block>,
    pub records: Seq<NewCompactionLog>,
}

/// The record of the slide that exchanges the free block of rank `free` with
/// the occupied block of rank `occupied`, during the tick `iteration`.
pub open spec fn slide_record(blocks: Seq<Block>, free: int, occupied: int, iteration: i32)
    -> NewCompactionLog {
    NewCompactionLog {
        iteration,
        partition: blocks[occupied].number as i32,
        previous_position: offset_of(blocks, occupied) as i32,
        final_position: offset_of(blocks, free) as i32,
    }
}

/// One pass of compaction over the ranks from `rank` on. Rank by rank, a free
/// block that has an occupied block somewhere above it changes places with
/// the nearest such block. The pass goes on with the next rank of the pool as
/// it is by then.
pub open spec fn slide(blocks: Seq<Block>, rank: int, iteration: i32) -> Slid
    decreases blocks.len() - rank,
    via slide_decreases
{
    if rank < 0 || rank >= blocks.len() {
        Slid { pool: blocks, records: Seq::empty() }
    } else {
        let occupied = next_occupied(blocks, rank);
        if blocks[rank].is_free() && occupied < blocks.len() {
            let rest = slide(swapped(blocks, rank, occupied), rank + 1, iteration);
            Slid {
                pool: rest.pool,
                records: seq![slide_record(blocks, rank, occupied, iteration)] + rest.records,
            }
        } else {
            slide(blocks, rank + 1, iteration)
        }
    }
}

#[via_fn]
proof fn slide_decreases(blocks: Seq<Block>, rank: int, iteration: i32) {
    if 0 <= rank < blocks.len() {
        lemma_next_occupied(blocks, rank);
    }
}

/// The nearest occupied block at or above a rank stands at or above that
/// rank, is occupied, and has only free blocks between the rank and itself.
pub proof fn lemma_next_occupied(blocks: Seq<Block>, from: int)
    requires
        0 <= from <= blocks.len(),
    ensures
        from <= next_occupied(blocks, from) <= blocks.len(),
        next_occupied(blocks, from) < blocks.len()
            ==> !blocks[next_occupied(blocks, from)].is_free(),
        forall|k: int| from <= k < next_occupied(blocks, from) ==> (#[trigger] blocks[k]).is_free(),
    decreases blocks.len() - from,
{
    if from < blocks.len() && blocks[from].is_free() {
        lemma_next_occupied(blocks, from + 1);
    }
}

/// A pass of compaction leaves the pool as long as it was.
pub proof fn lemma_slide_length(blocks: Seq<Block>, rank: int, iteration: i32)
    ensures
        slide(blocks, rank, iteration).pool.len() == blocks.len(),
    decreases blocks.len() - rank,
{
    if 0 <= rank < blocks.len() {
        lemma_next_occupied(blocks, rank);
        let occupied = next_occupied(blocks, rank);
        if blocks[rank].is_free() && occupied < blocks.len() {
            lemma_slide_length(swapped(blocks, rank, occupied), rank + 1, iteration);
        } else {
            lemma_slide_length(blocks, rank + 1, iteration);
        }
    }
}

/// A pass of compaction changes no occupant: who occupied a block before
/// does so after, and nobody else.
pub proof fn lemma_slide_residents(blocks: Seq<Block>, rank: int, iteration: i32, process_id: int)
    ensures
        is_resident(slide(blocks, rank, iteration).pool, process_id) == is_resident(
            blocks,
            process_id,
        ),
    decreases blocks.len() - rank,
{
    if 0 <= rank < blocks.len() {
        lemma_next_occupied(blocks, rank);
        let occupied = next_occupied(blocks, rank);
        if blocks[rank].is_free() && occupied < blocks.len() {
            lemma_resident_swapped(blocks, rank, occupied, process_id);
            lemma_slide_residents(swapped(blocks, rank, occupied), rank + 1, iteration, process_id);
        } else {
            lemma_slide_residents(blocks, rank + 1, iteration, process_id);
        }
    }
}

/// The nearest occupied block above free blocks is where the free blocks end.
pub proof fn lemma_next_occupied_is(blocks: Seq<Block>, from: int, to: int)
    requires
        0 <= from <= to <= blocks.len(),
        forall|k: int| from <= k < to ==> (#[trigger] blocks[k]).is_free(),
        to < blocks.len() ==> !blocks[to].is_free(),
    ensures
        next_occupied(blocks, from) == to,
    decreases to - from,
{
    if from < to {
        assert(blocks[from].is_free());
        lemma_next_occupied_is(blocks, from + 1, to);
    }
}

/// Exchanges the free partition of rank `free` with the occupied partition of
/// rank `occupied` above it, and writes the record of the slide.
fn swap_partitions(db: &mut Database, partitions: &Vec<Slot>, free: usize, occupied: usize)
    requires
        old(db).wf(),
        partitions@ == old(db).storage_partitions@,
        free < occupied < partitions.len(),
        old(db).iteration >= 1,
    ensures
        final(db).wf(),
        final(db).layout() == swapped(old(db).layout(), free as int, occupied as int),
        final(db).compaction_logs@ == old(db).compaction_logs@.push(
            slide_record(old(db).layout(), free as int, occupied as int, old(db).iteration),
        ),
        *final(db) == (Database {
            storage_partitions: final(db).storage_partitions,
            compaction_logs: final(db).compaction_logs,
            ..*old(db)
        }),
{
    let ghost blocks = db.layout();
    proof {
        lemma_table_entry(db.storage_partitions@, db.next_number(), free as int);
        lemma_table_entry(db.storage_partitions@, db.next_number(), occupied as int);
        lemma_swap_by_moves(blocks, free as int, occupied as int);
    }
    // The occupied partition takes the rank of the free one.
    update_storage_partition_position(db, partitions[occupied].0.id, partitions[free].0.position);
    proof {
        assert(blocks[occupied as int].number == partitions[occupied as int].0.id);
        assert(db.layout() == moved(blocks, occupied as int, free as int));
        assert(db.layout()[free + 1] == blocks[free as int]);
    }
    // And the free partition the rank that the occupied one had.
    update_storage_partition_position(db, partitions[free].0.id, partitions[occupied].0.position);
    // Save the record of this part of the compaction.
    create_compaction_log(
        db,
        partitions[occupied].0.number,
        partitions[occupied].0.position_start,
        partitions[free].0.position_start,
    );
}

/// Runs one pass of compaction over the pool. From the lowest rank upwards,
/// each free partition that has an occupied partition above it changes places
/// with the nearest one, and a record of the slide is written. If any
/// partition moved, the pass is counted as one compaction. After the pass the
/// occupied partitions stand below the free ones, bound as they were and in
/// the order they had.
pub fn swap_process_partitions_with_empty_partitions(db: &mut Database)
    requires
        old(db).wf(),
        slide(old(db).layout(), 0, old(db).iteration).records.len() > 0 ==> old(db).iteration >= 1
            && old(db).configuration.compactions < i32::MAX,
    ensures
        final(db).wf(),
        final(db).layout() == slide(old(db).layout(), 0, old(db).iteration).pool,
        final(db).compaction_logs@ == old(db).compaction_logs@ + slide(
            old(db).layout(),
            0,
            old(db).iteration,
        ).records,
        *final(db) == (Database {
            storage_partitions: final(db).storage_partitions,
            compaction_logs: final(db).compaction_logs,
            configuration: Settings {
                compactions: if slide(old(db).layout(), 0, old(db).iteration).records.len() > 0 {
                    (old(db).configuration.compactions + 1) as i32
                } else {
                    old(db).configuration.compactions
                },
                ..old(db).configuration
            },
            ..*old(db)
        }),
        old(db).within_capacity() ==> final(db).within_capacity(),
        occupied_blocks(final(db).layout()) == occupied_blocks(old(db).layout()),
        is_packed(final(db).layout()),
{
    let ghost before = *db;
    let ghost target = slide(db.layout(), 0, db.iteration);
    proof {
        lemma_slide_packs(db.layout(), db.iteration);
        lemma_slide_size(db.layout(), 0, db.iteration);
        lemma_slide_keeps_occupied(db.layout(), 0, db.iteration);
    }
    let ghost mut written: Seq<NewCompactionLog> = Seq::empty();
    let mut made_compaction = false;
    // Get all the partitions, ordered by rank, each with its process if any.
    let mut partitions = select_all_storage_partitions_and_process_partitions(db);
    let mut i: usize = 0;
    proof {
        assert(db.compaction_logs@ =~= before.compaction_logs@ + written);
        assert(written + target.records =~= target.records);
    }
    while i < partitions.len()
        invariant
            db.wf(),
            i <= partitions.len(),
            partitions@ == db.storage_partitions@,
            target == slide(before.layout(), 0, before.iteration),
            target.records.len() > 0 ==> before.iteration >= 1 && before.configuration.compactions
                < i32::MAX,
            target.pool == slide(db.layout(), i as int, before.iteration).pool,
            target.records == written + slide(db.layout(), i as int, before.iteration).records,
            db.compaction_logs@ == before.compaction_logs@ + written,
            made_compaction == (written.len() > 0),
            *db == (Database {
                storage_partitions: db.storage_partitions,
                compaction_logs: db.compaction_logs,
                ..before
            }),
        decreases partitions.len() - i,
    {
        // If the partition is free, search the nearest occupied partition
        // above it and exchange the two, so that the free ones end up at the
        // high end.
        if partitions[i].1.is_none() {
            let mut e: usize = i;
            while e < partitions.len() && partitions[e].1.is_none()
                invariant
                    i <= e <= partitions.len(),
                    forall|k: int| i <= k < e ==> (#[trigger] layout(partitions@)[k]).is_free(),
                decreases partitions.len() - e,
            {
                e = e + 1;
            }
            proof {
                lemma_next_occupied_is(db.layout(), i as int, e as int);
            }
            if e < partitions.len() {
                let ghost record = slide_record(db.layout(), i as int, e as int, db.iteration);
                let ghost rest = slide(
                    swapped(db.layout(), i as int, e as int),
                    i + 1,
                    db.iteration,
                );
                swap_partitions(db, &partitions, i, e);
                // The ranks have changed: read the pool again.
                partitions = select_all_storage_partitions_and_process_partitions(db);
                made_compaction = true;
                proof {
                    assert(written + (seq![record] + rest.records) =~= written.push(record)
                        + rest.records);
                    assert(db.compaction_logs@ =~= before.compaction_logs@ + written.push(record));
                    written = written.push(record);
                }
            }
        }
        i = i + 1;
    }
    proof {
        assert(written + Seq::<NewCompactionLog>::empty() =~= written);
    }
    // At least one partition moved: count the compaction.
    if made_compaction {
        increment_compactions(db);
    }
}

/// A pass of compaction leaves the pool as large as it was.
pub proof fn lemma_slide_size(blocks: Seq<Block>, rank: int, iteration: i32)
    ensures
        crate::database::layout::total_size(slide(blocks, rank, iteration).pool)
            == crate::database::layout::total_size(blocks),
    decreases blocks.len() - rank,
{
    if 0 <= rank < blocks.len() {
        lemma_next_occupied(blocks, rank);
        let occupied = next_occupied(blocks, rank);
        if blocks[rank].is_free() && occupied < blocks.len() {
            crate::database::layout::lemma_total_size_swapped(blocks, rank, occupied);
            lemma_slide_size(swapped(blocks, rank, occupied), rank + 1, iteration);
        } else {
            lemma_slide_size(blocks, rank + 1, iteration);
        }
    }
}

/// The blocks that a process occupies.
pub open spec fn is_occupied() -> spec_fn(Block) -> bool {
    |block: Block| !block.is_free()
}

/// The occupied blocks of a pool, lowest rank first.
pub open spec fn occupied_blocks(blocks: Seq<Block>) -> Seq<Block> {
    blocks.filter(is_occupied())
}

/// The pool after `count` passes of compaction, all during the tick
/// `iteration`.
pub open spec fn slide_times(blocks: Seq<Block>, count: nat, iteration: i32) -> Seq<Block>
    decreases count,
{
    if count == 0 {
        blocks
    } else {
        slide(slide_times(blocks, (count - 1) as nat, iteration), 0, iteration).pool
    }
}

/// A free block that changes places with a block above it, with nothing but
/// free blocks between the two, passes no occupied block: the occupied blocks
/// and their order stay as they were.
pub proof fn lemma_swapped_occupied(blocks: Seq<Block>, free: int, other: int)
    requires
        0 <= free < other < blocks.len(),
        forall|k: int| free <= k < other ==> (#[trigger] blocks[k]).is_free(),
    ensures
        occupied_blocks(swapped(blocks, free, other)) == occupied_blocks(blocks),
{
    let low = blocks.take(free);
    let first = seq![blocks[free]];
    let between = blocks.subrange(free + 1, other);
    let second = seq![blocks[other]];
    let high = blocks.skip(other + 1);
    let pred = is_occupied();
    assert(blocks =~= low + first + between + second + high);
    assert(swapped(blocks, free, other) =~= low + second + between + first + high);
    Seq::filter_distributes_over_add(low + first + between + second, high, pred);
    Seq::filter_distributes_over_add(low + first + between, second, pred);
    Seq::filter_distributes_over_add(low + first, between, pred);
    Seq::filter_distributes_over_add(low, first, pred);
    Seq::filter_distributes_over_add(low + second + between + first, high, pred);
    Seq::filter_distributes_over_add(low + second + between, first, pred);
    Seq::filter_distributes_over_add(low + second, between, pred);
    Seq::filter_distributes_over_add(low, second, pred);
    assert forall|k: int| 0 <= k < between.len() implies !pred(#[trigger] between[k]) by {
        assert(between[k] == blocks[free + 1 + k]);
    }
    crate::sequences::lemma_filter_none(between, pred);
    assert forall|k: int| 0 <= k < first.len() implies !pred(#[trigger] first[k]) by {
        assert(first[k] == blocks[free]);
    }
    crate::sequences::lemma_filter_none(first, pred);
    assert(low.filter(pred) + Seq::<Block>::empty() + Seq::<Block>::empty() + second.filter(pred)
        + high.filter(pred) =~= low.filter(pred) + second.filter(pred) + Seq::<Block>::empty()
        + Seq::<Block>::empty() + high.filter(pred));
}

/// Compaction keeps every binding: after a pass, the occupied partitions are
/// the same as before, each with the sequence number, the size and the
/// process it had, and in the same order. Only ranks and offsets change.
pub proof fn lemma_slide_keeps_occupied(blocks: Seq<Block>, rank: int, iteration: i32)
    ensures
        occupied_blocks(slide(blocks, rank, iteration).pool) == occupied_blocks(blocks),
    decreases blocks.len() - rank,
{
    if 0 <= rank < blocks.len() {
        lemma_next_occupied(blocks, rank);
        let occupied = next_occupied(blocks, rank);
        if blocks[rank].is_free() && occupied < blocks.len() {
            lemma_swapped_occupied(blocks, rank, occupied);
            lemma_slide_keeps_occupied(swapped(blocks, rank, occupied), rank + 1, iteration);
        } else {
            lemma_slide_keeps_occupied(blocks, rank + 1, iteration);
        }
    }
}

/// However many passes of compaction run, every binding is kept: the occupied
/// partitions are the same as before the first pass, each with the sequence
/// number, the size and the process it had, and in the same order.
pub proof fn lemma_slides_keep_occupied(blocks: Seq<Block>, count: nat, iteration: i32)
    ensures
        occupied_blocks(slide_times(blocks, count, iteration)) == occupied_blocks(blocks),
    decreases count,
{
    if count > 0 {
        lemma_slides_keep_occupied(blocks, (count - 1) as nat, iteration);
        lemma_slide_keeps_occupied(
            slide_times(blocks, (count - 1) as nat, iteration),
            0,
            iteration,
        );
    }
}

/// Below rank `rank`, every free block has nothing but free blocks above it.
pub open spec fn packed_before(blocks: Seq<Block>, rank: int) -> bool {
    forall|i: int, j: int|
        0 <= i < rank && i < j < blocks.len() && (#[trigger] blocks[i]).is_free() ==> (
        #[trigger] blocks[j]).is_free()
}

/// No occupied block stands above a free one.
pub open spec fn is_packed(blocks: Seq<Block>) -> bool {
    packed_before(blocks, blocks.len() as int)
}

/// A pass of compaction that goes on from rank `rank` packs the pool, if the
/// pool is packed below that rank.
pub proof fn lemma_slide_packs_from(blocks: Seq<Block>, rank: int, iteration: i32)
    requires
        0 <= rank,
        packed_before(blocks, rank),
    ensures
        is_packed(slide(blocks, rank, iteration).pool),
    decreases blocks.len() - rank,
{
    if rank < blocks.len() {
        lemma_next_occupied(blocks, rank);
        let occupied = next_occupied(blocks, rank);
        if blocks[rank].is_free() && occupied < blocks.len() {
            let after = swapped(blocks, rank, occupied);
            assert forall|i: int, j: int|
                0 <= i < rank + 1 && i < j < after.len() && (
                #[trigger] after[i]).is_free() implies (#[trigger] after[j]).is_free() by {
                if i < rank {
                    assert(after[i] == blocks[i]);
                    assert(blocks[occupied].is_free());
                }
            }
            lemma_slide_packs_from(after, rank + 1, iteration);
        } else {
            lemma_slide_packs_from(blocks, rank + 1, iteration);
        }
    }
}

/// One pass of compaction packs the pool: after it no occupied partition
/// stands above a free one.
pub proof fn lemma_slide_packs(blocks: Seq<Block>, iteration: i32)
    ensures
        is_packed(slide(blocks, 0, iteration).pool),
{
    lemma_slide_packs_from(blocks, 0, iteration);
}

} // verus!
