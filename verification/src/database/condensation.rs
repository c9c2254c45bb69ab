//! Condensation: every run of adjacent free partitions becomes one partition.

use crate::database::configuration::{increment_condensations, Settings};
use crate::database::layout::{
    block_of, free_block, layout, lemma_offset_bounded, lemma_offset_step, lemma_total_size_concat,
    lemma_total_size_split, offset_of, sizes_valid, total_size, Block, Slot,
};
use crate::database::models::NewCondensationLog;
use crate::database::statements::{
    create_condensation_log, select_all_storage_partitions_and_process_partitions,
    select_storage_partition_with_position,
};
use crate::database::{
    create_storage_partition_with_position, delete_storage_partition_with_id, Database,
};
use vstd::prelude::*;

verus! {

/// The number of free blocks that stand at the low end of `blocks` without an
/// occupied block among them.
pub open spec fn free_run(blocks: Seq<Block>) -> int
    decreases blocks.len(),
{
    if blocks.len() == 0 || !blocks[0].is_free() {
        0
    } else {
        1 + free_run(blocks.skip(1))
    }
}

/// Below rank `rank`, no free block is followed by a free block.
pub open spec fn condensed_before(blocks: Seq<Block>, rank: int) -> bool {
    forall|k: int, next: int|
        0 <= k < rank && next == k + 1 && next < blocks.len() ==> !((#[trigger] blocks[k]).is_free()
            && (#[trigger] blocks[next]).is_free())
}

/// No two free blocks are adjacent.
pub open spec fn is_condensed(blocks: Seq<Block>) -> bool {
    condensed_before(blocks, blocks.len() as int)
}

/// The records of one merge: one for each block of `run`, with the block
/// `merged` that replaced them.
pub open spec fn absorbed(run: Seq<Block>, merged: Block) -> Seq<NewCondensationLog> {
    Seq::new(
        run.len(),
        |k: int|
            NewCondensationLog {
                partition: run[k].number as i32,
                partition_size: run[k].size as i32,
                new_partition: merged.number as i32,
                new_partition_size: merged.size as i32,
            },
    )
}

/// What condensation makes of a pool: the pool after it, the number of merges,
/// and the records of the merges.
pub struct Condensed {
    pub pool: Seq<Block>,
    pub merges: int,
    pub records: Seq<NewCondensationLog>,
}

/// The condensation of `blocks`. From the low end on, every run of two or
/// more adjacent free blocks becomes one free block of their summed size,
/// numbered from `next_number` upwards in the order of the runs. All other
/// blocks stay as they are.
pub open spec fn condense(blocks: Seq<Block>, next_number: int) -> Condensed
    decreases blocks.len(),
    via condense_decreases
{
    if blocks.len() == 0 {
        Condensed { pool: blocks, merges: 0, records: Seq::empty() }
    } else {
        let run = free_run(blocks);
        if run >= 2 {
            let merged = free_block(next_number, total_size(blocks.take(run)));
            let rest = condense(blocks.skip(run), next_number + 1);
            Condensed {
                pool: seq![merged] + rest.pool,
                merges: 1 + rest.merges,
                records: absorbed(blocks.take(run), merged) + rest.records,
            }
        } else {
            let rest = condense(blocks.skip(1), next_number);
            Condensed {
                pool: seq![blocks[0]] + rest.pool,
                merges: rest.merges,
                records: rest.records,
            }
        }
    }
}

#[via_fn]
proof fn condense_decreases(blocks: Seq<Block>, next_number: int) {
    lemma_free_run(blocks);
}

/// A run is as long as the free blocks at the low end reach: it stays within
/// the pool, every block in it is free, and the block behind it is not.
pub proof fn lemma_free_run(blocks: Seq<Block>)
    ensures
        0 <= free_run(blocks) <= blocks.len(),
        forall|k: int| 0 <= k < free_run(blocks) ==> (#[trigger] blocks[k]).is_free(),
        free_run(blocks) < blocks.len() ==> !blocks[free_run(blocks)].is_free(),
    decreases blocks.len(),
{
    if blocks.len() > 0 && blocks[0].is_free() {
        let rest = blocks.skip(1);
        lemma_free_run(rest);
        assert forall|k: int| 0 <= k < free_run(blocks) implies
            (#[trigger] blocks[k]).is_free() by {
            if k > 0 {
                assert(blocks[k] == rest[k - 1]);
            }
        }
        if free_run(blocks) < blocks.len() {
            assert(blocks[free_run(blocks)] == rest[free_run(rest)]);
        }
    }
}

/// `count` free blocks at the low end with no free block behind them are the
/// run.
pub proof fn lemma_free_run_is(blocks: Seq<Block>, count: int)
    requires
        0 <= count <= blocks.len(),
        forall|k: int| 0 <= k < count ==> (#[trigger] blocks[k]).is_free(),
        count < blocks.len() ==> !blocks[count].is_free(),
    ensures
        free_run(blocks) == count,
    decreases count,
{
    if count > 0 {
        let rest = blocks.skip(1);
        assert(blocks[0].is_free());
        assert forall|k: int| 0 <= k < count - 1 implies (#[trigger] rest[k]).is_free() by {
            assert(rest[k] == blocks[k + 1]);
        }
        if count - 1 < rest.len() {
            assert(rest[count - 1] == blocks[count]);
        }
        lemma_free_run_is(rest, count - 1);
    }
}

/// A merge never happens among blocks of which no two adjacent ones are
/// free, so condensation passes over them: up to `rank` the pool stays, and
/// the rest is condensed by itself.
pub proof fn lemma_condense_passes(blocks: Seq<Block>, rank: int, next_number: int)
    requires
        0 <= rank <= blocks.len(),
        condensed_before(blocks, rank),
    ensures
        condense(blocks, next_number) == (Condensed {
            pool: blocks.take(rank) + condense(blocks.skip(rank), next_number).pool,
            merges: condense(blocks.skip(rank), next_number).merges,
            records: condense(blocks.skip(rank), next_number).records,
        }),
    decreases rank,
{
    if rank == 0 {
        assert(blocks.skip(0) =~= blocks);
        assert(blocks.take(0) + condense(blocks, next_number).pool =~= condense(
            blocks,
            next_number,
        ).pool);
    } else {
        let rest = blocks.skip(1);
        assert(free_run(blocks) <= 1) by {
            if blocks[0].is_free() {
                if rest.len() > 0 {
                    assert(rest[0] == blocks[1]);
                    assert(!blocks[1].is_free());
                }
                assert(free_run(rest) == 0);
            }
        }
        assert forall|k: int, next: int|
            0 <= k < rank - 1 && next == k + 1 && next < rest.len() implies !((
        #[trigger] rest[k]).is_free() && (#[trigger] rest[next]).is_free()) by {
            assert(rest[k] == blocks[k + 1]);
            assert(rest[next] == blocks[next + 1]);
        }
        lemma_condense_passes(rest, rank - 1, next_number);
        assert(rest.skip(rank - 1) =~= blocks.skip(rank));
        assert(seq![blocks[0]] + (rest.take(rank - 1) + condense(
            blocks.skip(rank),
            next_number,
        ).pool) =~= blocks.take(rank) + condense(blocks.skip(rank), next_number).pool);
    }
}

/// Condensation leaves a pool without adjacent free blocks as it is.
pub proof fn lemma_condense_settled(blocks: Seq<Block>, next_number: int)
    requires
        is_condensed(blocks),
    ensures
        condense(blocks, next_number) == (Condensed {
            pool: blocks,
            merges: 0,
            records: Seq::empty(),
        }),
{
    lemma_condense_passes(blocks, blocks.len() as int, next_number);
    assert(blocks.skip(blocks.len() as int) =~= Seq::<Block>::empty());
    assert(blocks.take(blocks.len() as int) + Seq::<Block>::empty() =~= blocks);
}

/// `count` blocks from rank `start` on are the first run that a condensation
/// merges: at least two, all free, no free block behind them, and no two
/// adjacent free blocks before them.
pub open spec fn is_first_run(blocks: Seq<Block>, start: int, count: int) -> bool {
    &&& 0 <= start
    &&& 2 <= count
    &&& start + count <= blocks.len()
    &&& forall|k: int| start <= k < start + count ==> (#[trigger] blocks[k]).is_free()
    &&& start + count < blocks.len() ==> !blocks[start + count].is_free()
    &&& condensed_before(blocks, start)
}

/// The pool after the run of `count` blocks from rank `start` on is merged
/// into one block with the sequence number `number`.
pub open spec fn merge_run(blocks: Seq<Block>, start: int, count: int, number: int) -> Seq<Block> {
    blocks.take(start) + seq![
        free_block(number, total_size(blocks.subrange(start, start + count))),
    ] + blocks.skip(start + count)
}

/// Condensation is the merge of the first run, followed by the condensation
/// of what that leaves.
pub proof fn lemma_condense_step(blocks: Seq<Block>, start: int, count: int, next_number: int)
    requires
        is_first_run(blocks, start, count),
    ensures
        condense(blocks, next_number) == ({
            let after = condense(merge_run(blocks, start, count, next_number), next_number + 1);
            Condensed {
                pool: after.pool,
                merges: 1 + after.merges,
                records: absorbed(
                    blocks.subrange(start, start + count),
                    free_block(next_number, total_size(blocks.subrange(start, start + count))),
                ) + after.records,
            }
        }),
{
    let run = blocks.subrange(start, start + count);
    let merged = free_block(next_number, total_size(run));
    let merged_pool = merge_run(blocks, start, count, next_number);
    let tail = blocks.skip(start + count);
    let from_start = blocks.skip(start);
    // Up to the run nothing is merged.
    lemma_condense_passes(blocks, start, next_number);
    // At the run, one merge happens.
    assert forall|k: int| 0 <= k < count implies (#[trigger] from_start[k]).is_free() by {
        assert(from_start[k] == blocks[start + k]);
    }
    if count < from_start.len() {
        assert(from_start[count] == blocks[start + count]);
    }
    lemma_free_run_is(from_start, count);
    assert(from_start.take(count) =~= run);
    assert(from_start.skip(count) =~= tail);
    let rest = condense(tail, next_number + 1);
    assert(condense(from_start, next_number) == (Condensed {
        pool: seq![merged] + rest.pool,
        merges: 1 + rest.merges,
        records: absorbed(run, merged) + rest.records,
    }));
    // In the merged pool nothing is merged up to and including the new block.
    assert(merged_pool.len() == blocks.len() - count + 1);
    assert forall|k: int, next: int|
        0 <= k < start + 1 && next == k + 1 && next < merged_pool.len() implies !((
    #[trigger] merged_pool[k]).is_free() && (#[trigger] merged_pool[next]).is_free()) by {
        if k < start {
            assert(merged_pool[k] == blocks[k]);
            if next < start {
                assert(merged_pool[next] == blocks[next]);
            } else {
                assert(blocks[start].is_free());
            }
        } else {
            assert(merged_pool[next] == blocks[start + count]);
        }
    }
    lemma_condense_passes(merged_pool, start + 1, next_number + 1);
    assert(merged_pool.skip(start + 1) =~= tail);
    assert(merged_pool.take(start + 1) =~= blocks.take(start) + seq![merged]);
    assert(blocks.take(start) + (seq![merged] + rest.pool) =~= (blocks.take(start) + seq![merged])
        + rest.pool);
}

/// Condensation changes no occupant: who occupied a block before does so
/// after, and nobody else.
pub proof fn lemma_condense_residents(blocks: Seq<Block>, next_number: int, process_id: int)
    ensures
        crate::database::layout::is_resident(condense(blocks, next_number).pool, process_id)
            == crate::database::layout::is_resident(blocks, process_id),
    decreases blocks.len(),
{
    if blocks.len() > 0 {
        lemma_free_run(blocks);
        let run = free_run(blocks);
        if run >= 2 {
            let merged = free_block(next_number, total_size(blocks.take(run)));
            let rest = condense(blocks.skip(run), next_number + 1);
            lemma_condense_residents(blocks.skip(run), next_number + 1, process_id);
            assert(blocks =~= blocks.take(run) + blocks.skip(run));
            crate::database::layout::lemma_resident_concat(
                blocks.take(run),
                blocks.skip(run),
                process_id,
            );
            crate::database::layout::lemma_resident_concat(seq![merged], rest.pool, process_id);
            assert forall|k: int| 0 <= k < blocks.take(run).len() implies (
            #[trigger] blocks.take(run)[k]).is_free() by {
                assert(blocks.take(run)[k] == blocks[k]);
            }
            crate::database::layout::lemma_resident_free(blocks.take(run), process_id);
            crate::database::layout::lemma_resident_free(seq![merged], process_id);
        } else {
            let rest = condense(blocks.skip(1), next_number);
            lemma_condense_residents(blocks.skip(1), next_number, process_id);
            assert(blocks =~= seq![blocks[0]] + blocks.skip(1));
            crate::database::layout::lemma_resident_concat(
                seq![blocks[0]],
                blocks.skip(1),
                process_id,
            );
            crate::database::layout::lemma_resident_concat(seq![blocks[0]], rest.pool, process_id);
        }
    }
}

/// Condensation leaves the pool as large as it was.
pub proof fn lemma_condense_size(blocks: Seq<Block>, next_number: int)
    ensures
        total_size(condense(blocks, next_number).pool) == total_size(blocks),
    decreases blocks.len(),
{
    if blocks.len() > 0 {
        lemma_free_run(blocks);
        let run = free_run(blocks);
        if run >= 2 {
            let merged = free_block(next_number, total_size(blocks.take(run)));
            let rest = condense(blocks.skip(run), next_number + 1);
            lemma_condense_size(blocks.skip(run), next_number + 1);
            lemma_total_size_concat(seq![merged], rest.pool);
            crate::database::layout::lemma_total_size_single(merged);
            lemma_total_size_split(blocks, run);
        } else {
            let rest = condense(blocks.skip(1), next_number);
            lemma_condense_size(blocks.skip(1), next_number);
            lemma_total_size_concat(seq![blocks[0]], rest.pool);
            crate::database::layout::lemma_total_size_single(blocks[0]);
            lemma_total_size_split(blocks, 1);
            assert(blocks.take(1) =~= seq![blocks[0]]);
        }
    }
}

/// A condensed pool starts with a free block only if the pool did before.
pub proof fn lemma_condense_first(blocks: Seq<Block>, next_number: int)
    ensures
        (condense(blocks, next_number).pool.len() == 0) == (blocks.len() == 0),
        blocks.len() > 0 ==> condense(blocks, next_number).pool[0].is_free() == blocks[0].is_free(),
{
    if blocks.len() > 0 {
        lemma_free_run(blocks);
    }
}

/// After condensation no two free blocks are adjacent.
pub proof fn lemma_condense_condenses(blocks: Seq<Block>, next_number: int)
    ensures
        is_condensed(condense(blocks, next_number).pool),
    decreases blocks.len(),
{
    if blocks.len() > 0 {
        lemma_free_run(blocks);
        let run = free_run(blocks);
        let step = if run >= 2 { run } else { 1 };
        let number = if run >= 2 { next_number + 1 } else { next_number };
        let head = if run >= 2 {
            free_block(next_number, total_size(blocks.take(run)))
        } else {
            blocks[0]
        };
        let rest = condense(blocks.skip(step), number);
        let pool = condense(blocks, next_number).pool;
        lemma_condense_condenses(blocks.skip(step), number);
        lemma_condense_first(blocks.skip(step), number);
        assert(pool == seq![head] + rest.pool);
        if blocks.skip(step).len() > 0 {
            assert(blocks.skip(step)[0] == blocks[step]);
        }
        assert forall|k: int, next: int|
            0 <= k < pool.len() && next == k + 1 && next < pool.len() implies !((
        #[trigger] pool[k]).is_free() && (#[trigger] pool[next]).is_free()) by {
            if k > 0 {
                assert(pool[k] == rest.pool[k - 1]);
                assert(pool[next] == rest.pool[next - 1]);
            } else {
                assert(pool[next] == rest.pool[0]);
            }
        }
    }
}

/// Condensing twice is condensing once: the second condensation, whatever
/// sequence number it starts from, merges nothing, writes no record and
/// leaves the pool as the first one left it.
pub proof fn lemma_condense_idempotent(blocks: Seq<Block>, next_number: int, later_number: int)
    ensures
        condense(condense(blocks, next_number).pool, later_number) == (Condensed {
            pool: condense(blocks, next_number).pool,
            merges: 0,
            records: Seq::empty(),
        }),
{
    lemma_condense_condenses(blocks, next_number);
    lemma_condense_settled(condense(blocks, next_number).pool, later_number);
}

/// Condensation makes a pool no longer.
pub proof fn lemma_condense_length(blocks: Seq<Block>, next_number: int)
    ensures
        condense(blocks, next_number).pool.len() <= blocks.len(),
    decreases blocks.len(),
{
    if blocks.len() > 0 {
        lemma_free_run(blocks);
        let run = free_run(blocks);
        if run >= 2 {
            lemma_condense_length(blocks.skip(run), next_number + 1);
        } else {
            lemma_condense_length(blocks.skip(1), next_number);
        }
    }
}

/// Condensation counts no merge below zero, and none without at least two
/// blocks to merge.
pub proof fn lemma_merges_bounded(blocks: Seq<Block>, next_number: int)
    ensures
        0 <= 2 * condense(blocks, next_number).merges <= blocks.len(),
    decreases blocks.len(),
{
    if blocks.len() > 0 {
        lemma_free_run(blocks);
        let run = free_run(blocks);
        if run >= 2 {
            lemma_merges_bounded(blocks.skip(run), next_number + 1);
        } else {
            lemma_merges_bounded(blocks.skip(1), next_number);
        }
    }
}

/// The first run of adjacent free partitions that a merge is due for: its
/// rank, its length and its summed size.
fn find_free_run(slots: &Vec<Slot>) -> (found: Option<(usize, usize, i32)>)
    requires
        sizes_valid(layout(slots@)),
        total_size(layout(slots@)) <= i32::MAX,
    ensures
        match found {
            Some((start, count, size)) => {
                &&& is_first_run(layout(slots@), start as int, count as int)
                &&& size == total_size(layout(slots@).subrange(start as int, start + count))
            },
            None => is_condensed(layout(slots@)),
        },
{
    let ghost blocks = layout(slots@);
    let mut i: usize = 0;
    while i < slots.len()
        invariant
            i <= slots.len(),
            blocks == layout(slots@),
            sizes_valid(blocks),
            total_size(blocks) <= i32::MAX,
            condensed_before(blocks, i as int),
        decreases slots.len() - i,
    {
        // If there is no process here, see how far the free partitions reach.
        if slots[i].1.is_none() {
            let mut new_partition_size: i32 = 0;
            let mut partitions_changed: usize = 0;
            let mut e: usize = i;
            while e < slots.len() && slots[e].1.is_none()
                invariant
                    i <= e <= slots.len(),
                    blocks == layout(slots@),
                    sizes_valid(blocks),
                    total_size(blocks) <= i32::MAX,
                    partitions_changed == e - i,
                    new_partition_size == offset_of(blocks, e as int) - offset_of(blocks, i as int),
                    forall|k: int| i <= k < e ==> (#[trigger] blocks[k]).is_free(),
                decreases slots.len() - e,
            {
                proof {
                    assert(blocks[e as int] == block_of(slots[e as int]));
                    lemma_offset_step(blocks, e as int);
                    lemma_offset_bounded(blocks, e as int + 1);
                    lemma_offset_bounded(blocks, i as int);
                }
                new_partition_size = new_partition_size + slots[e].0.size;
                partitions_changed = partitions_changed + 1;
                e = e + 1;
            }
            proof {
                if e < slots.len() {
                    assert(blocks[e as int] == block_of(slots[e as int]));
                }
                crate::database::layout::lemma_total_size_subrange(blocks, i as int, e as int);
            }
            // More than one of them: they are to be merged.
            if partitions_changed > 1 {
                return Some((i, partitions_changed, new_partition_size));
            }
        }
        proof {
            assert(blocks[i as int] == block_of(slots[i as int]));
            if i + 1 < slots.len() {
                assert(blocks[i + 1] == block_of(slots[i + 1]));
            }
        }
        i = i + 1;
    }
    None
}

/// Takes the `count` partitions from rank `start` on out of the pool.
fn delete_run(db: &mut Database, slots: &Vec<Slot>, start: usize, count: usize)
    requires
        old(db).wf(),
        slots@ == old(db).storage_partitions@,
        start + count <= slots.len(),
    ensures
        final(db).wf(),
        final(db).layout() == old(db).layout().take(start as int) + old(db).layout().skip(
            start + count,
        ),
        *final(db) == (Database { storage_partitions: final(db).storage_partitions, ..*old(db) }),
{
    let ghost before = *db;
    let ghost blocks = db.layout();
    proof {
        crate::database::layout::lemma_table_bounds(db.storage_partitions@, db.next_number());
        assert(blocks.take(start as int) + blocks.skip(start as int) =~= blocks);
    }
    let mut e: usize = start;
    while e < start + count
        invariant
            start <= e <= start + count <= slots.len(),
            blocks == layout(slots@),
            crate::database::layout::keyed(slots@),
            db.wf(),
            db.layout() == blocks.take(start as int) + blocks.skip(e as int),
            *db == (Database { storage_partitions: db.storage_partitions, ..before }),
        decreases start + count - e,
    {
        let ghost current = db.layout();
        proof {
            assert(current[start as int] == blocks[e as int]);
            assert(blocks[e as int] == block_of(slots[e as int]));
        }
        delete_storage_partition_with_id(db, slots[e].0.id);
        proof {
            assert(current[start as int].number == slots[e as int].0.id);
            assert(current.remove(start as int) =~= blocks.take(start as int) + blocks.skip(
                e + 1,
            ));
        }
        e = e + 1;
    }
}

/// Writes one record for each of the `count` partitions from rank `start` on
/// in `slots`, absorbed by `created_partition`.
fn record_run(
    db: &mut Database,
    slots: &Vec<Slot>,
    start: usize,
    count: usize,
    created_partition: crate::database::models::StoragePartition,
)
    requires
        start + count <= slots.len(),
    ensures
        final(db).condensation_logs@ == old(db).condensation_logs@ + absorbed(
            layout(slots@).subrange(start as int, start + count),
            free_block(created_partition.number as int, created_partition.size as int),
        ),
        *final(db) == (Database { condensation_logs: final(db).condensation_logs, ..*old(db) }),
{
    let ghost before = *db;
    let ghost blocks = layout(slots@);
    let ghost run = blocks.subrange(start as int, start + count);
    let ghost merged = free_block(created_partition.number as int, created_partition.size as int);
    let mut e: usize = start;
    proof {
        assert(db.condensation_logs@ =~= before.condensation_logs@ + absorbed(run, merged).take(0));
    }
    while e < start + count
        invariant
            start <= e <= start + count <= slots.len(),
            blocks == layout(slots@),
            run == blocks.subrange(start as int, start + count),
            merged == free_block(created_partition.number as int, created_partition.size as int),
            db.condensation_logs@ == before.condensation_logs@ + absorbed(run, merged).take(
                e - start,
            ),
            *db == (Database { condensation_logs: db.condensation_logs, ..before }),
        decreases start + count - e,
    {
        create_condensation_log(
            db,
            slots[e].0.number,
            slots[e].0.size,
            created_partition.number,
            created_partition.size,
        );
        proof {
            assert(blocks[e as int] == block_of(slots[e as int]));
            assert(run[e - start] == blocks[e as int]);
            assert(absorbed(run, merged).take(e - start + 1) =~= absorbed(run, merged).take(
                e - start,
            ).push(absorbed(run, merged)[e - start]));
        }
        e = e + 1;
    }
    proof {
        assert(absorbed(run, merged).take(count as int) =~= absorbed(run, merged));
    }
}

/// Replaces the run of `count` free partitions from rank `start` on, of the
/// summed size `size`, by one partition, and writes the records of the merge.
fn merge_free_run(db: &mut Database, slots: &Vec<Slot>, start: usize, count: usize, size: i32)
    requires
        old(db).wf(),
        slots@ == old(db).storage_partitions@,
        is_first_run(old(db).layout(), start as int, count as int),
        size == total_size(old(db).layout().subrange(start as int, start + count)),
        old(db).next_number() < i32::MAX,
        old(db).configuration.condensations < i32::MAX,
    ensures
        final(db).wf(),
        final(db).layout() == merge_run(
            old(db).layout(),
            start as int,
            count as int,
            old(db).next_number(),
        ),
        final(db).condensation_logs@ == old(db).condensation_logs@ + absorbed(
            old(db).layout().subrange(start as int, start + count),
            free_block(old(db).next_number(), size as int),
        ),
        *final(db) == (Database {
            storage_partitions: final(db).storage_partitions,
            condensation_logs: final(db).condensation_logs,
            configuration: Settings {
                partition_consecutive_number: (old(db).next_number() + 1) as i32,
                condensations: (old(db).configuration.condensations + 1) as i32,
                ..old(db).configuration
            },
            ..*old(db)
        }),
{
    let ghost blocks = db.layout();
    proof {
        crate::database::layout::lemma_table_bounds(db.storage_partitions@, db.next_number());
        crate::database::layout::lemma_total_size_subrange(blocks, start as int, start + count);
        crate::database::layout::lemma_offsets_ordered(blocks, start as int, start + count);
        lemma_total_size_split(blocks, start + count);
        lemma_offset_bounded(blocks, start as int);
        lemma_total_size_concat(blocks.take(start as int), blocks.skip(start + count));
    }
    // Delete all the partitions of the run.
    delete_run(db, slots, start, count);
    // Create the one big partition at the rank where the run started.
    create_storage_partition_with_position(db, start as i32, size);
    proof {
        assert(db.layout()
            =~= merge_run(blocks, start as int, count as int, old(db).next_number()));
    }
    // Write the record of every partition that was merged.
    let created_partition = select_storage_partition_with_position(db, start as i32);
    proof {
        assert(db.layout()[start as int] == block_of(db.storage_partitions[start as int]));
    }
    record_run(db, slots, start, count, created_partition);
    // And count the merge.
    increment_condensations(db);
}

/// Merges every run of adjacent free partitions into one partition, from the
/// low end on, until no two free partitions are adjacent. Each merge takes the
/// next sequence number for the new partition, writes one record for each
/// partition that it absorbed, and is counted as one condensation.
pub fn merge_storage_partitions(db: &mut Database)
    requires
        old(db).wf(),
        old(db).next_number() + condense(old(db).layout(), old(db).next_number()).merges
            <= i32::MAX,
        old(db).configuration.condensations + condense(
            old(db).layout(),
            old(db).next_number(),
        ).merges <= i32::MAX,
    ensures
        final(db).wf(),
        final(db).layout() == condense(old(db).layout(), old(db).next_number()).pool,
        is_condensed(final(db).layout()),
        final(db).condensation_logs@ == old(db).condensation_logs@ + condense(
            old(db).layout(),
            old(db).next_number(),
        ).records,
        *final(db) == (Database {
            storage_partitions: final(db).storage_partitions,
            condensation_logs: final(db).condensation_logs,
            configuration: Settings {
                partition_consecutive_number: (old(db).next_number() + condense(
                    old(db).layout(),
                    old(db).next_number(),
                ).merges) as i32,
                condensations: (old(db).configuration.condensations + condense(
                    old(db).layout(),
                    old(db).next_number(),
                ).merges) as i32,
                ..old(db).configuration
            },
            ..*old(db)
        }),
        old(db).within_capacity() ==> final(db).within_capacity(),
{
    let ghost before = *db;
    let ghost target = condense(db.layout(), db.next_number());
    proof {
        lemma_condense_size(db.layout(), db.next_number());
    }
    let ghost mut done: int = 0;
    // Merge until a scan finds nothing more to merge.
    let mut has_finished_merging = false;
    while !has_finished_merging
        invariant
            db.wf(),
            0 <= done,
            target == condense(before.layout(), before.next_number()),
            before.next_number() + target.merges <= i32::MAX,
            before.configuration.condensations + target.merges <= i32::MAX,
            target.pool == condense(db.layout(), db.next_number()).pool,
            target.merges == done + condense(db.layout(), db.next_number()).merges,
            before.condensation_logs@ + target.records == db.condensation_logs@ + condense(
                db.layout(),
                db.next_number(),
            ).records,
            *db == (Database {
                storage_partitions: db.storage_partitions,
                condensation_logs: db.condensation_logs,
                configuration: Settings {
                    partition_consecutive_number: (before.next_number() + done) as i32,
                    condensations: (before.configuration.condensations + done) as i32,
                    ..before.configuration
                },
                ..before
            }),
            has_finished_merging ==> is_condensed(db.layout()),
        decreases db.storage_partitions.len() + (if has_finished_merging { 0int } else { 1int }),
    {
        // Get all the partitions at the start, so the changes are reflected.
        let storage_partitions = select_all_storage_partitions_and_process_partitions(db);
        proof {
            crate::database::layout::lemma_table_bounds(db.storage_partitions@, db.next_number());
        }
        match find_free_run(&storage_partitions) {
            Some((start, count, size)) => {
                proof {
                    lemma_condense_step(db.layout(), start as int, count as int, db.next_number());
                    lemma_merges_bounded(
                        merge_run(db.layout(), start as int, count as int, db.next_number()),
                        db.next_number() + 1,
                    );
                }
                let ghost logs = db.condensation_logs@;
                let ghost step = absorbed(
                    db.layout().subrange(start as int, start + count),
                    free_block(db.next_number(), size as int),
                );
                let ghost rest = condense(
                    merge_run(db.layout(), start as int, count as int, db.next_number()),
                    db.next_number() + 1,
                );
                merge_free_run(db, &storage_partitions, start, count, size);
                proof {
                    done = done + 1;
                    assert(logs + (step + rest.records) =~= (logs + step) + rest.records);
                }
            },
            None => {
                has_finished_merging = true;
            },
        }
    }
    proof {
        lemma_condense_settled(db.layout(), db.next_number());
        assert(db.condensation_logs@ + Seq::<NewCondensationLog>::empty()
            =~= db.condensation_logs@);
    }
}

} // verus!
