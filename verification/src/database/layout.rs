//! The pool as mathematics: a sequence of blocks, lowest offset first.
//!
//! A block is what is essential of a partition: its sequence number, its size
//! and its occupant. Rank and offsets follow from the order and the sizes, so
//! the operations on the pool are stated as operations on this sequence.

use crate::database::models::StoragePartition;
use vstd::prelude::*;

verus! {

/// An entry of the partition table: a partition and the id of the process
/// bound to it, if any.
pub type Slot = (StoragePartition, Option<i32>);

/// A partition reduced to its sequence number, its size and its occupant.
pub struct Block {
    pub number: int,
    pub size: int,
    pub process: Option<int>,
}

impl Block {
    /// No process occupies the block.
    pub open spec fn is_free(self) -> bool {
        self.process is None
    }

    /// The block with `process_id` as its occupant.
    pub open spec fn bound_to(self, process_id: int) -> Block {
        Block { number: self.number, size: self.size, process: Some(process_id) }
    }

    /// The block without an occupant.
    pub open spec fn released(self) -> Block {
        Block { number: self.number, size: self.size, process: None }
    }
}

/// A free block.
pub open spec fn free_block(number: int, size: int) -> Block {
    Block { number, size, process: None }
}

/// The block that stands for a table entry.
pub open spec fn block_of(slot: Slot) -> Block {
    Block {
        number: slot.0.number as int,
        size: slot.0.size as int,
        process: match slot.1 {
            Some(process_id) => Some(process_id as int),
            None => None,
        },
    }
}

/// The blocks that stand for the entries of a table, in the table's order.
pub open spec fn layout(slots: Seq<Slot>) -> Seq<Block> {
    Seq::new(slots.len(), |k: int| block_of(slots[k]))
}

/// The sum of the sizes of `blocks`.
pub open spec fn total_size(blocks: Seq<Block>) -> int
    decreases blocks.len(),
{
    if blocks.len() == 0 {
        0
    } else {
        total_size(blocks.drop_last()) + blocks.last().size
    }
}

/// The offset at which the block of rank `position` starts: the sizes of all
/// blocks of lower rank, added up.
pub open spec fn offset_of(blocks: Seq<Block>, position: int) -> int {
    total_size(blocks.take(position))
}

/// No block has a negative size.
pub open spec fn sizes_valid(blocks: Seq<Block>) -> bool {
    forall|k: int| 0 <= k < blocks.len() ==> (#[trigger] blocks[k]).size >= 0
}

/// `process_id` occupies a block.
pub open spec fn is_resident(blocks: Seq<Block>, process_id: int) -> bool {
    exists|k: int| 0 <= k < blocks.len() && (#[trigger] blocks[k]).process == Some(process_id)
}

/// No process occupies two blocks.
pub open spec fn occupants_distinct(blocks: Seq<Block>) -> bool {
    forall|i: int, j: int|
        0 <= i < j < blocks.len() && (#[trigger] blocks[i]).process is Some ==> blocks[i].process
            != (#[trigger] blocks[j]).process
}

/// No sequence number occurs twice, and none has reached `next_number`.
pub open spec fn numbers_valid(blocks: Seq<Block>, next_number: int) -> bool {
    &&& forall|k: int| 0 <= k < blocks.len() ==> (#[trigger] blocks[k]).number < next_number
    &&& forall|i: int, j: int|
        0 <= i < j < blocks.len() ==> (#[trigger] blocks[i]).number != (#[trigger] blocks[j]).number
}

/// Every entry holds the rank and the offsets that its place in the table
/// gives it.
pub open spec fn arranged(slots: Seq<Slot>) -> bool {
    forall|k: int|
        0 <= k < slots.len() ==> {
            &&& (#[trigger] slots[k]).0.position == k
            &&& slots[k].0.position_start == offset_of(layout(slots), k)
            &&& slots[k].0.position_end == offset_of(layout(slots), k) + slots[k].0.size
        }
}

/// The id of every partition is its sequence number.
pub open spec fn keyed(slots: Seq<Slot>) -> bool {
    forall|k: int| 0 <= k < slots.len() ==> (#[trigger] slots[k]).0.id == slots[k].0.number
}

/// A pool is valid: sizes are not negative, sequence numbers are unique and
/// below `next_number`, and occupants are unique.
pub open spec fn pool_valid(blocks: Seq<Block>, next_number: int) -> bool {
    &&& sizes_valid(blocks)
    &&& numbers_valid(blocks, next_number)
    &&& occupants_distinct(blocks)
}

/// A partition table is valid: its pool is valid, and ranks and offsets are
/// exact.
#[verifier::opaque]
pub open spec fn table_valid(slots: Seq<Slot>, next_number: int) -> bool {
    &&& pool_valid(layout(slots), next_number)
    &&& arranged(slots)
    &&& keyed(slots)
}

/// The size of a concatenation is the sum of the sizes of its parts.
pub proof fn lemma_total_size_concat(front: Seq<Block>, back: Seq<Block>)
    ensures
        total_size(front + back) == total_size(front) + total_size(back),
    decreases back.len(),
{
    if back.len() == 0 {
        assert(front + back =~= front);
    } else {
        assert((front + back).drop_last() =~= front + back.drop_last());
        lemma_total_size_concat(front, back.drop_last());
    }
}

/// The size of a single block is its own.
pub proof fn lemma_total_size_single(block: Block)
    ensures
        total_size(seq![block]) == block.size,
{
    assert(seq![block].drop_last() =~= Seq::<Block>::empty());
    assert(total_size(seq![block].drop_last()) == 0);
}

/// Without negative sizes, no part of the pool is larger than the whole.
pub proof fn lemma_total_size_nonnegative(blocks: Seq<Block>)
    requires
        sizes_valid(blocks),
    ensures
        total_size(blocks) >= 0,
    decreases blocks.len(),
{
    if blocks.len() > 0 {
        assert(blocks.drop_last().len() == blocks.len() - 1);
        assert forall|k: int| 0 <= k < blocks.drop_last().len() implies
            (#[trigger] blocks.drop_last()[k]).size >= 0 by {
            assert(blocks.drop_last()[k] == blocks[k]);
        }
        lemma_total_size_nonnegative(blocks.drop_last());
        assert(blocks.last() == blocks[blocks.len() - 1]);
    }
}

/// A block ends where the next one starts.
pub proof fn lemma_offset_step(blocks: Seq<Block>, position: int)
    requires
        0 <= position < blocks.len(),
    ensures
        offset_of(blocks, position + 1) == offset_of(blocks, position) + blocks[position].size,
        offset_of(blocks, 0) == 0,
        offset_of(blocks, blocks.len() as int) == total_size(blocks),
{
    assert(blocks.take(position + 1).drop_last() =~= blocks.take(position));
    assert(blocks.take(position + 1).last() == blocks[position]);
    assert(blocks.take(0) =~= Seq::<Block>::empty());
    assert(blocks.take(blocks.len() as int) =~= blocks);
}

/// The pool splits at any rank into the part below and the part from there on.
pub proof fn lemma_total_size_split(blocks: Seq<Block>, position: int)
    requires
        0 <= position <= blocks.len(),
    ensures
        total_size(blocks) == offset_of(blocks, position) + total_size(blocks.skip(position)),
{
    assert(blocks =~= blocks.take(position) + blocks.skip(position));
    lemma_total_size_concat(blocks.take(position), blocks.skip(position));
}

/// Without negative sizes, offsets grow with the rank and stay within the
/// size of the pool.
pub proof fn lemma_offset_bounded(blocks: Seq<Block>, position: int)
    requires
        sizes_valid(blocks),
        0 <= position <= blocks.len(),
    ensures
        0 <= offset_of(blocks, position) <= total_size(blocks),
{
    lemma_total_size_split(blocks, position);
    assert forall|k: int| 0 <= k < blocks.take(position).len() implies
        (#[trigger] blocks.take(position)[k]).size >= 0 by {
        assert(blocks.take(position)[k] == blocks[k]);
    }
    assert forall|k: int| 0 <= k < blocks.skip(position).len() implies
        (#[trigger] blocks.skip(position)[k]).size >= 0 by {
        assert(blocks.skip(position)[k] == blocks[k + position]);
    }
    lemma_total_size_nonnegative(blocks.take(position));
    lemma_total_size_nonnegative(blocks.skip(position));
}

/// Putting a block into the pool adds its size.
pub proof fn lemma_total_size_insert(blocks: Seq<Block>, position: int, block: Block)
    requires
        0 <= position <= blocks.len(),
    ensures
        total_size(blocks.insert(position, block)) == total_size(blocks) + block.size,
{
    assert(blocks.insert(position, block) =~= blocks.take(position) + seq![block] + blocks.skip(
        position,
    ));
    lemma_total_size_concat(blocks.take(position) + seq![block], blocks.skip(position));
    lemma_total_size_concat(blocks.take(position), seq![block]);
    lemma_total_size_single(block);
    lemma_total_size_split(blocks, position);
}

/// Taking a block out of the pool takes its size away.
pub proof fn lemma_total_size_remove(blocks: Seq<Block>, position: int)
    requires
        0 <= position < blocks.len(),
    ensures
        total_size(blocks.remove(position)) == total_size(blocks) - blocks[position].size,
{
    let rest = blocks.remove(position);
    assert(rest.insert(position, blocks[position]) =~= blocks);
    lemma_total_size_insert(rest, position, blocks[position]);
}

/// Replacing a block changes the size of the pool by the difference.
pub proof fn lemma_total_size_update(blocks: Seq<Block>, position: int, block: Block)
    requires
        0 <= position < blocks.len(),
    ensures
        total_size(blocks.update(position, block)) == total_size(blocks) - blocks[position].size
            + block.size,
{
    assert(blocks.update(position, block) =~= blocks.remove(position).insert(position, block));
    lemma_total_size_remove(blocks, position);
    lemma_total_size_insert(blocks.remove(position), position, block);
}

/// A valid pool stays valid when a block with a fresh sequence number and an
/// occupant that holds no other block is put into it.
pub proof fn lemma_pool_insert(
    blocks: Seq<Block>,
    position: int,
    block: Block,
    next_number: int,
    new_next_number: int,
)
    requires
        pool_valid(blocks, next_number),
        0 <= position <= blocks.len(),
        block.size >= 0,
        next_number <= block.number < new_next_number,
        block.process matches Some(process_id) ==> !is_resident(blocks, process_id),
    ensures
        pool_valid(blocks.insert(position, block), new_next_number),
{
    let after = blocks.insert(position, block);
    assert forall|k: int| 0 <= k < after.len() implies (#[trigger] after[k]).size >= 0
        && after[k].number < new_next_number by {
        if k < position {
            assert(after[k] == blocks[k]);
        } else if k > position {
            assert(after[k] == blocks[k - 1]);
        }
    }
    assert forall|i: int, j: int| 0 <= i < j < after.len() implies (#[trigger] after[i]).number != (
    #[trigger] after[j]).number && (after[i].process is Some ==> after[i].process
        != after[j].process) by {
        let before_i = if i < position { i } else { i - 1 };
        let before_j = if j < position { j } else { j - 1 };
        if i != position {
            assert(after[i] == blocks[before_i]);
        }
        if j != position {
            assert(after[j] == blocks[before_j]);
        }
    }
}

/// A valid pool stays valid when a block is taken out of it.
pub proof fn lemma_pool_remove(blocks: Seq<Block>, position: int, next_number: int)
    requires
        pool_valid(blocks, next_number),
        0 <= position < blocks.len(),
    ensures
        pool_valid(blocks.remove(position), next_number),
{
    let after = blocks.remove(position);
    assert forall|k: int| 0 <= k < after.len() implies (#[trigger] after[k]).size >= 0
        && after[k].number < next_number by {
        if k < position {
            assert(after[k] == blocks[k]);
        } else {
            assert(after[k] == blocks[k + 1]);
        }
    }
    assert forall|i: int, j: int| 0 <= i < j < after.len() implies (#[trigger] after[i]).number != (
    #[trigger] after[j]).number && (after[i].process is Some ==> after[i].process
        != after[j].process) by {
        let before_i = if i < position { i } else { i + 1 };
        let before_j = if j < position { j } else { j + 1 };
        assert(after[i] == blocks[before_i]);
        assert(after[j] == blocks[before_j]);
    }
}

/// A valid pool stays valid when the occupant of one block changes to none,
/// or to a process that holds no block.
pub proof fn lemma_pool_rebind(
    blocks: Seq<Block>,
    position: int,
    process: Option<int>,
    next_number: int,
)
    requires
        pool_valid(blocks, next_number),
        0 <= position < blocks.len(),
        process matches Some(process_id) ==> !is_resident(blocks, process_id),
    ensures
        pool_valid(
            blocks.update(
                position,
                Block { number: blocks[position].number, size: blocks[position].size, process },
            ),
            next_number,
        ),
{
    let after = blocks.update(
        position,
        Block { number: blocks[position].number, size: blocks[position].size, process },
    );
    assert forall|k: int| 0 <= k < after.len() implies (#[trigger] after[k]).size >= 0
        && after[k].number < next_number by {
        if k != position {
            assert(after[k] == blocks[k]);
        }
    }
    assert forall|i: int, j: int| 0 <= i < j < after.len() implies (#[trigger] after[i]).number != (
    #[trigger] after[j]).number && (after[i].process is Some ==> after[i].process
        != after[j].process) by {
        if i != position {
            assert(after[i] == blocks[i]);
        }
        if j != position {
            assert(after[j] == blocks[j]);
        }
    }
}

/// The blocks of a table with one more entry are the blocks of the table with
/// one more block.
pub proof fn lemma_layout_insert(slots: Seq<Slot>, position: int, slot: Slot)
    requires
        0 <= position <= slots.len(),
    ensures
        layout(slots.insert(position, slot)) == layout(slots).insert(position, block_of(slot)),
{
    assert(layout(slots.insert(position, slot)) =~= layout(slots).insert(position, block_of(slot)));
}

/// The blocks of a table with one entry less are the blocks of the table with
/// one block less.
pub proof fn lemma_layout_remove(slots: Seq<Slot>, position: int)
    requires
        0 <= position < slots.len(),
    ensures
        layout(slots.remove(position)) == layout(slots).remove(position),
{
    assert(layout(slots.remove(position)) =~= layout(slots).remove(position));
}

/// The blocks of a table with one entry replaced are the blocks of the table
/// with one block replaced.
pub proof fn lemma_layout_update(slots: Seq<Slot>, position: int, slot: Slot)
    requires
        0 <= position < slots.len(),
    ensures
        layout(slots.update(position, slot)) == layout(slots).update(position, block_of(slot)),
{
    assert(layout(slots.update(position, slot)) =~= layout(slots).update(position, block_of(slot)));
}

/// A table with one more entry is keyed if the table and the entry are.
pub proof fn lemma_keyed_insert(slots: Seq<Slot>, position: int, slot: Slot)
    requires
        keyed(slots),
        0 <= position <= slots.len(),
        slot.0.id == slot.0.number,
    ensures
        keyed(slots.insert(position, slot)),
{
    let after = slots.insert(position, slot);
    assert forall|k: int| 0 <= k < after.len() implies (#[trigger] after[k]).0.id
        == after[k].0.number by {
        if k < position {
            assert(after[k] == slots[k]);
        } else if k > position {
            assert(after[k] == slots[k - 1]);
        }
    }
}

/// A table with one entry less is keyed if the table is.
pub proof fn lemma_keyed_remove(slots: Seq<Slot>, position: int)
    requires
        keyed(slots),
        0 <= position < slots.len(),
    ensures
        keyed(slots.remove(position)),
{
    let after = slots.remove(position);
    assert forall|k: int| 0 <= k < after.len() implies (#[trigger] after[k]).0.id
        == after[k].0.number by {
        if k < position {
            assert(after[k] == slots[k]);
        } else {
            assert(after[k] == slots[k + 1]);
        }
    }
}

/// The blocks say all there is to say about a valid table: two valid tables
/// with the same blocks are the same table.
pub proof fn lemma_table_determined(first: Seq<Slot>, second: Seq<Slot>)
    requires
        arranged(first),
        arranged(second),
        keyed(first),
        keyed(second),
        layout(first) == layout(second),
    ensures
        first == second,
{
    assert(first.len() == layout(first).len());
    assert(second.len() == layout(second).len());
    assert forall|k: int| 0 <= k < first.len() implies first[k] == second[k] by {
        assert(block_of(first[k]) == layout(first)[k]);
        assert(block_of(second[k]) == layout(second)[k]);
        assert(first[k].0.position == second[k].0.position);
        assert(first[k].0 == second[k].0);
        assert(first[k].1 == second[k].1);
    }
    assert(first =~= second);
}

/// The blocks from rank `from` up to rank `to` fill the offsets between the
/// two ranks.
pub proof fn lemma_total_size_subrange(blocks: Seq<Block>, from: int, to: int)
    requires
        0 <= from <= to <= blocks.len(),
    ensures
        total_size(blocks.subrange(from, to)) == offset_of(blocks, to) - offset_of(blocks, from),
{
    assert(blocks.take(to) =~= blocks.take(from) + blocks.subrange(from, to));
    lemma_total_size_concat(blocks.take(from), blocks.subrange(from, to));
}

/// Without negative sizes, a higher rank starts at no lower offset.
pub proof fn lemma_offsets_ordered(blocks: Seq<Block>, from: int, to: int)
    requires
        sizes_valid(blocks),
        0 <= from <= to <= blocks.len(),
    ensures
        offset_of(blocks, from) <= offset_of(blocks, to),
{
    lemma_total_size_subrange(blocks, from, to);
    assert forall|k: int| 0 <= k < blocks.subrange(from, to).len() implies (
    #[trigger] blocks.subrange(from, to)[k]).size >= 0 by {
        assert(blocks.subrange(from, to)[k] == blocks[from + k]);
    }
    lemma_total_size_nonnegative(blocks.subrange(from, to));
}

/// In a valid table ranks and offsets fit their fields: the table has at most
/// `i32::MAX + 1` entries, and its pool is no larger than `i32::MAX`.
pub proof fn lemma_table_bounds(slots: Seq<Slot>, next_number: int)
    requires
        table_valid(slots, next_number),
    ensures
        slots.len() <= i32::MAX + 1,
        0 <= total_size(layout(slots)) <= i32::MAX,
        pool_valid(layout(slots), next_number),
        keyed(slots),
{
    reveal(table_valid);
    lemma_total_size_nonnegative(layout(slots));
    if slots.len() > 0 {
        let last = slots.len() - 1;
        assert(slots[last].0.position == last);
        lemma_offset_step(layout(slots), last);
        assert(layout(slots)[last] == block_of(slots[last]));
    }
}

/// What a valid table holds at rank `position`: the rank, and the offsets
/// that the sizes below it add up to.
pub proof fn lemma_table_entry(slots: Seq<Slot>, next_number: int, position: int)
    requires
        table_valid(slots, next_number),
        0 <= position < slots.len(),
    ensures
        slots[position].0.position == position,
        slots[position].0.position_start == offset_of(layout(slots), position),
        slots[position].0.position_end == offset_of(layout(slots), position + 1),
        slots[position].0.position_end == slots[position].0.position_start + slots[position].0.size,
        slots[position].0.id == slots[position].0.number,
        slots[position].0.size >= 0,
        layout(slots)[position] == block_of(slots[position]),
{
    reveal(table_valid);
    lemma_offset_step(layout(slots), position);
    assert(layout(slots)[position] == block_of(slots[position]));
}

/// The pool with the block of rank `from` moved to rank `to`.
pub open spec fn moved(blocks: Seq<Block>, from: int, to: int) -> Seq<Block> {
    blocks.remove(from).insert(to, blocks[from])
}

/// The pool with the blocks of the ranks `first` and `second` exchanged.
pub open spec fn swapped(blocks: Seq<Block>, first: int, second: int) -> Seq<Block> {
    blocks.update(first, blocks[second]).update(second, blocks[first])
}

/// A valid pool stays valid, and as large as it was, when a block moves to
/// another rank.
pub proof fn lemma_pool_move(blocks: Seq<Block>, from: int, to: int, next_number: int)
    requires
        pool_valid(blocks, next_number),
        0 <= from < blocks.len(),
        0 <= to < blocks.len(),
    ensures
        pool_valid(moved(blocks, from, to), next_number),
        total_size(moved(blocks, from, to)) == total_size(blocks),
{
    let rest = blocks.remove(from);
    let after = moved(blocks, from, to);
    lemma_total_size_remove(blocks, from);
    lemma_total_size_insert(rest, to, blocks[from]);
    let source = |x: int|
        if x == to {
            from
        } else {
            let y = if x < to { x } else { x - 1 };
            if y < from { y } else { y + 1 }
        };
    assert forall|x: int| 0 <= x < after.len() implies #[trigger] after[x] == blocks[source(x)]
        && 0 <= source(x) < blocks.len() by {
        if x != to {
            let y = if x < to { x } else { x - 1 };
            assert(after[x] == rest[y]);
        }
    }
    assert forall|k: int| 0 <= k < after.len() implies (#[trigger] after[k]).size >= 0
        && after[k].number < next_number by {
        assert(after[k] == blocks[source(k)]);
    }
    assert forall|i: int, j: int| 0 <= i < j < after.len() implies (#[trigger] after[i]).number != (
    #[trigger] after[j]).number && (after[i].process is Some ==> after[i].process
        != after[j].process) by {
        assert(after[i] == blocks[source(i)]);
        assert(after[j] == blocks[source(j)]);
        assert(source(i) != source(j));
        if source(i) < source(j) {
            assert(blocks[source(i)].number != blocks[source(j)].number);
        } else {
            assert(blocks[source(j)].number != blocks[source(i)].number);
        }
    }
}

/// Exchanging two blocks is moving the higher one to the lower rank and then
/// the lower one, which stands one rank above by then, to the higher rank.
pub proof fn lemma_swap_by_moves(blocks: Seq<Block>, low: int, high: int)
    requires
        0 <= low < high < blocks.len(),
    ensures
        moved(moved(blocks, high, low), low + 1, high) == swapped(blocks, low, high),
{
    assert(moved(moved(blocks, high, low), low + 1, high) =~= swapped(blocks, low, high));
}

/// The block `block` with `process` as its occupant, or with none.
pub open spec fn rebound(block: Block, process: Option<int>) -> Block {
    Block { number: block.number, size: block.size, process }
}

/// Offsets do not depend on who occupies the blocks.
pub proof fn lemma_offsets_rebind(
    blocks: Seq<Block>,
    position: int,
    process: Option<int>,
    rank: int,
)
    requires
        0 <= position < blocks.len(),
        0 <= rank <= blocks.len(),
    ensures
        offset_of(blocks.update(position, rebound(blocks[position], process)), rank) == offset_of(
            blocks,
            rank,
        ),
{
    let after = blocks.update(position, rebound(blocks[position], process));
    if position < rank {
        assert(after.take(rank) =~= blocks.take(rank).update(
            position,
            rebound(blocks[position], process),
        ));
        lemma_total_size_update(blocks.take(rank), position, rebound(blocks[position], process));
    } else {
        assert(after.take(rank) =~= blocks.take(rank));
    }
}

/// A valid table stays valid when the occupant of one entry changes to none,
/// or to a process that holds no partition.
pub proof fn lemma_table_rebind(
    slots: Seq<Slot>,
    next_number: int,
    position: int,
    process: Option<i32>,
)
    requires
        table_valid(slots, next_number),
        0 <= position < slots.len(),
        process matches Some(process_id) ==> !is_resident(layout(slots), process_id as int),
    ensures
        table_valid(slots.update(position, (slots[position].0, process)), next_number),
        layout(slots.update(position, (slots[position].0, process))) == layout(slots).update(
            position,
            rebound(
                layout(slots)[position],
                match process {
                    Some(process_id) => Some(process_id as int),
                    None => None,
                },
            ),
        ),
{
    reveal(table_valid);
    let occupant: Option<int> = match process {
        Some(process_id) => Some(process_id as int),
        None => None,
    };
    let after = slots.update(position, (slots[position].0, process));
    lemma_layout_update(slots, position, (slots[position].0, process));
    lemma_pool_rebind(layout(slots), position, occupant, next_number);
    assert(block_of((slots[position].0, process)) == rebound(layout(slots)[position], occupant));
    assert forall|k: int| 0 <= k < after.len() implies {
        &&& (#[trigger] after[k]).0.position == k
        &&& after[k].0.position_start == offset_of(layout(after), k)
        &&& after[k].0.position_end == offset_of(layout(after), k) + after[k].0.size
        &&& after[k].0.id == after[k].0.number
    } by {
        lemma_offsets_rebind(layout(slots), position, occupant, k);
        assert(after[k].0 == slots[k].0);
    }
}

/// Who occupies a block of a concatenation occupies a block of one of its
/// parts.
pub proof fn lemma_resident_concat(front: Seq<Block>, back: Seq<Block>, process_id: int)
    ensures
        is_resident(front + back, process_id) <==> is_resident(front, process_id) || is_resident(
            back,
            process_id,
        ),
{
    let whole = front + back;
    if is_resident(whole, process_id) {
        let k = choose|k: int|
            0 <= k < whole.len() && (#[trigger] whole[k]).process == Some(process_id);
        if k < front.len() {
            assert(front[k] == whole[k]);
        } else {
            assert(back[k - front.len()] == whole[k]);
        }
    }
    if is_resident(front, process_id) {
        let k = choose|k: int|
            0 <= k < front.len() && (#[trigger] front[k]).process == Some(process_id);
        assert(whole[k] == front[k]);
    }
    if is_resident(back, process_id) {
        let k = choose|k: int|
            0 <= k < back.len() && (#[trigger] back[k]).process == Some(process_id);
        assert(whole[k + front.len()] == back[k]);
    }
}

/// Nobody occupies a block among free blocks.
pub proof fn lemma_resident_free(blocks: Seq<Block>, process_id: int)
    requires
        forall|k: int| 0 <= k < blocks.len() ==> (#[trigger] blocks[k]).is_free(),
    ensures
        !is_resident(blocks, process_id),
{
}

/// Exchanging two blocks changes no occupant.
pub proof fn lemma_resident_swapped(blocks: Seq<Block>, first: int, second: int, process_id: int)
    requires
        0 <= first < blocks.len(),
        0 <= second < blocks.len(),
    ensures
        is_resident(swapped(blocks, first, second), process_id) == is_resident(blocks, process_id),
{
    let after = swapped(blocks, first, second);
    if is_resident(blocks, process_id) {
        let k = choose|k: int|
            0 <= k < blocks.len() && (#[trigger] blocks[k]).process == Some(process_id);
        let target = if k == first { second } else if k == second { first } else { k };
        assert(after[target] == blocks[k]);
    }
    if is_resident(after, process_id) {
        let k = choose|k: int|
            0 <= k < after.len() && (#[trigger] after[k]).process == Some(process_id);
        let source = if k == first { second } else if k == second { first } else { k };
        assert(after[k] == blocks[source]);
    }
}

/// In a valid table the ranks are 0, 1, 2 and so on without a gap, the
/// first partition starts at offset 0, every other one starts where the one
/// before it ends, and every partition ends its size behind its start.
pub proof fn lemma_table_contiguous(slots: Seq<Slot>, next_number: int)
    requires
        table_valid(slots, next_number),
    ensures
        forall|p: int|
            0 <= p < slots.len() ==> {
                &&& (#[trigger] slots[p]).0.position == p
                &&& slots[p].0.position_start == if p == 0 {
                    0
                } else {
                    slots[p - 1].0.position_end as int
                }
                &&& slots[p].0.position_end == slots[p].0.position_start + slots[p].0.size
            },
{
    assert forall|p: int| 0 <= p < slots.len() implies {
        &&& (#[trigger] slots[p]).0.position == p
        &&& slots[p].0.position_start == if p == 0 {
            0
        } else {
            slots[p - 1].0.position_end as int
        }
        &&& slots[p].0.position_end == slots[p].0.position_start + slots[p].0.size
    } by {
        lemma_table_entry(slots, next_number, p);
        if p > 0 {
            lemma_table_entry(slots, next_number, p - 1);
        } else {
            lemma_offset_step(layout(slots), 0);
        }
    }
}

/// Exchanging two blocks leaves the pool as large as it was.
pub proof fn lemma_total_size_swapped(blocks: Seq<Block>, first: int, second: int)
    requires
        0 <= first < blocks.len(),
        0 <= second < blocks.len(),
    ensures
        total_size(swapped(blocks, first, second)) == total_size(blocks),
{
    lemma_total_size_update(blocks, first, blocks[second]);
    lemma_total_size_update(blocks.update(first, blocks[second]), second, blocks[first]);
}

} // verus!
