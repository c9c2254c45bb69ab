//! The test of the tables' validity, for tables that come from elsewhere.

use crate::database::layout::{
    block_of, layout, lemma_offset_step, offset_of, table_valid, Block, Slot,
};
use crate::database::models::Process;
use crate::database::{processes_valid, Database};
use vstd::prelude::*;

verus! {

/// Whether the process table is valid.
fn processes_are_valid(processes: &Vec<Process>) -> (valid: bool)
    ensures
        valid == processes_valid(processes@),
{
    let mut k: usize = 0;
    while k < processes.len()
        invariant
            k <= processes.len(),
            forall|i: int, j: int| 0 <= i < j < k
                ==> (#[trigger] processes[i]).id < (#[trigger] processes[j]).id,
            forall|j: int|
                0 <= j < k ==> (#[trigger] processes[j]).size >= 0 && 0 <= processes[j].state <= 3,
        decreases processes.len() - k,
    {
        if processes[k].size < 0 || processes[k].state < 0 || processes[k].state > 3 {
            return false;
        }
        if k > 0 && processes[k - 1].id >= processes[k].id {
            return false;
        }
        proof {
            assert forall|i: int, j: int| 0 <= i < j < k + 1 implies
                (#[trigger] processes[i]).id < (
            #[trigger] processes[j]).id by {
                if j == k && i < k - 1 {
                    assert(processes[i].id < processes[k - 1].id);
                }
            }
        }
        k = k + 1;
    }
    true
}

/// Whether the partition at rank `rank` shares neither its sequence number
/// nor its occupant with a partition of lower rank.
fn is_distinct(slots: &Vec<Slot>, rank: usize) -> (distinct: bool)
    requires
        rank < slots.len(),
    ensures
        distinct == forall|i: int|
            0 <= i < rank
                ==> (#[trigger] layout(slots@)[i]).number != layout(slots@)[rank as int].number
                && (layout(slots@)[i].process is Some ==> layout(slots@)[i].process != layout(
                slots@,
            )[rank as int].process),
{
    let ghost blocks = layout(slots@);
    let mut i: usize = 0;
    while i < rank
        invariant
            i <= rank < slots.len(),
            blocks == layout(slots@),
            forall|j: int|
                0 <= j < i ==> (#[trigger] blocks[j]).number != blocks[rank as int].number && (
                blocks[j].process is Some ==> blocks[j].process != blocks[rank as int].process),
        decreases rank - i,
    {
        proof {
            assert(blocks[i as int] == block_of(slots[i as int]));
            assert(blocks[rank as int] == block_of(slots[rank as int]));
        }
        if slots[i].0.number == slots[rank].0.number {
            return false;
        }
        let shared = match slots[i].1 {
            Some(occupant) => match slots[rank].1 {
                Some(other) => occupant == other,
                None => false,
            },
            None => false,
        };
        if shared {
            return false;
        }
        i = i + 1;
    }
    true
}

/// Whether the partition table is valid, with `next_number` as the next
/// sequence number.
fn table_is_valid(slots: &Vec<Slot>, next_number: i32) -> (valid: bool)
    ensures
        valid == table_valid(slots@, next_number as int),
{
    proof {
        reveal(table_valid);
    }
    let ghost blocks = layout(slots@);
    let mut start: i32 = 0;
    let mut k: usize = 0;
    proof {
        assert(blocks.take(0) =~= Seq::<Block>::empty());
    }
    while k < slots.len()
        invariant
            k <= slots.len(),
            blocks == layout(slots@),
            start == offset_of(blocks, k as int),
            forall|j: int| 0 <= j < k ==> (#[trigger] blocks[j]).size >= 0,
            forall|j: int| 0 <= j < k ==> (#[trigger] blocks[j]).number < next_number,
            forall|i: int, j: int|
                0 <= i < j < k ==> (#[trigger] blocks[i]).number != (#[trigger] blocks[j]).number,
            forall|i: int, j: int|
                0 <= i < j < k && (#[trigger] blocks[i]).process is Some ==> blocks[i].process != (
                #[trigger] blocks[j]).process,
            forall|j: int|
                0 <= j < k ==> {
                    &&& (#[trigger] slots[j]).0.position == j
                    &&& slots[j].0.position_start == offset_of(blocks, j)
                    &&& slots[j].0.position_end == offset_of(blocks, j) + slots[j].0.size
                },
            forall|j: int| 0 <= j < k ==> (#[trigger] slots[j]).0.id == slots[j].0.number,
        decreases slots.len() - k,
    {
        let partition = slots[k].0;
        proof {
            reveal(table_valid);
            assert(blocks[k as int] == block_of(slots[k as int]));
            lemma_offset_step(blocks, k as int);
        }
        if partition.size < 0 || partition.number >= next_number || partition.id
            != partition.number {
            return false;
        }
        if k > 0x7fff_ffff || partition.position != k as i32 || partition.position_start != start
            || partition.position_end as i64 != start as i64 + partition.size as i64 {
            return false;
        }
        if !is_distinct(slots, k) {
            proof {
                let i = choose|i: int|
                    0 <= i < k && !((#[trigger] blocks[i]).number != blocks[k as int].number && (
                    blocks[i].process is Some ==> blocks[i].process != blocks[k as int].process));
                assert(blocks[i].number == blocks[k as int].number || (blocks[i].process is Some
                    && blocks[i].process == blocks[k as int].process));
            }
            return false;
        }
        start = partition.position_end;
        k = k + 1;
    }
    proof {
        reveal(table_valid);
    }
    true
}

impl Database {
    /// Whether the tables are valid. Tables that were put together field by
    /// field are to pass this test before they are worked on.
    pub fn is_valid(&self) -> (valid: bool)
        ensures
            valid == self.wf(),
    {
        self.iteration >= 0 && processes_are_valid(&self.processes) && table_is_valid(
            &self.storage_partitions,
            self.configuration.partition_consecutive_number,
        )
    }
}

} // verus!
