//! Memory as a row of partitions, one for each process and as large as it.

use crate::model::process::Process;
use vstd::prelude::*;

verus! {

/// The memory: its partitions, lowest first.
pub struct Memory {
    pub partitions: Vec<Partition>,
}

/// A partition with the process in it.
pub struct Partition {
    pub process: Box<Process>,
    pub size: i32,
}

/// The sizes of `partitions`, added up.
pub open spec fn memory_size(partitions: Seq<Partition>) -> int
    decreases partitions.len(),
{
    if partitions.len() == 0 {
        0
    } else {
        memory_size(partitions.drop_last()) + partitions.last().size
    }
}

/// No sum of sizes lies further from zero than the sum of the largest sizes.
pub proof fn lemma_memory_size_bounded(partitions: Seq<Partition>)
    ensures
        -0x8000_0000 * partitions.len() <= memory_size(partitions) <= 0x7fff_ffff
            * partitions.len(),
    decreases partitions.len(),
{
    if partitions.len() > 0 {
        lemma_memory_size_bounded(partitions.drop_last());
    }
}

impl Memory {
    /// The memory in which each of `processes` has a partition of its own
    /// size, in the order of `processes`.
    pub fn new(processes: Vec<Process>) -> (memory: Memory)
        ensures
            memory.partitions@.len() == processes@.len(),
            forall|k: int|
                0 <= k < processes@.len() ==> *(#[trigger] memory.partitions@[k]).process
                    == processes@[k] && memory.partitions@[k].size == processes@[k].size,
    {
        let mut memory = Memory { partitions: Vec::new() };
        for process in iter: processes
            invariant
                memory.partitions@.len() == iter.index(),
                iter.seq() == processes@,
                forall|k: int|
                    0 <= k < iter.index() ==> *(#[trigger] memory.partitions@[k]).process
                        == processes@[k] && memory.partitions@[k].size == processes@[k].size,
        {
            let boxed_process = Box::new(process);
            memory.partitions.push(Partition { size: boxed_process.size, process: boxed_process });
        }
        memory
    }

    /// The sizes of all partitions, added up.
    pub fn get_total_memory_size(self) -> (total: i32)
        requires
            i32::MIN <= memory_size(self.partitions@) <= i32::MAX,
        ensures
            total == memory_size(self.partitions@),
    {
        let mut total_memory_size: i128 = 0;
        let mut k: usize = 0;
        proof {
            assert(self.partitions@.take(0) =~= Seq::<Partition>::empty());
        }
        while k < self.partitions.len()
            invariant
                k <= self.partitions.len(),
                total_memory_size == memory_size(self.partitions@.take(k as int)),
            decreases self.partitions.len() - k,
        {
            proof {
                lemma_memory_size_bounded(self.partitions@.take(k as int));
                assert(self.partitions@.take(k + 1).drop_last()
                    =~= self.partitions@.take(k as int));
                assert(self.partitions@.take(k + 1).last() == self.partitions@[k as int]);
            }
            total_memory_size = total_memory_size + self.partitions[k].size as i128;
            k = k + 1;
        }
        proof {
            assert(self.partitions@.take(k as int) =~= self.partitions@);
        }
        total_memory_size as i32
    }
}

} // verus!
