//! A simulator of variable-partition memory allocation.
//!
//! A batch of processes competes for a fixed pool of memory. The pool is an
//! ordered table of partitions, each free or bound to one process. Ready
//! processes enter by first fit (reusing, splitting or extending), occupied
//! partitions slide towards the low end (compaction), adjacent free partitions
//! merge (condensation), and every resident process moves one step through its
//! lifecycle per tick.

pub mod database;
pub mod model;
pub mod processor;
pub mod sequences;
