//! The processes and their lifecycle.

pub mod memory;
pub mod process;
pub mod process_log;
pub mod state;
