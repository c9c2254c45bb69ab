//! A process of the simulation.

use crate::database::models;
use crate::model::state::{
    finishes, get_state_from_enum, state_after, state_of_number, time_after, Finished, Ready,
    ReadyInPartition, Running, State, StateEnum,
};
use vstd::prelude::*;

verus! {

/// A process: its id, once the process table has given it one, its name, the
/// time it has left to run, the memory it takes up, and its lifecycle state.
pub struct Process {
    pub id: Option<i32>,
    pub name: String,
    pub time: i32,
    pub size: i32,
    pub state: StateEnum,
}

impl Process {
    /// A new process, ready to run.
    pub fn new(name: String, time: i32, size: i32) -> (process: Process)
        ensures
            process.id is None,
            process.name == name,
            process.time == time,
            process.size == size,
            process.state == StateEnum::Ready,
    {
        Process { id: None, name, time, size, state: StateEnum::Ready }
    }

    /// Whether the process has reached the end of its lifecycle.
    pub fn has_finished(&self) -> (finished: bool)
        ensures
            finished == (self.state == StateEnum::Finished),
    {
        match self.state {
            StateEnum::Finished => true,
            _ => false,
        }
    }

    /// Whether the transition that the process is about to make ends it: then
    /// its ending is to be filed and its partition released.
    pub fn is_finishing(&self) -> (finishing: bool)
        ensures
            finishing == finishes(self.state, self.time),
    {
        match self.state {
            StateEnum::Running => self.time <= 0,
            _ => false,
        }
    }

    /// Makes one transition of the lifecycle: a waiting process starts to run
    /// and uses up one unit of its time, a running process goes back to
    /// waiting, or finishes if it has no time left, and a finished process
    /// stays as it is.
    pub fn process(&mut self)
        ensures
            final(self).state == state_after(old(self).state, old(self).time),
            final(self).time == time_after(old(self).state, old(self).time),
            final(self).id == old(self).id,
            final(self).name == old(self).name,
            final(self).size == old(self).size,
    {
        let next = match self.state {
            StateEnum::Ready => Ready {  }.process(self),
            StateEnum::ReadyInPartition => ReadyInPartition {  }.process(self),
            StateEnum::Running => Running {  }.process(self),
            StateEnum::Finished => Finished {  }.process(self),
        };
        self.state = next;
    }
}

/// The process that a record of the process table stands for.
pub fn create_process_from_model(process: &models::Process) -> (created: Process)
    requires
        0 <= process.state <= 3,
    ensures
        created.id == Some(process.id),
        created.name == process.name,
        created.time == process.time,
        created.size == process.size,
        created.state == state_of_number(process.state),
{
    Process {
        id: Some(process.id),
        name: process.name.clone(),
        time: process.time,
        size: process.size,
        state: get_state_from_enum(process.state).unwrap(),
    }
}

} // verus!
