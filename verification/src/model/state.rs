//! The lifecycle of a process.
//!
//! A process is `Ready` until it runs for the first time. From then on it
//! alternates between `Running` and `ReadyInPartition`, and each time it
//! starts to run it uses up one unit of its time. A running process that has
//! no time left is `Finished`, and stays so.

use crate::model::process::Process;
use vstd::prelude::*;

verus! {

/// The four states a process passes through.
#[derive(Clone, Copy, Debug, PartialEq, Eq, Structural)]
pub enum StateEnum {
    Ready,
    ReadyInPartition,
    Running,
    Finished,
}

/// The time a process uses up each time it starts to run.
pub const PROCESSING_TIME: i32 = 1;

/// The number that stands for a state in the tables.
pub open spec fn state_number(state: StateEnum) -> i32 {
    match state {
        StateEnum::Ready => 0,
        StateEnum::ReadyInPartition => 1,
        StateEnum::Running => 2,
        StateEnum::Finished => 3,
    }
}

/// The state that the number `value` stands for.
pub open spec fn state_of_number(value: i32) -> StateEnum {
    if value == 0 {
        StateEnum::Ready
    } else if value == 1 {
        StateEnum::ReadyInPartition
    } else if value == 2 {
        StateEnum::Running
    } else {
        StateEnum::Finished
    }
}

/// The state that follows `state` for a process with `time` left.
pub open spec fn state_after(state: StateEnum, time: i32) -> StateEnum {
    match state {
        StateEnum::Ready | StateEnum::ReadyInPartition => StateEnum::Running,
        StateEnum::Running => if time > 0 {
            StateEnum::ReadyInPartition
        } else {
            StateEnum::Finished
        },
        StateEnum::Finished => StateEnum::Finished,
    }
}

/// The time that a process with `time` left has left after the transition
/// out of `state`: one unit less, but not less than none, where it starts to
/// run, and as much as before otherwise.
pub open spec fn time_after(state: StateEnum, time: i32) -> i32 {
    match state {
        StateEnum::Ready | StateEnum::ReadyInPartition => if time > PROCESSING_TIME {
            (time - PROCESSING_TIME) as i32
        } else {
            0
        },
        StateEnum::Running | StateEnum::Finished => time,
    }
}

/// The transition out of `state` ends a process with `time` left: its ending
/// is to be filed and its partition released.
pub open spec fn finishes(state: StateEnum, time: i32) -> bool {
    state == StateEnum::Running && time <= 0
}

/// A lifecycle state.
pub trait State {
    /// Which of the four states this is.
    spec fn tag(&self) -> StateEnum;

    /// Makes the transition out of this state on `process` and returns the
    /// state that follows.
    fn process(&self, process: &mut Process) -> (next: StateEnum)
        ensures
            next == state_after(self.tag(), old(process).time),
            final(process).time == time_after(self.tag(), old(process).time),
            final(process).id == old(process).id,
            final(process).name == old(process).name,
            final(process).size == old(process).size,
            final(process).state == old(process).state,
    ;

    /// The number that stands for this state in the tables.
    fn get_state_number(&self) -> (number: i32)
        ensures
            number == state_number(self.tag()),
    ;
}

/// Waiting to run for the first time.
pub struct Ready;

impl State for Ready {
    open spec fn tag(&self) -> StateEnum {
        StateEnum::Ready
    }

    fn process(&self, process: &mut Process) -> (next: StateEnum) {
        process.time = if process.time > PROCESSING_TIME {
            process.time - PROCESSING_TIME
        } else {
            0
        };
        StateEnum::Running
    }

    fn get_state_number(&self) -> (number: i32) {
        0
    }
}

/// Waiting in a partition to run again.
pub struct ReadyInPartition;

impl State for ReadyInPartition {
    open spec fn tag(&self) -> StateEnum {
        StateEnum::ReadyInPartition
    }

    fn process(&self, process: &mut Process) -> (next: StateEnum) {
        process.time = if process.time > PROCESSING_TIME {
            process.time - PROCESSING_TIME
        } else {
            0
        };
        StateEnum::Running
    }

    fn get_state_number(&self) -> (number: i32) {
        1
    }
}

/// Running.
pub struct Running;

impl State for Running {
    open spec fn tag(&self) -> StateEnum {
        StateEnum::Running
    }

    fn process(&self, process: &mut Process) -> (next: StateEnum) {
        if process.time > 0 {
            StateEnum::ReadyInPartition
        } else {
            StateEnum::Finished
        }
    }

    fn get_state_number(&self) -> (number: i32) {
        2
    }
}

/// Done.
pub struct Finished;

impl State for Finished {
    open spec fn tag(&self) -> StateEnum {
        StateEnum::Finished
    }

    fn process(&self, process: &mut Process) -> (next: StateEnum) {
        StateEnum::Finished
    }

    fn get_state_number(&self) -> (number: i32) {
        3
    }
}

/// The state that the number `value` stands for, if it stands for one.
pub fn get_state_from_enum(value: i32) -> (state: Option<StateEnum>)
    ensures
        state is Some <==> 0 <= value <= 3,
        state matches Some(found) ==> state_number(found) == value && found == state_of_number(
            value,
        ),
{
    if value == 0 {
        Some(StateEnum::Ready)
    } else if value == 1 {
        Some(StateEnum::ReadyInPartition)
    } else if value == 2 {
        Some(StateEnum::Running)
    } else if value == 3 {
        Some(StateEnum::Finished)
    } else {
        None
    }
}

/// The number that stands for `state` in the tables.
pub fn get_state_number(state: StateEnum) -> (number: i32)
    ensures
        number == state_number(state),
{
    match state {
        StateEnum::Ready => Ready {  }.get_state_number(),
        StateEnum::ReadyInPartition => ReadyInPartition {  }.get_state_number(),
        StateEnum::Running => Running {  }.get_state_number(),
        StateEnum::Finished => Finished {  }.get_state_number(),
    }
}

} // verus!
