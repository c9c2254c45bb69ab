use memory_partitions::database::models;
use memory_partitions::model::process::{create_process_from_model, Process};
use memory_partitions::model::state::{
    get_state_from_enum, get_state_number, Finished, Ready, ReadyInPartition, Running, State,
    StateEnum, PROCESSING_TIME,
};

fn process_in(state: StateEnum, time: i32) -> Process {
    Process { id: Some(1), name: "P".to_string(), time, size: 4, state }
}

#[test]
fn states_have_their_numbers() {
    assert_eq!(get_state_number(StateEnum::Ready), 0);
    assert_eq!(get_state_number(StateEnum::ReadyInPartition), 1);
    assert_eq!(get_state_number(StateEnum::Running), 2);
    assert_eq!(get_state_number(StateEnum::Finished), 3);
    assert_eq!(Ready.get_state_number(), 0);
    assert_eq!(ReadyInPartition.get_state_number(), 1);
    assert_eq!(Running.get_state_number(), 2);
    assert_eq!(Finished.get_state_number(), 3);
}

#[test]
fn numbers_stand_for_their_states() {
    assert_eq!(get_state_from_enum(0), Some(StateEnum::Ready));
    assert_eq!(get_state_from_enum(1), Some(StateEnum::ReadyInPartition));
    assert_eq!(get_state_from_enum(2), Some(StateEnum::Running));
    assert_eq!(get_state_from_enum(3), Some(StateEnum::Finished));
    assert_eq!(get_state_from_enum(4), None);
    assert_eq!(get_state_from_enum(-1), None);
}

#[test]
fn quantum_is_one_unit() {
    assert_eq!(PROCESSING_TIME, 1);
}

#[test]
fn ready_process_starts_to_run_and_uses_one_unit() {
    let mut process = process_in(StateEnum::Ready, 5);
    process.process();
    assert_eq!(process.state, StateEnum::Running);
    assert_eq!(process.time, 4);
}

#[test]
fn waiting_process_in_partition_starts_to_run_and_uses_one_unit() {
    let mut process = process_in(StateEnum::ReadyInPartition, 5);
    process.process();
    assert_eq!(process.state, StateEnum::Running);
    assert_eq!(process.time, 4);
}

#[test]
fn time_is_floored_at_zero() {
    let mut process = process_in(StateEnum::Ready, 0);
    process.process();
    assert_eq!(process.time, 0);
    let mut process = process_in(StateEnum::ReadyInPartition, -3);
    process.process();
    assert_eq!(process.time, 0);
    let mut process = process_in(StateEnum::Ready, i32::MIN);
    process.process();
    assert_eq!(process.time, 0);
    assert_eq!(process.state, StateEnum::Running);
    let mut process = process_in(StateEnum::Ready, i32::MAX);
    process.process();
    assert_eq!(process.time, i32::MAX - 1);
}

#[test]
fn running_process_with_time_left_goes_back_to_waiting() {
    let mut process = process_in(StateEnum::Running, 1);
    assert!(!process.is_finishing());
    process.process();
    assert_eq!(process.state, StateEnum::ReadyInPartition);
    assert_eq!(process.time, 1);
}

#[test]
fn running_process_without_time_left_finishes() {
    let mut process = process_in(StateEnum::Running, 0);
    assert!(process.is_finishing());
    assert!(!process.has_finished());
    process.process();
    assert_eq!(process.state, StateEnum::Finished);
    assert_eq!(process.time, 0);
    assert!(process.has_finished());
}

#[test]
fn finished_process_stays_finished() {
    let mut process = process_in(StateEnum::Finished, 0);
    assert!(!process.is_finishing());
    process.process();
    process.process();
    assert_eq!(process.state, StateEnum::Finished);
    assert_eq!(process.time, 0);
    assert_eq!(process.size, 4);
    assert_eq!(process.name, "P");
    assert_eq!(process.id, Some(1));
}

#[test]
fn states_make_their_transitions() {
    let mut process = process_in(StateEnum::Ready, 2);
    assert_eq!(Ready.process(&mut process), StateEnum::Running);
    assert_eq!(process.time, 1);
    assert_eq!(ReadyInPartition.process(&mut process), StateEnum::Running);
    assert_eq!(process.time, 0);
    assert_eq!(Running.process(&mut process), StateEnum::Finished);
    process.time = 3;
    assert_eq!(Running.process(&mut process), StateEnum::ReadyInPartition);
    assert_eq!(process.time, 3);
    assert_eq!(Finished.process(&mut process), StateEnum::Finished);
    assert_eq!(process.time, 3);
}

#[test]
fn whole_life_of_a_process_with_two_units() {
    let mut process = Process::new("P".to_string(), 2, 4);
    assert_eq!(process.id, None);
    assert_eq!(process.state, StateEnum::Ready);
    let mut seen = Vec::new();
    while !process.has_finished() {
        process.process();
        seen.push((process.state, process.time));
    }
    assert_eq!(
        seen,
        vec![
            (StateEnum::Running, 1),
            (StateEnum::ReadyInPartition, 1),
            (StateEnum::Running, 0),
            (StateEnum::Finished, 0),
        ]
    );
}

#[test]
fn process_is_made_from_its_record() {
    let record = models::Process { id: 7, name: "Q".to_string(), time: 9, size: 3, state: 2 };
    let process = create_process_from_model(&record);
    assert_eq!(process.id, Some(7));
    assert_eq!(process.name, "Q");
    assert_eq!(process.time, 9);
    assert_eq!(process.size, 3);
    assert_eq!(process.state, StateEnum::Running);
}
