use memory_partitions::database::allocation::{
    add_processes_to_memory, create_storage_partition_from_remaining_space,
};
use memory_partitions::database::logs::create_storage_partition_logs;
use memory_partitions::database::configuration::{get_compactions, get_condensations};
use memory_partitions::database::logs::create_iteration_log;
use memory_partitions::database::processes::{create_process, init_processes};
use memory_partitions::database::{clear_database, init_configuration, Database};
use memory_partitions::model::process::Process;
use memory_partitions::processor::{has_headroom, run_tick, start_processor};

fn two_processes() -> Database {
    let mut db = Database::new();
    create_process(&mut db, Process::new("P1".to_string(), 10, 20));
    create_process(&mut db, Process::new("P2".to_string(), 4, 6));
    db
}

#[test]
fn simulation_without_processes_is_over_at_once() {
    let mut db = Database::new();
    assert!(start_processor(&mut db));
    assert_eq!(db.storage_partitions.len(), 0);
    assert_eq!(db.configuration.partition_consecutive_number, 1);
    assert_eq!(db.configuration.memory_size, Some(50));
    assert_eq!(db.iteration, 1);
    assert_eq!(db.storage_partition_logs.len(), 0);
    assert_eq!(db.process_logs.len(), 0);
    assert_eq!(db.finished_processes.len(), 0);
}

#[test]
fn both_processes_are_admitted_at_once() {
    let mut db = two_processes();
    clear_database(&mut db);
    init_configuration(&mut db);
    create_iteration_log(&mut db);
    assert!(has_headroom(&db));
    assert!(add_processes_to_memory(&mut db));
    assert_eq!(db.storage_partitions.len(), 2);
    assert_eq!(db.storage_partitions[0].0.size, 20);
    assert_eq!(db.storage_partitions[0].1, Some(1));
    assert_eq!(db.storage_partitions[0].0.position_start, 0);
    assert_eq!(db.storage_partitions[0].0.position_end, 20);
    assert_eq!(db.storage_partitions[1].0.size, 6);
    assert_eq!(db.storage_partitions[1].1, Some(2));
    assert_eq!(db.storage_partitions[1].0.position_start, 20);
    assert_eq!(db.storage_partitions[1].0.position_end, 26);
}

#[test]
fn second_process_finishes_at_the_eighth_tick() {
    let mut db = two_processes();
    clear_database(&mut db);
    init_configuration(&mut db);
    create_iteration_log(&mut db);
    assert!(add_processes_to_memory(&mut db));
    // state numbers: 0 ready, 1 ready in partition, 2 running, 3 finished
    let expected: [(i32, i32); 8] =
        [(2, 3), (1, 3), (2, 2), (1, 2), (2, 1), (1, 1), (2, 0), (3, 0)];
    for tick in 0..8 {
        assert!(has_headroom(&db));
        assert!(!run_tick(&mut db));
        assert_eq!(db.processes[1].state, expected[tick].0, "state after tick {}", tick + 1);
        assert_eq!(db.processes[1].time, expected[tick].1, "time after tick {}", tick + 1);
        if tick < 7 {
            assert_eq!(db.finished_processes.len(), 0);
        }
    }
    assert_eq!(db.finished_processes.len(), 1);
    assert_eq!(db.finished_processes[0].process_id, 2);
    assert_eq!(db.finished_processes[0].partition_number, 2);
    // Each tick wrote a snapshot of both processes; the last one of the
    // finished process shows it without a partition.
    assert_eq!(db.process_logs.len(), 16);
    let last = db.process_logs[15];
    assert_eq!(
        (last.iteration, last.process_id, last.storage_partition_id, last.time_remaining, last.state),
        (9, 2, -1, 0, 3)
    );
    let before_last = db.process_logs[13];
    assert_eq!(
        (
            before_last.iteration,
            before_last.process_id,
            before_last.storage_partition_id,
            before_last.time_remaining,
            before_last.state
        ),
        (8, 2, 2, 0, 2)
    );
    // Its partition is free now, and the first process still holds its own.
    assert_eq!(db.storage_partitions[0].1, Some(1));
    assert!(db.storage_partitions.iter().all(|slot| slot.1 != Some(2)));
}

#[test]
fn simulation_runs_to_its_rest() {
    let mut db = two_processes();
    assert!(start_processor(&mut db));
    // P1 has 10 units of time: 20 ticks. The first tick has the id 2.
    assert_eq!(db.iteration, 21);
    assert_eq!(db.processes[0].state, 3);
    assert_eq!(db.processes[0].time, 0);
    assert_eq!(db.processes[1].state, 3);
    assert_eq!(db.processes[1].time, 0);
    assert_eq!(db.finished_processes.len(), 2);
    assert_eq!(db.finished_processes[0].process_id, 2);
    assert_eq!(db.finished_processes[1].process_id, 1);
    // All partitions are free and merged into one of the whole capacity.
    assert_eq!(db.storage_partitions.len(), 1);
    assert_eq!(db.storage_partitions[0].0.size, 50);
    assert_eq!(db.storage_partitions[0].1, None);
    let used: i32 = db.storage_partitions.iter().map(|slot| slot.0.size).sum();
    assert!(used <= 50);
    assert!(get_condensations(&db) >= 1);
    assert!(get_compactions(&db) >= 0);
}

fn used_memory(db: &Database) -> i32 {
    db.storage_partitions.iter().map(|slot| slot.0.size).sum()
}

#[test]
fn pool_stays_within_the_capacity_and_valid_at_every_tick() {
    let mut db = Database::new();
    init_processes(&mut db);
    clear_database(&mut db);
    init_configuration(&mut db);
    create_iteration_log(&mut db);
    assert!(add_processes_to_memory(&mut db));
    assert!(used_memory(&db) <= 50);
    create_storage_partition_from_remaining_space(&mut db);
    create_storage_partition_logs(&mut db);
    assert_eq!(used_memory(&db), 50);
    assert!(db.is_valid());
    let mut ticks = 0;
    loop {
        assert!(has_headroom(&db));
        let resting = run_tick(&mut db);
        ticks += 1;
        assert!(used_memory(&db) <= 50);
        assert!(db.is_valid());
        // After the condensation of a tick, only an admission can leave two
        // free partitions side by side, and it never does: it binds the
        // first part of what it splits.
        for pair in db.storage_partitions.windows(2) {
            assert!(pair[0].1.is_some() || pair[1].1.is_some());
        }
        if resting {
            break;
        }
        assert!(ticks < 1000);
    }
    assert!(db.processes.iter().all(|process| process.state == 3));
    assert_eq!(db.finished_processes.len(), 10);
    assert!(db.storage_partitions.iter().all(|slot| slot.1.is_none()));
}

#[test]
fn simulation_of_the_samples_finishes_every_process() {
    let mut db = Database::new();
    init_processes(&mut db);
    // What an earlier run left behind is forgotten.
    db.configuration.memory_size = Some(7);
    db.configuration.compactions = 12;
    db.iteration = 99;
    assert!(start_processor(&mut db));
    assert_eq!(db.configuration.memory_size, Some(50));
    assert!(db.processes.iter().all(|process| process.state == 3 && process.time == 0));
    assert_eq!(db.finished_processes.len(), 10);
    assert_eq!(db.storage_partitions.len(), 1);
    assert_eq!(db.storage_partitions[0].0.size, 50);
    assert_eq!(db.storage_partitions[0].0.position_start, 0);
    assert_eq!(db.storage_partitions[0].0.position_end, 50);
    assert!(db.is_valid());
    // One snapshot for each resident process and tick, none for the waiting.
    assert!(db.process_logs.iter().all(|log| log.iteration >= 2));
    // A second run starts anew, finds no ready process and is over at once.
    assert!(start_processor(&mut db));
    assert_eq!(db.storage_partitions.len(), 0);
    assert_eq!(db.iteration, 1);
    assert_eq!(db.finished_processes.len(), 0);
}

#[test]
fn process_larger_than_the_capacity_waits_for_ever() {
    let mut db = Database::new();
    create_process(&mut db, Process::new("small".to_string(), 1, 10));
    create_process(&mut db, Process::new("large".to_string(), 1, 51));
    assert!(start_processor(&mut db));
    assert_eq!(db.processes[0].state, 3);
    assert_eq!(db.processes[1].state, 0);
    assert_eq!(db.processes[1].time, 1);
    assert_eq!(db.finished_processes.len(), 1);
}

#[test]
fn headroom_is_gone_when_a_counter_is_at_its_limit() {
    let mut db = two_processes();
    assert!(!has_headroom(&db));
    init_configuration(&mut db);
    assert!(has_headroom(&db));
    db.configuration.compactions = i32::MAX;
    assert!(!has_headroom(&db));
    db.configuration.compactions = 0;
    db.iteration = i32::MAX;
    assert!(!has_headroom(&db));
    db.iteration = 0;
    db.configuration.condensations = i32::MAX;
    assert!(has_headroom(&db));
    db.configuration.partition_consecutive_number = i32::MAX - 5;
    assert!(has_headroom(&db));
    db.configuration.partition_consecutive_number = i32::MAX - 4;
    assert!(!has_headroom(&db));
}
