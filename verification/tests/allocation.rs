use memory_partitions::database::allocation::{
    add_processes_to_memory, can_create_storage_partition, create_process_partition,
    create_storage_partition, create_storage_partition_from_remaining_space,
    delete_all_processes_partitions, delete_all_storage_partitions,
    delete_process_partition_with_process_id, get_empty_storage_partition,
    insert_process_into_storage_partition, select_all_processes_from_processes_partitions,
    select_storage_partition_with_process_id,
};
use memory_partitions::database::configuration::{get_partition_consecutive_number, set_memory_size};
use memory_partitions::database::models::ProcessPartition;
use memory_partitions::database::processes::create_process;
use memory_partitions::database::{create_storage_partition_with_position, Database};
use memory_partitions::model::process::Process;

fn sizes(db: &Database) -> Vec<i32> {
    db.storage_partitions.iter().map(|slot| slot.0.size).collect()
}

fn occupants(db: &Database) -> Vec<Option<i32>> {
    db.storage_partitions.iter().map(|slot| slot.1).collect()
}

fn numbers(db: &Database) -> Vec<i32> {
    db.storage_partitions.iter().map(|slot| slot.0.number).collect()
}

fn offsets(db: &Database) -> Vec<(i32, i32, i32)> {
    db.storage_partitions
        .iter()
        .map(|slot| (slot.0.position, slot.0.position_start, slot.0.position_end))
        .collect()
}

fn pool_with_free(sizes: &[i32], capacity: i32) -> Database {
    let mut db = Database::new();
    set_memory_size(&mut db, capacity);
    for (position, size) in sizes.iter().enumerate() {
        create_storage_partition_with_position(&mut db, position as i32, *size);
    }
    db
}

#[test]
fn exact_fit_leaves_the_number_of_partitions_unchanged() {
    let mut db = pool_with_free(&[10, 5, 5], 50);
    create_process(&mut db, Process::new("A".to_string(), 3, 5));
    assert!(add_processes_to_memory(&mut db));
    // The first partition is large enough, but the second one fits exactly.
    assert_eq!(sizes(&db), vec![10, 5, 5]);
    assert_eq!(occupants(&db), vec![None, Some(1), None]);
    assert_eq!(numbers(&db), vec![1, 2, 3]);
    assert_eq!(get_partition_consecutive_number(&db), 4);
    assert!(db.is_valid());
}

#[test]
fn split_adds_one_partition_and_keeps_the_size() {
    let mut db = pool_with_free(&[3, 10, 20], 50);
    create_process(&mut db, Process::new("A".to_string(), 3, 4));
    assert!(add_processes_to_memory(&mut db));
    // First fit, not best fit: the partition of 10 is split, not the one of 20.
    assert_eq!(sizes(&db), vec![3, 4, 6, 20]);
    assert_eq!(occupants(&db), vec![None, Some(1), None, None]);
    assert_eq!(numbers(&db), vec![1, 4, 5, 3]);
    assert_eq!(offsets(&db), vec![(0, 0, 3), (1, 3, 7), (2, 7, 13), (3, 13, 33)]);
    assert_eq!(get_partition_consecutive_number(&db), 6);
    assert_eq!(db.storage_partitions[1].0.size + db.storage_partitions[2].0.size, 10);
    assert!(db.is_valid());
}

#[test]
fn pool_grows_when_no_free_partition_fits() {
    let mut db = pool_with_free(&[3], 50);
    create_process(&mut db, Process::new("A".to_string(), 3, 47));
    assert!(add_processes_to_memory(&mut db));
    assert_eq!(sizes(&db), vec![3, 47]);
    assert_eq!(occupants(&db), vec![None, Some(1)]);
    assert_eq!(offsets(&db), vec![(0, 0, 3), (1, 3, 50)]);
    assert_eq!(get_partition_consecutive_number(&db), 3);
}

#[test]
fn process_waits_when_the_capacity_is_used_up() {
    let mut db = pool_with_free(&[3], 50);
    create_process(&mut db, Process::new("A".to_string(), 3, 48));
    assert!(!add_processes_to_memory(&mut db));
    assert_eq!(sizes(&db), vec![3]);
    assert_eq!(occupants(&db), vec![None]);
    assert_eq!(get_partition_consecutive_number(&db), 2);
    assert_eq!(db.processes[0].state, 0);
}

#[test]
fn processes_are_admitted_in_the_order_of_their_ids() {
    let mut db = Database::new();
    set_memory_size(&mut db, 30);
    create_process(&mut db, Process::new("A".to_string(), 3, 20));
    create_process(&mut db, Process::new("B".to_string(), 3, 20));
    create_process(&mut db, Process::new("C".to_string(), 3, 10));
    assert!(add_processes_to_memory(&mut db));
    // B finds no room, C does.
    assert_eq!(sizes(&db), vec![20, 10]);
    assert_eq!(occupants(&db), vec![Some(1), Some(3)]);
    let resident = select_all_processes_from_processes_partitions(&db);
    assert_eq!(resident.len(), 2);
    assert_eq!(resident[0].id, 1);
    assert_eq!(resident[1].id, 3);
    // A second admission admits nobody: B still does not fit.
    assert!(!add_processes_to_memory(&mut db));
    assert_eq!(sizes(&db), vec![20, 10]);
    assert_eq!(occupants(&db), vec![Some(1), Some(3)]);
}

#[test]
fn admission_without_ready_processes_admits_nobody() {
    let mut db = pool_with_free(&[5], 50);
    assert!(!add_processes_to_memory(&mut db));
    assert_eq!(sizes(&db), vec![5]);
}

#[test]
fn get_empty_storage_partition_finds_exact_then_larger_then_nothing() {
    let mut db = pool_with_free(&[8, 4], 50);
    let exact = get_empty_storage_partition(&mut db, 4).unwrap();
    assert_eq!(exact.position, 1);
    assert_eq!(exact.size, 4);
    assert_eq!(exact.number, 2);
    assert_eq!(sizes(&db), vec![8, 4]);
    let larger = get_empty_storage_partition(&mut db, 5).unwrap();
    assert_eq!(larger.position, 0);
    assert_eq!(larger.size, 5);
    assert_eq!(larger.number, 3);
    assert_eq!(sizes(&db), vec![5, 3, 4]);
    assert!(get_empty_storage_partition(&mut db, 6).is_none());
    assert_eq!(sizes(&db), vec![5, 3, 4]);
}

#[test]
fn create_storage_partition_respects_the_capacity() {
    let mut db = pool_with_free(&[10], 30);
    assert!(can_create_storage_partition(&db, 20));
    assert!(!can_create_storage_partition(&db, 21));
    assert!(create_storage_partition(&mut db, 21).is_none());
    assert_eq!(sizes(&db), vec![10]);
    let created = create_storage_partition(&mut db, 20).unwrap();
    assert_eq!(created.position, 1);
    assert_eq!(created.position_start, 10);
    assert_eq!(created.position_end, 30);
    assert_eq!(created.number, 2);
    assert_eq!(sizes(&db), vec![10, 20]);
    assert!(can_create_storage_partition(&db, 0));
    assert!(!can_create_storage_partition(&db, 1));
}

#[test]
fn remaining_space_becomes_one_partition() {
    let mut db = pool_with_free(&[10, 15], 50);
    create_storage_partition_from_remaining_space(&mut db);
    assert_eq!(sizes(&db), vec![10, 15, 25]);
    assert_eq!(offsets(&db)[2], (2, 25, 50));
    // Nothing is left now.
    create_storage_partition_from_remaining_space(&mut db);
    assert_eq!(sizes(&db), vec![10, 15, 25]);
}

#[test]
fn binding_and_releasing_a_partition() {
    let mut db = pool_with_free(&[10, 15], 50);
    create_process(&mut db, Process::new("A".to_string(), 3, 15));
    let process = db.processes[0].duplicate();
    let partition = db.storage_partitions[1].0;
    insert_process_into_storage_partition(&mut db, &process, &partition);
    assert_eq!(occupants(&db), vec![None, Some(1)]);
    let found = select_storage_partition_with_process_id(&db, 1);
    assert_eq!(found.0, partition);
    assert_eq!(found.1, ProcessPartition { process_id: 1, storage_partition_id: partition.id });
    delete_process_partition_with_process_id(&mut db, 1);
    assert_eq!(occupants(&db), vec![None, None]);
    // Releasing a process that holds nothing changes nothing.
    delete_process_partition_with_process_id(&mut db, 1);
    assert_eq!(occupants(&db), vec![None, None]);
    create_process_partition(&mut db, ProcessPartition { process_id: 7, storage_partition_id: 1 });
    assert_eq!(occupants(&db), vec![Some(7), None]);
    assert!(delete_all_processes_partitions(&mut db));
    assert_eq!(occupants(&db), vec![None, None]);
    assert!(delete_all_storage_partitions(&mut db));
    assert_eq!(db.storage_partitions.len(), 0);
}

#[test]
fn process_without_size_takes_a_partition_without_size() {
    let mut db = pool_with_free(&[5], 5);
    create_process(&mut db, Process::new("A".to_string(), 3, 0));
    create_process(&mut db, Process::new("B".to_string(), 3, 0));
    create_process(&mut db, Process::new("C".to_string(), 3, 5));
    assert!(add_processes_to_memory(&mut db));
    // A splits the free partition, B splits what is left of it, C fits exactly.
    assert_eq!(sizes(&db), vec![0, 0, 5]);
    assert_eq!(occupants(&db), vec![Some(1), Some(2), Some(3)]);
    assert_eq!(offsets(&db), vec![(0, 0, 0), (1, 0, 0), (2, 0, 5)]);
    assert!(db.is_valid());
}
