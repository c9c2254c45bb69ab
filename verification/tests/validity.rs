use memory_partitions::database::allocation::create_process_partition;
use memory_partitions::database::configuration::set_memory_size;
use memory_partitions::database::models::{Process, ProcessPartition};
use memory_partitions::database::{create_storage_partition_with_position, Database};

fn tables() -> Database {
    let mut db = Database::new();
    set_memory_size(&mut db, 100);
    create_storage_partition_with_position(&mut db, 0, 7);
    create_storage_partition_with_position(&mut db, 1, 9);
    create_storage_partition_with_position(&mut db, 2, 4);
    create_process_partition(&mut db, ProcessPartition { process_id: 1, storage_partition_id: 2 });
    db.processes.push(Process { id: 1, name: "A".to_string(), time: 1, size: 9, state: 0 });
    db.processes.push(Process { id: 4, name: "B".to_string(), time: 1, size: 9, state: 3 });
    db
}

#[test]
fn tables_built_by_the_library_are_valid() {
    assert!(Database::new().is_valid());
    assert!(tables().is_valid());
}

#[test]
fn gap_in_the_ranks_is_found() {
    let mut db = tables();
    db.storage_partitions[2].0.position = 3;
    assert!(!db.is_valid());
}

#[test]
fn duplicate_rank_is_found() {
    let mut db = tables();
    db.storage_partitions[2].0.position = 1;
    assert!(!db.is_valid());
}

#[test]
fn stale_offsets_are_found() {
    let mut db = tables();
    db.storage_partitions[1].0.position_start = 8;
    assert!(!db.is_valid());
    let mut db = tables();
    db.storage_partitions[1].0.position_end = 17;
    assert!(!db.is_valid());
    let mut db = tables();
    db.storage_partitions[0].0.position_start = 1;
    assert!(!db.is_valid());
}

#[test]
fn negative_size_is_found() {
    let mut db = tables();
    db.storage_partitions[2].0.size = -4;
    db.storage_partitions[2].0.position_end = 12;
    assert!(!db.is_valid());
}

#[test]
fn process_in_two_partitions_is_found() {
    let mut db = tables();
    db.storage_partitions[0].1 = Some(1);
    assert!(!db.is_valid());
}

#[test]
fn reused_sequence_number_is_found() {
    let mut db = tables();
    db.storage_partitions[2].0.number = 1;
    db.storage_partitions[2].0.id = 1;
    assert!(!db.is_valid());
    let mut db = tables();
    db.configuration.partition_consecutive_number = 3;
    assert!(!db.is_valid());
    let mut db = tables();
    db.storage_partitions[2].0.id = 9;
    assert!(!db.is_valid());
}

#[test]
fn broken_process_table_is_found() {
    let mut db = tables();
    db.processes[1].id = 1;
    assert!(!db.is_valid());
    let mut db = tables();
    db.processes[1].state = 4;
    assert!(!db.is_valid());
    let mut db = tables();
    db.processes[0].size = -1;
    assert!(!db.is_valid());
    let mut db = tables();
    db.iteration = -1;
    assert!(!db.is_valid());
}
