use memory_partitions::database::allocation::create_process_partition;
use memory_partitions::database::configuration::set_memory_size;
use memory_partitions::database::logs::{
    create_finished_process, create_iteration_log, create_process_log,
    create_storage_partition_logs, delete_all_compactions_logs, delete_all_condensations_logs,
    delete_all_finished_processes, delete_all_iteration_logs, delete_all_processes_logs,
    delete_all_storage_partitions_logs, select_all_compaction_logs, select_all_condensation_logs,
    select_all_finished_processes, select_all_process_logs, select_all_storage_partition_logs,
};
use memory_partitions::database::models::{
    CompactionLog, CondensationLog, NewFinishedProcess, NewProcessLog, NewStoragePartitionLog,
    ProcessPartition, StoragePartitionLog,
};
use memory_partitions::database::processes::{create_process, delete_process_with_id};
use memory_partitions::database::statements::{
    create_compaction_log, create_condensation_log, select_all_storage_partitions_and_process_partitions,
    select_last_iteration_log, select_last_storage_partition, select_storage_partition_with_position,
};
use memory_partitions::database::{
    clear_database, create_storage_partition_with_position, delete_storage_partition_with_id,
    select_all_storage_partitions, select_storage_partition_with_id,
    update_storage_partition_position, Database,
};
use memory_partitions::model::process::Process;

fn busy_tables() -> Database {
    let mut db = Database::new();
    set_memory_size(&mut db, 100);
    create_process(&mut db, Process::new("A".to_string(), 5, 7));
    create_process(&mut db, Process::new("B".to_string(), 6, 9));
    create_storage_partition_with_position(&mut db, 0, 7);
    create_storage_partition_with_position(&mut db, 1, 9);
    create_process_partition(&mut db, ProcessPartition { process_id: 1, storage_partition_id: 1 });
    create_iteration_log(&mut db);
    db
}

#[test]
fn ticks_are_numbered_from_one() {
    let mut db = Database::new();
    assert_eq!(create_iteration_log(&mut db).id, 1);
    assert_eq!(create_iteration_log(&mut db).id, 2);
    assert_eq!(select_last_iteration_log(&db).id, 2);
    delete_all_iteration_logs(&mut db);
    assert_eq!(db.iteration, 0);
    assert_eq!(create_iteration_log(&mut db).id, 1);
}

#[test]
fn partitions_are_pictured_for_the_latest_tick() {
    let mut db = busy_tables();
    create_iteration_log(&mut db);
    create_storage_partition_logs(&mut db);
    assert_eq!(
        db.storage_partition_logs,
        vec![
            NewStoragePartitionLog { iteration: 2, storage_partition_id: 1, position: 0, size: 7 },
            NewStoragePartitionLog { iteration: 2, storage_partition_id: 2, position: 1, size: 9 },
        ]
    );
    create_storage_partition_logs(&mut db);
    assert_eq!(db.storage_partition_logs.len(), 4);
    assert_eq!(
        select_all_storage_partition_logs(&db)[3],
        StoragePartitionLog { id: 4, iteration: 2, storage_partition_id: 2, position: 1, size: 9 }
    );
    assert!(delete_all_storage_partitions_logs(&mut db));
    assert!(db.storage_partition_logs.is_empty());
}

#[test]
fn process_is_pictured_with_its_partition_or_minus_one() {
    let mut db = busy_tables();
    create_process_log(&mut db, 1);
    create_process_log(&mut db, 2);
    assert_eq!(
        db.process_logs,
        vec![
            NewProcessLog { iteration: 1, process_id: 1, storage_partition_id: 1, time_remaining: 5, state: 0 },
            NewProcessLog { iteration: 1, process_id: 2, storage_partition_id: -1, time_remaining: 6, state: 0 },
        ]
    );
    let named = select_all_process_logs(&db);
    assert_eq!(named, vec![("A".to_string(), 0, 1, 5), ("B".to_string(), 0, -1, 6)]);
    // The snapshot of a process that is gone is left out.
    delete_process_with_id(&mut db, 1);
    assert_eq!(select_all_process_logs(&db), vec![("B".to_string(), 0, -1, 6)]);
    delete_all_processes_logs(&mut db);
    assert!(db.process_logs.is_empty());
}

#[test]
fn endings_are_filed_and_joined_with_their_processes() {
    let mut db = busy_tables();
    create_finished_process(&mut db, 2, 8);
    create_finished_process(&mut db, 5, 9);
    create_finished_process(&mut db, 1, 3);
    assert_eq!(
        db.finished_processes,
        vec![
            NewFinishedProcess { process_id: 2, partition_number: 8 },
            NewFinishedProcess { process_id: 5, partition_number: 9 },
            NewFinishedProcess { process_id: 1, partition_number: 3 },
        ]
    );
    let joined = select_all_finished_processes(&db);
    assert_eq!(joined.len(), 2);
    assert_eq!((joined[0].0.id, joined[0].0.process_id, joined[0].0.partition_number), (1, 2, 8));
    assert_eq!(joined[0].1.name, "B");
    assert_eq!((joined[1].0.id, joined[1].0.process_id, joined[1].0.partition_number), (3, 1, 3));
    assert_eq!(joined[1].1.name, "A");
    delete_all_finished_processes(&mut db);
    assert!(select_all_finished_processes(&db).is_empty());
}

#[test]
fn records_of_compaction_and_condensation_are_numbered() {
    let mut db = busy_tables();
    create_compaction_log(&mut db, 4, 10, 0);
    create_iteration_log(&mut db);
    create_compaction_log(&mut db, 5, 20, 10);
    assert_eq!(
        select_all_compaction_logs(&db),
        vec![
            CompactionLog { id: 1, iteration: 1, partition: 4, previous_position: 10, final_position: 0 },
            CompactionLog { id: 2, iteration: 2, partition: 5, previous_position: 20, final_position: 10 },
        ]
    );
    create_condensation_log(&mut db, 1, 5, 3, 8);
    create_condensation_log(&mut db, 2, 3, 3, 8);
    assert_eq!(
        select_all_condensation_logs(&db),
        vec![
            CondensationLog { id: 1, partition: 1, partition_size: 5, new_partition: 3, new_partition_size: 8 },
            CondensationLog { id: 2, partition: 2, partition_size: 3, new_partition: 3, new_partition_size: 8 },
        ]
    );
    delete_all_compactions_logs(&mut db);
    delete_all_condensations_logs(&mut db);
    assert!(select_all_compaction_logs(&db).is_empty());
    assert!(select_all_condensation_logs(&db).is_empty());
}

#[test]
fn clearing_keeps_the_processes_and_the_settings() {
    let mut db = busy_tables();
    create_storage_partition_logs(&mut db);
    create_process_log(&mut db, 1);
    create_finished_process(&mut db, 2, 8);
    create_compaction_log(&mut db, 4, 10, 0);
    create_condensation_log(&mut db, 1, 5, 3, 8);
    clear_database(&mut db);
    assert_eq!(db.processes.len(), 2);
    assert_eq!(db.configuration.memory_size, Some(100));
    assert_eq!(db.configuration.partition_consecutive_number, 3);
    assert_eq!(db.storage_partitions.len(), 0);
    assert_eq!(db.iteration, 0);
    assert!(db.storage_partition_logs.is_empty());
    assert!(db.process_logs.is_empty());
    assert!(db.finished_processes.is_empty());
    assert!(db.compaction_logs.is_empty());
    assert!(db.condensation_logs.is_empty());
    assert!(db.is_valid());
}

#[test]
fn partitions_are_created_moved_and_deleted_with_exact_offsets() {
    let mut db = Database::new();
    set_memory_size(&mut db, 100);
    create_storage_partition_with_position(&mut db, 0, 7);
    create_storage_partition_with_position(&mut db, 1, 9);
    create_storage_partition_with_position(&mut db, 1, 4);
    let all = select_all_storage_partitions(&db);
    let rows: Vec<(i32, i32, i32, i32, i32, i32)> = all
        .iter()
        .map(|p| (p.id, p.number, p.position, p.position_start, p.position_end, p.size))
        .collect();
    assert_eq!(rows, vec![(1, 1, 0, 0, 7, 7), (3, 3, 1, 7, 11, 4), (2, 2, 2, 11, 20, 9)]);
    assert_eq!(select_storage_partition_with_id(&db, 3).position, 1);
    assert_eq!(select_storage_partition_with_position(&db, 2).id, 2);
    assert_eq!(select_last_storage_partition(&db).id, 2);
    assert_eq!(select_all_storage_partitions_and_process_partitions(&db).len(), 3);

    update_storage_partition_position(&mut db, 2, 0);
    let rows: Vec<(i32, i32, i32, i32)> = select_all_storage_partitions(&db)
        .iter()
        .map(|p| (p.id, p.position, p.position_start, p.position_end))
        .collect();
    assert_eq!(rows, vec![(2, 0, 0, 9), (1, 1, 9, 16), (3, 2, 16, 20)]);
    // Moving a partition that is not there changes nothing.
    update_storage_partition_position(&mut db, 8, 1);
    assert_eq!(select_all_storage_partitions(&db)[0].id, 2);

    delete_storage_partition_with_id(&mut db, 1);
    let rows: Vec<(i32, i32, i32, i32)> = select_all_storage_partitions(&db)
        .iter()
        .map(|p| (p.id, p.position, p.position_start, p.position_end))
        .collect();
    assert_eq!(rows, vec![(2, 0, 0, 9), (3, 1, 9, 13)]);
    delete_storage_partition_with_id(&mut db, 1);
    assert_eq!(select_all_storage_partitions(&db).len(), 2);
    assert!(db.is_valid());
}
