use memory_partitions::database::allocation::create_process_partition;
use memory_partitions::database::condensation::merge_storage_partitions;
use memory_partitions::database::configuration::{
    get_condensations, get_partition_consecutive_number, set_memory_size,
};
use memory_partitions::database::models::{NewCondensationLog, ProcessPartition};
use memory_partitions::database::{create_storage_partition_with_position, Database};

fn pool(partitions: &[(i32, Option<i32>)]) -> Database {
    let mut db = Database::new();
    set_memory_size(&mut db, 100);
    for (position, (size, process)) in partitions.iter().enumerate() {
        create_storage_partition_with_position(&mut db, position as i32, *size);
        if let Some(process_id) = process {
            let id = db.storage_partitions[position].0.id;
            create_process_partition(
                &mut db,
                ProcessPartition { process_id: *process_id, storage_partition_id: id },
            );
        }
    }
    db
}

fn picture(db: &Database) -> Vec<(i32, i32, Option<i32>, i32, i32, i32)> {
    db.storage_partitions
        .iter()
        .map(|slot| {
            (
                slot.0.number,
                slot.0.size,
                slot.1,
                slot.0.position,
                slot.0.position_start,
                slot.0.position_end,
            )
        })
        .collect()
}

#[test]
fn three_adjacent_free_partitions_merge_into_one() {
    let mut db = pool(&[(5, None), (3, None), (2, None)]);
    merge_storage_partitions(&mut db);
    assert_eq!(picture(&db), vec![(4, 10, None, 0, 0, 10)]);
    assert_eq!(get_condensations(&db), 1);
    assert_eq!(get_partition_consecutive_number(&db), 5);
    assert_eq!(
        db.condensation_logs,
        vec![
            NewCondensationLog { partition: 1, partition_size: 5, new_partition: 4, new_partition_size: 10 },
            NewCondensationLog { partition: 2, partition_size: 3, new_partition: 4, new_partition_size: 10 },
            NewCondensationLog { partition: 3, partition_size: 2, new_partition: 4, new_partition_size: 10 },
        ]
    );
}

#[test]
fn partitions_behind_a_merged_run_move_down() {
    let mut db = pool(&[(4, Some(1)), (5, None), (3, None), (2, None), (7, Some(2)), (6, None)]);
    merge_storage_partitions(&mut db);
    assert_eq!(
        picture(&db),
        vec![
            (1, 4, Some(1), 0, 0, 4),
            (7, 10, None, 1, 4, 14),
            (5, 7, Some(2), 2, 14, 21),
            (6, 6, None, 3, 21, 27),
        ]
    );
    assert_eq!(get_condensations(&db), 1);
    assert!(db.is_valid());
}

#[test]
fn every_run_is_merged_and_counted() {
    let mut db = pool(&[(1, None), (2, None), (3, Some(1)), (4, None), (5, None), (6, None), (7, Some(2)), (8, None)]);
    merge_storage_partitions(&mut db);
    assert_eq!(
        picture(&db),
        vec![
            (9, 3, None, 0, 0, 3),
            (3, 3, Some(1), 1, 3, 6),
            (10, 15, None, 2, 6, 21),
            (7, 7, Some(2), 3, 21, 28),
            (8, 8, None, 4, 28, 36),
        ]
    );
    assert_eq!(get_condensations(&db), 2);
    assert_eq!(get_partition_consecutive_number(&db), 11);
    assert_eq!(db.condensation_logs.len(), 5);
    assert_eq!(
        db.condensation_logs[4],
        NewCondensationLog { partition: 6, partition_size: 6, new_partition: 10, new_partition_size: 15 }
    );
}

#[test]
fn lone_free_partition_is_left_alone() {
    let mut db = pool(&[(4, Some(1)), (5, None), (7, Some(2)), (6, None)]);
    let before = picture(&db);
    merge_storage_partitions(&mut db);
    assert_eq!(picture(&db), before);
    assert_eq!(get_condensations(&db), 0);
    assert_eq!(get_partition_consecutive_number(&db), 5);
    assert!(db.condensation_logs.is_empty());
}

#[test]
fn second_condensation_merges_nothing() {
    let mut db = pool(&[(5, None), (3, None), (2, Some(4)), (6, None), (1, None)]);
    merge_storage_partitions(&mut db);
    let after_first = picture(&db);
    let count = get_condensations(&db);
    let number = get_partition_consecutive_number(&db);
    let logs = db.condensation_logs.len();
    assert_eq!(count, 2);
    merge_storage_partitions(&mut db);
    assert_eq!(picture(&db), after_first);
    assert_eq!(get_condensations(&db), count);
    assert_eq!(get_partition_consecutive_number(&db), number);
    assert_eq!(db.condensation_logs.len(), logs);
}

#[test]
fn empty_pool_is_not_condensed() {
    let mut db = pool(&[]);
    merge_storage_partitions(&mut db);
    assert_eq!(db.storage_partitions.len(), 0);
    assert_eq!(get_condensations(&db), 0);
}
