use memory_partitions::database::allocation::create_process_partition;
use memory_partitions::database::compaction::swap_process_partitions_with_empty_partitions;
use memory_partitions::database::configuration::{get_compactions, set_memory_size};
use memory_partitions::database::logs::create_iteration_log;
use memory_partitions::database::models::{NewCompactionLog, ProcessPartition};
use memory_partitions::database::{create_storage_partition_with_position, Database};

// Builds a pool of the given sizes; a partition with a process id is bound to it.
fn pool(partitions: &[(i32, Option<i32>)]) -> Database {
    let mut db = Database::new();
    set_memory_size(&mut db, 100);
    create_iteration_log(&mut db);
    for (position, (size, process)) in partitions.iter().enumerate() {
        create_storage_partition_with_position(&mut db, position as i32, *size);
        if let Some(process_id) = process {
            let id = db.storage_partitions[position].0.id;
            create_process_partition(
                &mut db,
                ProcessPartition { process_id: *process_id, storage_partition_id: id },
            );
        }
    }
    db
}

fn picture(db: &Database) -> Vec<(i32, i32, Option<i32>, i32, i32, i32)> {
    db.storage_partitions
        .iter()
        .map(|slot| {
            (
                slot.0.number,
                slot.0.size,
                slot.1,
                slot.0.position,
                slot.0.position_start,
                slot.0.position_end,
            )
        })
        .collect()
}

#[test]
fn occupied_partition_slides_over_the_free_one_below_it() {
    let mut db = pool(&[(5, None), (7, Some(1))]);
    swap_process_partitions_with_empty_partitions(&mut db);
    assert_eq!(picture(&db), vec![(2, 7, Some(1), 0, 0, 7), (1, 5, None, 1, 7, 12)]);
    assert_eq!(get_compactions(&db), 1);
    assert_eq!(
        db.compaction_logs,
        vec![NewCompactionLog { iteration: 1, partition: 2, previous_position: 5, final_position: 0 }]
    );
    assert!(db.is_valid());
}

#[test]
fn one_pass_moves_every_occupied_partition_below_the_free_ones() {
    let mut db = pool(&[(5, None), (7, Some(1)), (3, None), (4, Some(2))]);
    swap_process_partitions_with_empty_partitions(&mut db);
    assert_eq!(
        picture(&db),
        vec![
            (2, 7, Some(1), 0, 0, 7),
            (4, 4, Some(2), 1, 7, 11),
            (3, 3, None, 2, 11, 14),
            (1, 5, None, 3, 14, 19),
        ]
    );
    // One compaction is counted for the pass, however many partitions moved.
    assert_eq!(get_compactions(&db), 1);
    assert_eq!(
        db.compaction_logs,
        vec![
            NewCompactionLog { iteration: 1, partition: 2, previous_position: 5, final_position: 0 },
            NewCompactionLog { iteration: 1, partition: 4, previous_position: 15, final_position: 7 },
        ]
    );
    assert!(db.is_valid());
}

#[test]
fn free_partition_changes_places_with_the_nearest_occupied_one() {
    let mut db = pool(&[(5, None), (3, None), (2, Some(9))]);
    swap_process_partitions_with_empty_partitions(&mut db);
    // The first free partition and the occupied one are exchanged; the free
    // partition between them stays at its rank, and the offsets follow.
    assert_eq!(
        picture(&db),
        vec![(3, 2, Some(9), 0, 0, 2), (2, 3, None, 1, 2, 5), (1, 5, None, 2, 5, 10)]
    );
    assert_eq!(
        db.compaction_logs,
        vec![NewCompactionLog { iteration: 1, partition: 3, previous_position: 8, final_position: 0 }]
    );
    assert_eq!(get_compactions(&db), 1);
}

#[test]
fn free_partitions_without_an_occupied_one_above_them_stay() {
    let mut db = pool(&[(7, Some(1)), (5, None), (3, None)]);
    let before = picture(&db);
    swap_process_partitions_with_empty_partitions(&mut db);
    assert_eq!(picture(&db), before);
    assert_eq!(get_compactions(&db), 0);
    assert!(db.compaction_logs.is_empty());
}

#[test]
fn empty_pool_is_not_compacted() {
    let mut db = pool(&[]);
    swap_process_partitions_with_empty_partitions(&mut db);
    assert_eq!(db.storage_partitions.len(), 0);
    assert_eq!(get_compactions(&db), 0);
}

#[test]
fn bindings_survive_any_number_of_passes() {
    let mut db = pool(&[(5, None), (7, Some(1)), (3, None), (4, Some(2)), (6, None), (1, Some(3))]);
    let bound_before: Vec<(i32, i32, Option<i32>)> = picture(&db)
        .iter()
        .filter(|row| row.2.is_some())
        .map(|row| (row.0, row.1, row.2))
        .collect();
    for _ in 0..3 {
        swap_process_partitions_with_empty_partitions(&mut db);
        let bound_after: Vec<(i32, i32, Option<i32>)> = picture(&db)
            .iter()
            .filter(|row| row.2.is_some())
            .map(|row| (row.0, row.1, row.2))
            .collect();
        assert_eq!(bound_after, bound_before);
        assert!(db.is_valid());
        let used: i32 = db.storage_partitions.iter().map(|slot| slot.0.size).sum();
        assert_eq!(used, 26);
    }
    // Only the first pass had anything to move.
    assert_eq!(get_compactions(&db), 1);
}
