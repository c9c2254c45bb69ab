use memory_partitions::database::configuration::{
    get_compactions, get_condensations, get_configuration_value, get_memory_size,
    get_partition_consecutive_number, increment_compactions, increment_condensations,
    increment_partition_consecutive_number, reset_configuration, set_memory_size, SettingName,
    Settings,
};
use memory_partitions::database::{init_configuration, Database, INITIAL_MEMORY_SIZE};

#[test]
fn new_tables_have_initial_settings() {
    let db = Database::new();
    assert_eq!(
        db.configuration,
        Settings { memory_size: None, partition_consecutive_number: 1, compactions: 0, condensations: 0 }
    );
    assert_eq!(get_partition_consecutive_number(&db), 1);
    assert_eq!(get_compactions(&db), 0);
    assert_eq!(get_condensations(&db), 0);
    assert_eq!(get_configuration_value(&db, SettingName::MemorySize), None);
    assert!(db.is_valid());
}

#[test]
fn counters_count() {
    let mut db = Database::new();
    increment_compactions(&mut db);
    increment_compactions(&mut db);
    increment_condensations(&mut db);
    increment_partition_consecutive_number(&mut db);
    increment_partition_consecutive_number(&mut db);
    increment_partition_consecutive_number(&mut db);
    assert_eq!(get_compactions(&db), 2);
    assert_eq!(get_condensations(&db), 1);
    assert_eq!(get_partition_consecutive_number(&db), 4);
    assert_eq!(get_configuration_value(&db, SettingName::Compactions), Some(2));
    assert_eq!(get_configuration_value(&db, SettingName::Condensations), Some(1));
    assert_eq!(get_configuration_value(&db, SettingName::PartitionConsecutiveNumber), Some(4));
}

#[test]
fn capacity_is_set_and_read() {
    let mut db = Database::new();
    set_memory_size(&mut db, 128);
    assert_eq!(get_memory_size(&db), 128);
    set_memory_size(&mut db, 64);
    assert_eq!(get_memory_size(&db), 64);
    assert_eq!(get_configuration_value(&db, SettingName::MemorySize), Some(64));
    // The counters are not touched.
    assert_eq!(get_partition_consecutive_number(&db), 1);
}

#[test]
fn reset_forgets_everything() {
    let mut db = Database::new();
    set_memory_size(&mut db, 128);
    increment_compactions(&mut db);
    increment_condensations(&mut db);
    increment_partition_consecutive_number(&mut db);
    reset_configuration(&mut db);
    assert_eq!(
        db.configuration,
        Settings { memory_size: None, partition_consecutive_number: 1, compactions: 0, condensations: 0 }
    );
}

#[test]
fn simulation_starts_with_a_capacity_of_fifty() {
    let mut db = Database::new();
    set_memory_size(&mut db, 128);
    increment_compactions(&mut db);
    init_configuration(&mut db);
    assert_eq!(INITIAL_MEMORY_SIZE, 50);
    assert_eq!(get_memory_size(&db), 50);
    assert_eq!(get_compactions(&db), 0);
    assert_eq!(get_condensations(&db), 0);
    assert_eq!(get_partition_consecutive_number(&db), 1);
}
