use memory_partitions::database::processes::{
    check_process_name_is_unique, create_process, delete_all_processes, delete_process_with_id,
    init_processes, select_all_processes, select_process_with_id, select_processes_with_state,
    update_process_with_id,
};
use memory_partitions::database::Database;
use memory_partitions::model::process::Process;
use memory_partitions::model::state::StateEnum;
use memory_partitions::processor;

fn three() -> Database {
    let mut db = Database::new();
    create_process(&mut db, Process::new("A".to_string(), 5, 10));
    create_process(&mut db, Process::new("B".to_string(), 6, 20));
    create_process(&mut db, Process::new("C".to_string(), 7, 30));
    db
}

#[test]
fn new_processes_get_growing_ids_and_are_ready() {
    let db = three();
    let all = select_all_processes(&db);
    assert_eq!(all.len(), 3);
    assert_eq!((all[0].id, all[0].name.as_str(), all[0].time, all[0].size, all[0].state), (1, "A", 5, 10, 0));
    assert_eq!((all[1].id, all[1].name.as_str(), all[1].time, all[1].size, all[1].state), (2, "B", 6, 20, 0));
    assert_eq!((all[2].id, all[2].name.as_str(), all[2].time, all[2].size, all[2].state), (3, "C", 7, 30, 0));
    assert!(db.is_valid());
}

#[test]
fn name_is_unique_unless_another_process_has_it() {
    let db = three();
    assert!(check_process_name_is_unique(&db, None, "D"));
    assert!(!check_process_name_is_unique(&db, None, "B"));
    // A process may keep its own name.
    assert!(check_process_name_is_unique(&db, Some(2), "B"));
    assert!(!check_process_name_is_unique(&db, Some(1), "B"));
    assert!(check_process_name_is_unique(&Database::new(), None, "B"));
}

#[test]
fn renaming_to_a_name_in_use_is_rejected_and_changes_nothing() {
    let mut db = three();
    assert!(!processor::update_process_with_id(&mut db, 1, "B".to_string(), 99, 98));
    let all = select_all_processes(&db);
    assert_eq!((all[0].id, all[0].name.as_str(), all[0].time, all[0].size, all[0].state), (1, "A", 5, 10, 0));
    assert_eq!((all[1].id, all[1].name.as_str(), all[1].time, all[1].size, all[1].state), (2, "B", 6, 20, 0));
    assert_eq!(all.len(), 3);
}

#[test]
fn renaming_to_a_free_name_is_accepted() {
    let mut db = three();
    db.processes[0].state = 3;
    assert!(processor::update_process_with_id(&mut db, 1, "D".to_string(), 99, 98));
    let found = select_process_with_id(&db, 1).unwrap();
    // The process is ready again.
    assert_eq!((found.id, found.name.as_str(), found.time, found.size, found.state), (1, "D", 99, 98, 0));
    // Keeping the own name is accepted too.
    assert!(processor::update_process_with_id(&mut db, 2, "B".to_string(), 1, 2));
    let found = select_process_with_id(&db, 2).unwrap();
    assert_eq!((found.name.as_str(), found.time, found.size), ("B", 1, 2));
    // A negative size is not.
    assert!(!processor::update_process_with_id(&mut db, 2, "E".to_string(), 1, -2));
    assert_eq!(select_process_with_id(&db, 2).unwrap().name, "B");
    // A request for a process that is not there is accepted and changes nothing.
    assert!(processor::update_process_with_id(&mut db, 9, "F".to_string(), 1, 2));
    assert_eq!(select_all_processes(&db).len(), 3);
    assert!(check_process_name_is_unique(&db, None, "F"));
}

#[test]
fn saving_a_process_with_a_name_in_use_is_rejected() {
    let mut db = three();
    assert!(!processor::save_process(&mut db, "A".to_string(), 1, 1));
    assert_eq!(select_all_processes(&db).len(), 3);
    assert!(processor::save_process(&mut db, "D".to_string(), 8, 40));
    let found = select_process_with_id(&db, 4).unwrap();
    assert_eq!((found.name.as_str(), found.time, found.size, found.state), ("D", 8, 40, 0));
    assert!(!processor::save_process(&mut db, "E".to_string(), 8, -1));
    assert_eq!(select_all_processes(&db).len(), 4);
}

#[test]
fn update_changes_the_record_with_the_id() {
    let mut db = three();
    let changed = Process {
        id: None,
        name: "B2".to_string(),
        time: 1,
        size: 2,
        state: StateEnum::Running,
    };
    assert_eq!(update_process_with_id(&mut db, 2, &changed), 1);
    let found = select_process_with_id(&db, 2).unwrap();
    assert_eq!((found.id, found.name.as_str(), found.time, found.size, found.state), (2, "B2", 1, 2, 2));
    assert_eq!(update_process_with_id(&mut db, 8, &changed), 0);
    assert_eq!(select_all_processes(&db).len(), 3);
    assert!(select_process_with_id(&db, 8).is_none());
}

#[test]
fn processes_are_selected_by_state() {
    let mut db = three();
    db.processes[1].state = 2;
    let ready = select_processes_with_state(&db, 0);
    assert_eq!(ready.len(), 2);
    assert_eq!(ready[0].id, 1);
    assert_eq!(ready[1].id, 3);
    let running = select_processes_with_state(&db, 2);
    assert_eq!(running.len(), 1);
    assert_eq!(running[0].id, 2);
    assert!(select_processes_with_state(&db, 3).is_empty());
}

#[test]
fn processes_are_deleted() {
    let mut db = three();
    assert_eq!(delete_process_with_id(&mut db, 2), 1);
    assert_eq!(delete_process_with_id(&mut db, 2), 0);
    let all = select_all_processes(&db);
    assert_eq!(all.len(), 2);
    assert_eq!(all[0].id, 1);
    assert_eq!(all[1].id, 3);
    // The next id follows the last one.
    create_process(&mut db, Process::new("D".to_string(), 1, 1));
    assert_eq!(db.processes[2].id, 4);
    assert_eq!(delete_all_processes(&mut db), 3);
    assert!(select_all_processes(&db).is_empty());
    assert_eq!(delete_all_processes(&mut db), 0);
    create_process(&mut db, Process::new("E".to_string(), 1, 1));
    assert_eq!(db.processes[0].id, 1);
}

#[test]
fn ten_sample_processes_are_created() {
    let mut db = Database::new();
    create_process(&mut db, Process::new("first".to_string(), 1, 1));
    init_processes(&mut db);
    let all = select_all_processes(&db);
    assert_eq!(all.len(), 11);
    let expected = [
        ("P1", 20, 10),
        ("P2", 6, 4),
        ("P3", 18, 9),
        ("P4", 4, 20),
        ("P5", 3, 10),
        ("P6", 12, 18),
        ("P7", 14, 17),
        ("P8", 8, 16),
        ("P9", 9, 1),
        ("P10", 10, 50),
    ];
    for (rank, (name, time, size)) in expected.iter().enumerate() {
        let process = &all[rank + 1];
        assert_eq!(process.id, rank as i32 + 2);
        assert_eq!(process.name, *name);
        assert_eq!(process.time, *time);
        assert_eq!(process.size, *size);
        assert_eq!(process.state, 0);
    }
}
