use memory_partitions::model::memory::Memory;
use memory_partitions::model::process::Process;
use memory_partitions::model::process_log::ProcessLog;

#[test]
fn each_process_gets_a_partition_of_its_size() {
    let memory = Memory::new(vec![
        Process::new("A".to_string(), 5, 10),
        Process::new("B".to_string(), 6, 20),
        Process::new("C".to_string(), 7, 12),
    ]);
    assert_eq!(memory.partitions.len(), 3);
    assert_eq!(memory.partitions[0].size, 10);
    assert_eq!(memory.partitions[0].process.name, "A");
    assert_eq!(memory.partitions[1].size, 20);
    assert_eq!(memory.partitions[1].process.name, "B");
    assert_eq!(memory.partitions[2].size, 12);
    assert_eq!(memory.partitions[2].process.time, 7);
    assert_eq!(memory.get_total_memory_size(), 42);
}

#[test]
fn memory_without_processes_is_empty() {
    let memory = Memory::new(Vec::new());
    assert_eq!(memory.partitions.len(), 0);
    assert_eq!(memory.get_total_memory_size(), 0);
}

#[test]
fn total_may_pass_the_limits_on_its_way() {
    let memory = Memory::new(vec![
        Process::new("A".to_string(), 1, i32::MAX),
        Process::new("B".to_string(), 1, i32::MAX),
        Process::new("C".to_string(), 1, -i32::MAX),
    ]);
    assert_eq!(memory.get_total_memory_size(), i32::MAX);
}

#[test]
fn process_log_holds_what_it_is_given() {
    let log = ProcessLog {
        process_id: 1,
        iteration_log_id: 2,
        storage_partition_id: 3,
        storage_partition_size: 4,
        time_remaining: 5,
        state: 2,
    };
    assert_eq!(log, log.clone());
    assert_eq!(log.storage_partition_size, 4);
}
