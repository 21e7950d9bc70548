use std::collections::HashMap;

use dispatch::process::{
    mem_process, process_ids, processes_from, rand_pid, score_process, sort_by_pid, Process,
    PRIORITY_BONUS,
};

#[test]
fn test_rand_pid_returns_pid_from_map() {
    let mut processes = HashMap::new();
    processes.insert(1234, Process { pid: 1234, name: "foo".to_string() });
    processes.insert(5678, Process { pid: 5678, name: "bar".to_string() });
    let pid = rand_pid(processes);
    assert!(pid == 1234 || pid == 5678);
}

#[test]
fn test_rand_pid_single_entry_returns_that_pid() {
    let mut processes = HashMap::new();
    processes.insert(42, Process { pid: 42, name: "only".to_string() });
    assert_eq!(rand_pid(processes), 42);
}

#[test]
fn processes_from_keys_each_process_by_its_pid() {
    let readings = vec![(7, "init".to_string()), (300, "shell".to_string()), (12, "daemon".to_string())];
    let table = processes_from(&readings);
    assert_eq!(table.len(), 3);
    for (key, process) in &table {
        assert_eq!(*key, process.pid);
    }
    assert_eq!(table[&300].name, "shell");
}

#[test]
fn processes_from_keeps_the_last_reading_of_a_pid() {
    let readings = vec![(5, "old".to_string()), (6, "other".to_string()), (5, "new".to_string())];
    let table = processes_from(&readings);
    assert_eq!(table.len(), 2);
    assert_eq!(table[&5].name, "new");
    assert_eq!(table[&6].name, "other");
}

#[test]
fn processes_from_nothing_is_empty() {
    let table = processes_from(&Vec::new());
    assert!(table.is_empty());
}

#[test]
fn process_ids_lists_every_pid_once() {
    let readings = vec![(3, "a".to_string()), (1, "b".to_string()), (2, "c".to_string())];
    let table = processes_from(&readings);
    let mut ids = process_ids(&table);
    ids.sort();
    assert_eq!(ids, vec![1, 2, 3]);
}

#[test]
fn mem_process_converts_kib_to_mib() {
    assert_eq!(mem_process(Some(2048)), 2);
    assert_eq!(mem_process(Some(1023)), 0);
    assert_eq!(mem_process(Some(5 * 1024 + 1000)), 5);
}

#[test]
fn mem_process_of_a_missing_process_is_zero() {
    assert_eq!(mem_process(None), 0);
}

#[test]
fn mem_process_keeps_sixteen_bits() {
    assert_eq!(mem_process(Some(70_000 * 1024)), (70_000u64 % 65_536) as u16);
    assert_eq!(mem_process(Some(65_536 * 1024)), 0);
}

#[test]
fn score_of_a_missing_process_is_zero() {
    assert_eq!(score_process(false, false, 1234), 0);
    assert_eq!(score_process(false, true, 1234), 0);
}

#[test]
fn score_of_a_marked_process_is_the_bonus() {
    assert_eq!(score_process(true, true, 17), PRIORITY_BONUS);
    assert_eq!(PRIORITY_BONUS, 1_000_000);
}

#[test]
fn score_of_an_unmarked_process_is_its_usage() {
    assert_eq!(score_process(true, false, 4321), 4321);
}

#[test]
fn sort_by_pid_orders_and_keeps_equal_pids_in_order() {
    let input = vec![
        Process { pid: 30, name: "c".to_string() },
        Process { pid: 10, name: "a1".to_string() },
        Process { pid: 20, name: "b".to_string() },
        Process { pid: 10, name: "a2".to_string() },
    ];
    let sorted = sort_by_pid(input);
    let seen: Vec<(usize, &str)> = sorted.iter().map(|p| (p.pid, p.name.as_str())).collect();
    assert_eq!(seen, vec![(10, "a1"), (10, "a2"), (20, "b"), (30, "c")]);
}
