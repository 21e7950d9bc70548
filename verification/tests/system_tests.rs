use std::collections::HashMap;

use sysinfo::{Pid, ProcessExt, System, SystemExt};

use dispatch::process::{processes_from, score_process, Process};

fn read_tasks() -> HashMap<usize, Process> {
    let sys = System::new_all();
    let readings: Vec<(usize, String)> = sys
        .processes()
        .iter()
        .map(|(pid, process)| (usize::from(*pid), process.name().to_string()))
        .collect();
    processes_from(&readings)
}

#[test]
fn test_read_tasks_not_empty() {
    let tasks = read_tasks();
    assert!(!tasks.is_empty(), "expected at least one running process");
}

#[test]
fn test_read_tasks_pid_keys_match_process_pids() {
    let tasks = read_tasks();
    for (key, process) in &tasks {
        assert_eq!(*key, process.pid, "map key should equal Process.pid");
    }
}

#[test]
fn test_read_tasks_process_names_nonempty() {
    let tasks = read_tasks();
    for process in tasks.values() {
        assert!(!process.name.is_empty(), "process name should not be empty");
    }
}

#[test]
fn test_eval_process_nonexistent_pid_returns_zero() {
    // PID 999_999 is extremely unlikely to exist
    let sys = System::new_all();
    let pid = Pid::from(999_999_usize);
    let result = score_process(sys.process(pid).is_some(), false, 12345);
    assert_eq!(result, 0);
}
