use std::collections::HashMap;

use dispatch::app_state::{AppState, ContinuousMode, Effect, Key, Outcome, MAX_OUTPUT_LINES};
use dispatch::process::{Process, PRIORITY_BONUS};

fn process(pid: usize, name: &str) -> Process {
    Process { pid, name: name.to_string() }
}

fn sample() -> AppState {
    let mut usage = HashMap::new();
    usage.insert(10, 300);
    usage.insert(20, 150);
    AppState::new(vec![process(30, "gone"), process(10, "editor"), process(20, "shell")], usage)
}

fn stay() -> Outcome {
    Outcome { quit: false, redraw: false, effect: Effect::Nothing }
}

fn redraw(effect: Effect) -> Outcome {
    Outcome { quit: false, redraw: true, effect }
}

#[test]
fn new_state_sorts_processes_and_selects_the_first() {
    let state = sample();
    let pids: Vec<usize> = state.processes().iter().map(|p| p.pid).collect();
    assert_eq!(pids, vec![10, 20, 30]);
    assert_eq!(state.selected(), Some(0));
    assert_eq!(state.status(), "Ready");
    assert_eq!(state.continuous_mode(), None);
    assert_eq!(state.score_of(10), 300);
    assert_eq!(state.score_of(30), 0);
    assert_eq!(state.score_of(99), 0);
}

#[test]
fn new_state_without_processes_selects_nothing() {
    let state = AppState::new(Vec::new(), HashMap::new());
    assert_eq!(state.selected(), None);
}

#[test]
fn quit_key_quits() {
    let mut state = sample();
    assert_eq!(state.handle_key(Key::Char('q')), Outcome { quit: true, redraw: false, effect: Effect::Nothing });
}

#[test]
fn arrows_move_within_the_list() {
    let mut state = sample();
    assert_eq!(state.handle_key(Key::Up), stay());
    assert_eq!(state.selected(), Some(0));
    state.handle_key(Key::Down);
    state.handle_key(Key::Down);
    state.handle_key(Key::Down);
    assert_eq!(state.selected(), Some(2));
}

#[test]
fn space_marks_and_unmarks_the_selected_process() {
    let mut state = sample();
    assert_eq!(state.handle_key(Key::Char(' ')), redraw(Effect::Nothing));
    assert!(state.priority().contains(&10));
    assert_eq!(state.score_of(10), PRIORITY_BONUS);
    state.handle_key(Key::Char(' '));
    assert!(!state.priority().contains(&10));
    assert_eq!(state.score_of(10), 300);
}

#[test]
fn eco_key_toggles_eco_mode() {
    let mut state = sample();
    assert_eq!(state.handle_key(Key::Char('e')), redraw(Effect::ApplyContinuousMode));
    assert_eq!(state.continuous_mode(), Some(ContinuousMode::Eco));
    assert_eq!(state.status(), "Eco mode running (re-applies every 5s)");
    assert_eq!(state.handle_key(Key::Char('e')), redraw(Effect::Nothing));
    assert_eq!(state.continuous_mode(), None);
    assert_eq!(state.status(), "Eco mode stopped");
}

#[test]
fn performance_key_reports_the_marked_count() {
    let mut state = sample();
    state.handle_key(Key::Char(' '));
    state.handle_key(Key::Down);
    state.handle_key(Key::Char(' '));
    assert_eq!(state.handle_key(Key::Char('p')), redraw(Effect::ApplyContinuousMode));
    assert_eq!(state.status(), "Performance mode running (2 priority pids, re-applies every 5s)");
    assert_eq!(state.continuous_mode(), Some(ContinuousMode::Performance));
    state.handle_key(Key::Char('p'));
    assert_eq!(state.status(), "Performance mode stopped");
    assert_eq!(state.continuous_mode(), None);
}

#[test]
fn gaming_and_kill_keys_name_the_selected_process() {
    let mut state = sample();
    state.handle_key(Key::Down);
    assert_eq!(state.handle_key(Key::Char('g')), redraw(Effect::Gaming(20)));
    assert_eq!(state.status(), "Gaming mode: reserved cores for shell (20)");
    assert_eq!(state.handle_key(Key::Char('k')), redraw(Effect::Kill(20)));
    assert_eq!(state.status(), "Killed shell (20)");
}

#[test]
fn other_keys_refresh_balance_or_do_nothing() {
    let mut state = sample();
    assert_eq!(state.handle_key(Key::Char('r')), redraw(Effect::Refresh));
    assert_eq!(state.status(), "Refreshed process list");
    assert_eq!(state.handle_key(Key::Char('a')), redraw(Effect::AutoBalance));
    assert_eq!(state.status(), "Auto-balanced across all cores");
    assert_eq!(state.handle_key(Key::Char('z')), stay());
    assert_eq!(state.handle_key(Key::Other), stay());
}

#[test]
fn refresh_moves_a_selection_past_the_end_to_the_last_row() {
    let mut state = sample();
    state.handle_key(Key::Down);
    state.handle_key(Key::Down);
    state.refresh(vec![process(5, "a")], HashMap::new());
    assert_eq!(state.selected(), Some(0));
    state.refresh(Vec::new(), HashMap::new());
    assert_eq!(state.selected(), None);
    state.refresh(vec![process(8, "b"), process(4, "c")], HashMap::new());
    assert_eq!(state.selected(), Some(1));
}

#[test]
fn output_keeps_the_newest_lines() {
    let mut state = sample();
    let lines: Vec<String> = (0..250).map(|i| format!("line {}", i)).collect();
    state.log(lines);
    assert_eq!(state.output_len(), MAX_OUTPUT_LINES);
    let tail = state.visible_output(5);
    assert_eq!(tail, vec!["line 247".to_string(), "line 248".to_string(), "line 249".to_string()]);
    assert!(state.visible_output(1).is_empty());
}

#[test]
fn header_and_rows_show_the_state() {
    let mut state = sample();
    state.handle_key(Key::Char(' '));
    state.handle_key(Key::Char('e'));
    assert_eq!(state.header_text(), "3 processes — 1 marked priority — eco mode: ON");
    let row = state.process_row(0);
    assert_eq!(row.pid, "10");
    assert_eq!(row.name, "editor");
    assert_eq!(row.score, PRIORITY_BONUS.to_string());
    assert_eq!(row.marker, "*");
    assert!(row.is_priority && row.is_selected);
    let other = state.process_row(1);
    assert_eq!(other.marker, "");
    assert!(!other.is_selected);
    assert!(state.help_line().ends_with(" | Eco mode running (re-applies every 5s)"));
}

#[test]
fn reapply_is_due_only_with_a_mode_on_after_the_interval() {
    let mut state = sample();
    assert!(!state.reapply_due(10_000));
    state.handle_key(Key::Char('e'));
    assert!(!state.reapply_due(4_999));
    assert!(state.reapply_due(5_000));
}
